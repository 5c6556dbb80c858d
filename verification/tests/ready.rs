use chakobsa::block::{BasicBlock, Terminator};
use chakobsa::function::Function;
use chakobsa::inst::{InstKind, Instruction};
use chakobsa::module::Module;
use chakobsa::parser::parse;
use chakobsa::ready::is_codegen_ready;
use chakobsa::types::Type;
use chakobsa::validate::validate_module;
use chakobsa::value::{BlockId, ValueId};

fn ret_fn(name: &str) -> Function {
    let mut f = Function::new(name, vec![], Some(Type::I64));
    f.blocks.push(BasicBlock {
        id: BlockId(0),
        instructions: vec![Instruction { id: ValueId(0), ty: Type::I64, kind: InstKind::ConstI64(1) }],
        terminator: Some(Terminator::Return(Some(ValueId(0)))),
    });
    f
}

#[test]
fn parsed_and_validated_programs_are_ready_for_code_generation() {
    let module = parse(
        r#"
        fn sum_to(n: i64) -> i64 {
            let acc = 0;
            let i = 0;
            while i < n { acc = acc + i; i = i + 1; }
            if acc > 10 and n > 2 { acc = 10; }
            return acc;
        }
        fn main() -> i64 { return sum_to(5); }
        "#,
    )
    .unwrap();
    assert_eq!(validate_module(&module), Ok(()));
    assert!(is_codegen_ready(&module));
}

#[test]
fn two_functions_of_the_same_name_validate_and_are_ready() {
    let module = Module { functions: vec![ret_fn("f"), ret_fn("f")] };
    assert_eq!(validate_module(&module), Ok(()));
    assert!(is_codegen_ready(&module));
}

#[test]
fn a_phi_naming_one_predecessor_twice_validates_but_is_not_ready() {
    let entry = BlockId(0);
    let a = BlockId(1);
    let b = BlockId(2);
    let join = BlockId(3);
    let mut f = Function::new("f", vec![], Some(Type::I64));
    f.blocks = vec![
        BasicBlock {
            id: entry,
            instructions: vec![
                Instruction { id: ValueId(0), ty: Type::Bool, kind: InstKind::ConstBool(true) },
                Instruction { id: ValueId(1), ty: Type::I64, kind: InstKind::ConstI64(7) },
            ],
            terminator: Some(Terminator::Branch { cond: ValueId(0), then_block: a, else_block: b }),
        },
        BasicBlock { id: a, instructions: vec![], terminator: Some(Terminator::Jump(join)) },
        BasicBlock { id: b, instructions: vec![], terminator: Some(Terminator::Jump(join)) },
        BasicBlock {
            id: join,
            instructions: vec![Instruction {
                id: ValueId(2),
                ty: Type::I64,
                kind: InstKind::Phi(vec![(a, ValueId(1)), (a, ValueId(1))]),
            }],
            terminator: Some(Terminator::Return(Some(ValueId(2)))),
        },
    ];
    let module = Module { functions: vec![f] };
    assert_eq!(validate_module(&module), Ok(()));
    assert!(!is_codegen_ready(&module));
}

#[test]
fn a_block_without_a_terminator_is_not_ready() {
    let mut f = ret_fn("f");
    f.blocks[0].terminator = None;
    assert!(!is_codegen_ready(&Module { functions: vec![f] }));
}

#[test]
fn an_operand_that_nothing_defines_is_not_ready() {
    let mut f = ret_fn("f");
    f.blocks[0].terminator = Some(Terminator::Return(Some(ValueId(9))));
    assert!(!is_codegen_ready(&Module { functions: vec![f] }));
}

#[test]
fn a_jump_to_a_missing_block_is_not_ready() {
    let mut f = ret_fn("f");
    f.blocks[0].terminator = Some(Terminator::Jump(BlockId(5)));
    assert!(!is_codegen_ready(&Module { functions: vec![f] }));
}

#[test]
fn a_function_without_blocks_is_not_ready() {
    let f = Function::new("f", vec![], None);
    assert!(!is_codegen_ready(&Module { functions: vec![f] }));
    assert!(is_codegen_ready(&Module::default()));
}
