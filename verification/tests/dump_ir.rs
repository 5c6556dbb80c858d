use chakobsa::block::{BasicBlock, Terminator};
use chakobsa::dump_ir::render;
use chakobsa::function::Function;
use chakobsa::inst::{InstKind, Instruction, UnOp};
use chakobsa::module::Module;
use chakobsa::parser::parse;
use chakobsa::types::Type;
use chakobsa::value::{BlockId, ValueId};

#[test]
fn dump_ir_prints_readable_ssa() {
    let module = parse("fn main() -> i64 { return 1 + 2; }").unwrap();
    let text = render(&module);
    assert!(text.contains("fn main"));
    assert!(text.contains("add"));
    assert!(text.contains("ret"));
    assert_eq!(
        text,
        "fn main() -> i64 {\n  b0 (entry):\n    v0 = const 1\n    v1 = const 2\n    v2 = add v0, v1\n    ret v2\n}\n"
    );
}

#[test]
fn functions_are_separated_by_a_blank_line_and_params_are_listed() {
    let module = parse("fn a(x: i64, y: bool) -> bool { return y; } fn b() -> i64 { return 0; }").unwrap();
    let text = render(&module);
    assert_eq!(
        text,
        "fn a(x: i64, y: bool) -> bool {\n  b0 (entry):\n    ret v1\n}\n\nfn b() -> i64 {\n  b0 (entry):\n    v0 = const 0\n    ret v0\n}\n"
    );
}

#[test]
fn every_instruction_kind_and_terminator_renders() {
    let entry = BlockId(0);
    let other = BlockId(1);
    let f = Function {
        name: "k".to_string(),
        params: vec![("p".to_string(), Type::Bool)],
        ret_ty: None,
        blocks: vec![
            BasicBlock {
                id: entry,
                instructions: vec![
                    Instruction { id: ValueId(1), ty: Type::I64, kind: InstKind::ConstI64(-5) },
                    Instruction { id: ValueId(2), ty: Type::Bool, kind: InstKind::ConstBool(false) },
                    Instruction { id: ValueId(3), ty: Type::Bool, kind: InstKind::Un(UnOp::Not, ValueId(0)) },
                    Instruction {
                        id: ValueId(4),
                        ty: Type::I64,
                        kind: InstKind::Call { func: "g".into(), args: vec![ValueId(1), ValueId(2)] },
                    },
                ],
                terminator: Some(Terminator::Branch { cond: ValueId(3), then_block: other, else_block: entry }),
            },
            BasicBlock {
                id: other,
                instructions: vec![Instruction {
                    id: ValueId(5),
                    ty: Type::I64,
                    kind: InstKind::Phi(vec![(entry, ValueId(1)), (other, ValueId(4))]),
                }],
                terminator: Some(Terminator::Jump(entry)),
            },
            BasicBlock { id: BlockId(2), instructions: vec![], terminator: Some(Terminator::Return(None)) },
        ],
        entry,
    };
    let text = render(&Module { functions: vec![f] });
    assert_eq!(
        text,
        "fn k(p: bool) {\n  b0 (entry):\n    v1 = const -5\n    v2 = const false\n    v3 = not v0\n    v4 = call g(v1, v2)\n    br v3, b1, b0\n  b1:\n    v5 = phi [b0 -> v1], [b1 -> v4]\n    jmp b0\n  b2:\n    ret\n}\n"
    );
}

#[test]
fn an_empty_module_renders_as_nothing() {
    assert_eq!(render(&Module::default()), "");
}

#[test]
fn ids_render_with_their_prefix() {
    assert_eq!(ValueId(12).text(), "v12");
    assert_eq!(BlockId(0).text(), "b0");
}
