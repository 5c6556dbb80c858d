use std::collections::HashMap;

use chakobsa::block::{BasicBlock, Terminator};
use chakobsa::codegen::{compile_module, CodegenError, CompiledModule, STACK_BASE};
use chakobsa::function::Function;
use chakobsa::inst::{BinOp, InstKind, Instruction};
use chakobsa::liveness::{analyze, live_within_block};
use chakobsa::machine::{MachBlock, MachInst, Opcode, Program};
use chakobsa::module::Module;
use chakobsa::parser::parse;
use chakobsa::regalloc::{allocate, RegAllocError, NUM_GP_REGS, RET_REG, STACK_PTR, ZERO_REG};
use chakobsa::types::Type;
use chakobsa::validate::validate_module;
use chakobsa::value::{BlockId, ValueId};

/// fn f(n: i64) -> i64 { let acc = 0; while acc < n { acc = acc + 1; } return acc; }
fn build_loop_fn() -> Function {
    let n = ValueId(0);
    let zero = ValueId(1);
    let acc_phi = ValueId(2);
    let cond = ValueId(3);
    let acc_next = ValueId(4);
    let one = ValueId(5);
    let b0 = BlockId(0);
    let header = BlockId(1);
    let body = BlockId(2);
    let exit = BlockId(3);
    let block0 = BasicBlock {
        id: b0,
        instructions: vec![Instruction { id: zero, ty: Type::I64, kind: InstKind::ConstI64(0) }],
        terminator: Some(Terminator::Jump(header)),
    };
    let header_block = BasicBlock {
        id: header,
        instructions: vec![
            Instruction {
                id: acc_phi,
                ty: Type::I64,
                kind: InstKind::Phi(vec![(b0, zero), (body, acc_next)]),
            },
            Instruction { id: cond, ty: Type::Bool, kind: InstKind::Bin(BinOp::CmpLt, acc_phi, n) },
        ],
        terminator: Some(Terminator::Branch { cond, then_block: body, else_block: exit }),
    };
    let body_block = BasicBlock {
        id: body,
        instructions: vec![
            Instruction { id: one, ty: Type::I64, kind: InstKind::ConstI64(1) },
            Instruction { id: acc_next, ty: Type::I64, kind: InstKind::Bin(BinOp::Add, acc_phi, one) },
        ],
        terminator: Some(Terminator::Jump(header)),
    };
    let exit_block = BasicBlock {
        id: exit,
        instructions: vec![],
        terminator: Some(Terminator::Return(Some(acc_phi))),
    };
    Function {
        name: "f".to_string(),
        params: vec![("n".to_string(), Type::I64)],
        ret_ty: Some(Type::I64),
        blocks: vec![block0, header_block, body_block, exit_block],
        entry: b0,
    }
}

#[test]
fn the_functions_own_parameter_is_live_everywhere_it_could_still_be_read() {
    let func = build_loop_fn();
    let liveness = analyze(&func);
    assert!(liveness.live_out[&0].contains(&0));
    assert!(liveness.live_in[&1].contains(&0));
}

#[test]
fn the_loop_carried_phi_is_live_across_the_back_edge() {
    let func = build_loop_fn();
    let liveness = analyze(&func);
    assert!(liveness.live_in[&2].contains(&2));
    assert!(liveness.live_out[&1].contains(&2));
}

#[test]
fn a_value_dead_after_its_own_block_is_not_live_out() {
    let func = build_loop_fn();
    let liveness = analyze(&func);
    assert!(!liveness.live_out[&2].contains(&5));
}

#[test]
fn live_within_block_includes_both_used_and_passed_through_values() {
    let func = build_loop_fn();
    let liveness = analyze(&func);
    let live = live_within_block(&func, BlockId(1), &liveness);
    assert!(live.contains(&0));
    assert!(live.contains(&2));
    assert!(live.contains(&3));
}

#[test]
fn the_exit_block_has_nothing_live_out_and_only_its_return_value_live_in() {
    let func = build_loop_fn();
    let liveness = analyze(&func);
    assert!(liveness.live_out[&3].is_empty());
    assert_eq!(liveness.live_in[&3].len(), 1);
    assert!(liveness.live_in[&3].contains(&2));
    assert!(liveness.live_in[&0].len() == 1 && liveness.live_in[&0].contains(&0));
}

/// fn add(a: i64, b: i64) -> i64 { return a + b; }
fn build_add() -> Function {
    let sum = ValueId(2);
    Function {
        name: "add".to_string(),
        params: vec![("a".to_string(), Type::I64), ("b".to_string(), Type::I64)],
        ret_ty: Some(Type::I64),
        blocks: vec![BasicBlock {
            id: BlockId(0),
            instructions: vec![Instruction {
                id: sum,
                ty: Type::I64,
                kind: InstKind::Bin(BinOp::Add, ValueId(0), ValueId(1)),
            }],
            terminator: Some(Terminator::Return(Some(sum))),
        }],
        entry: BlockId(0),
    }
}

#[test]
fn parameters_are_pre_colored_to_their_positional_register() {
    let func = build_add();
    let alloc = allocate(&func, 0, 0).unwrap();
    assert_eq!(alloc.registers[&0], 0);
    assert_eq!(alloc.registers[&1], 1);
}

#[test]
fn a_value_with_no_interference_gets_a_register_not_a_spill() {
    let func = build_add();
    let alloc = allocate(&func, 0, 0).unwrap();
    assert!(!alloc.is_spilled(ValueId(2)));
    assert!(alloc.registers.contains_key(&2));
}

#[test]
fn reserved_arg_registers_are_never_given_to_non_parameter_values() {
    let func = build_add();
    let alloc = allocate(&func, 0, 5).unwrap();
    assert_eq!(alloc.registers[&0], 0);
    assert_eq!(alloc.registers[&1], 1);
    assert!(alloc.registers[&2] >= 5);
}

fn many_live_fn() -> Function {
    let mut instructions = Vec::new();
    let mut kept = Vec::new();
    for i in 0..40u32 {
        let id = ValueId(10 + i);
        instructions.push(Instruction { id, ty: Type::I64, kind: InstKind::ConstI64(i as i64) });
        kept.push(id);
    }
    let mut acc = kept[0];
    for &k in &kept[1..] {
        let next = ValueId(1000 + k.0);
        instructions.push(Instruction { id: next, ty: Type::I64, kind: InstKind::Bin(BinOp::Add, acc, k) });
        acc = next;
    }
    Function {
        name: "many_live".to_string(),
        params: vec![],
        ret_ty: Some(Type::I64),
        blocks: vec![BasicBlock {
            id: BlockId(0),
            instructions,
            terminator: Some(Terminator::Return(Some(acc))),
        }],
        entry: BlockId(0),
    }
}

#[test]
fn more_concurrently_live_values_than_registers_forces_a_spill() {
    let func = many_live_fn();
    let alloc = allocate(&func, 0, 0).unwrap();
    assert!(!alloc.spills.is_empty());
}

#[test]
fn spill_slots_are_eight_bytes_apart_from_the_base_address() {
    let func = many_live_fn();
    let alloc = allocate(&func, 4096, 0).unwrap();
    let mut addrs: Vec<u64> = alloc.spills.values().copied().collect();
    addrs.sort();
    for (i, a) in addrs.iter().enumerate() {
        assert_eq!(*a, 4096 + 8 * i as u64);
    }
    for (v, _) in &alloc.spills {
        assert!(!alloc.registers.contains_key(v));
    }
}

#[test]
fn too_many_parameters_is_a_typed_error() {
    let params: Vec<(String, Type)> =
        (0..(NUM_GP_REGS as usize + 1)).map(|i| (format!("p{i}"), Type::I64)).collect();
    let func = Function::new("f", params, Some(Type::I64));
    let result = allocate(&func, 0, 0);
    assert!(matches!(result, Err(RegAllocError::TooManyParameters { .. })));
    assert_eq!(
        result.unwrap_err(),
        RegAllocError::TooManyParameters { func: "f".into(), count: 28, max: 27 }
    );
}

#[test]
fn too_many_parameters_is_reported_whatever_the_blocks_hold() {
    let params: Vec<(String, Type)> =
        (0..(NUM_GP_REGS as usize + 1)).map(|i| (format!("p{i}"), Type::I64)).collect();
    let mut func = Function::new("wide", params, Some(Type::I64));
    func.blocks = vec![
        BasicBlock { id: BlockId(0), instructions: vec![], terminator: Some(Terminator::Jump(BlockId(9))) },
        BasicBlock { id: BlockId(0), instructions: vec![], terminator: None },
    ];
    assert_eq!(
        allocate(&func, 0, 0).unwrap_err(),
        RegAllocError::TooManyParameters { func: "wide".into(), count: 28, max: 27 }
    );
}

// ---- running compiled programs ----

/// Why a run of the machine stopped without halting.
#[derive(Debug, PartialEq)]
enum Trap {
    DivideByZero,
    CallStackUnderflow,
    BadBlock,
    StepLimit,
}

/// A small interpreter for the register machine the code generator
/// targets, following the opcode descriptions in `chakobsa::machine`.
fn run_machine(program: &Program) -> Result<[i64; 32], Trap> {
    let mut regs = [0i64; 32];
    let mut mem: HashMap<i64, i64> = HashMap::new();
    let mut calls: Vec<usize> = Vec::new();
    let mut block = program.entry;
    let mut steps = 0u64;
    loop {
        let b = program.blocks.get(block).ok_or(Trap::BadBlock)?;
        let mut next = block + 1;
        for ins in &b.instructions {
            steps += 1;
            if steps > 10_000_000 {
                return Err(Trap::StepLimit);
            }
            let (a, x, y, imm) = (ins.a as usize, ins.b as usize, ins.c as usize, ins.imm as i64);
            let bin = |f: fn(i64, i64) -> i64, regs: &mut [i64; 32]| {
                regs[a] = f(regs[x], regs[y]);
            };
            match ins.opcode {
                Opcode::LoadI => regs[a] = imm,
                Opcode::Load => regs[a] = *mem.get(&(regs[x] + imm)).unwrap_or(&0),
                Opcode::Store => {
                    mem.insert(regs[a] + imm, regs[x]);
                }
                Opcode::Mov => regs[a] = regs[x],
                Opcode::Add => bin(|p, q| p.wrapping_add(q), &mut regs),
                Opcode::Sub => bin(|p, q| p.wrapping_sub(q), &mut regs),
                Opcode::Mul => bin(|p, q| p.wrapping_mul(q), &mut regs),
                Opcode::Div => {
                    if regs[y] == 0 {
                        return Err(Trap::DivideByZero);
                    }
                    regs[a] = regs[x].wrapping_div(regs[y]);
                }
                Opcode::Mod => {
                    if regs[y] == 0 {
                        return Err(Trap::DivideByZero);
                    }
                    regs[a] = regs[x].wrapping_rem(regs[y]);
                }
                Opcode::CmpEq => bin(|p, q| (p == q) as i64, &mut regs),
                Opcode::CmpNe => bin(|p, q| (p != q) as i64, &mut regs),
                Opcode::CmpLt => bin(|p, q| (p < q) as i64, &mut regs),
                Opcode::CmpLe => bin(|p, q| (p <= q) as i64, &mut regs),
                Opcode::CmpGt => bin(|p, q| (p > q) as i64, &mut regs),
                Opcode::CmpGe => bin(|p, q| (p >= q) as i64, &mut regs),
                Opcode::And => bin(|p, q| p & q, &mut regs),
                Opcode::Or => bin(|p, q| p | q, &mut regs),
                Opcode::Jmp => {
                    next = imm as usize;
                    break;
                }
                Opcode::Jz => {
                    if regs[x] == 0 {
                        next = imm as usize;
                    }
                    break;
                }
                Opcode::Call => {
                    calls.push(block + 1);
                    next = imm as usize;
                    break;
                }
                Opcode::Ret => {
                    next = calls.pop().ok_or(Trap::CallStackUnderflow)?;
                    break;
                }
                Opcode::Halt => return Ok(regs),
            }
        }
        block = next;
    }
}

/// The compiled program with a driver that loads `args` into the argument
/// registers, calls `entry`, and halts.
fn with_driver(compiled: CompiledModule, entry: &str, args: &[i64]) -> Program {
    let entry_block = compiled.entry_of(entry).expect("entry function exists");
    let mut blocks = compiled.program.blocks;
    let driver_block = blocks.len();
    let mut driver = vec![MachInst::new(Opcode::LoadI, STACK_PTR, 0, 0, STACK_BASE as i32)];
    for (i, &v) in args.iter().enumerate() {
        driver.push(MachInst::new(Opcode::LoadI, i as u8, 0, 0, v as i32));
    }
    driver.push(MachInst::new(Opcode::Call, 0, 0, 0, entry_block as i32));
    blocks.push(MachBlock { label: "driver_call".to_string(), instructions: driver });
    blocks.push(MachBlock {
        label: "driver_halt".to_string(),
        instructions: vec![MachInst::new(Opcode::Halt, 0, 0, 0, 0)],
    });
    Program { blocks, entry: driver_block }
}

/// Every block ends in exactly one control transfer, and every jump and
/// call target is a block of the program.
fn check_program(program: &Program) {
    for b in &program.blocks {
        assert!(!b.instructions.is_empty(), "block {} is empty", b.label);
        let last = b.instructions.last().unwrap();
        assert!(matches!(
            last.opcode,
            Opcode::Jmp | Opcode::Jz | Opcode::Call | Opcode::Ret | Opcode::Halt
        ));
        for ins in &b.instructions[..b.instructions.len() - 1] {
            assert!(!matches!(
                ins.opcode,
                Opcode::Jmp | Opcode::Jz | Opcode::Call | Opcode::Ret | Opcode::Halt
            ));
        }
        if matches!(last.opcode, Opcode::Jmp | Opcode::Jz | Opcode::Call) {
            assert!((last.imm as usize) < program.blocks.len());
        }
        for ins in &b.instructions {
            let writes_a = !matches!(
                ins.opcode,
                Opcode::Store | Opcode::Jmp | Opcode::Jz | Opcode::Call | Opcode::Ret | Opcode::Halt
            );
            if writes_a {
                assert_ne!(ins.a, ZERO_REG, "block {} writes the zero register", b.label);
            }
        }
    }
}

fn exec(src: &str, entry: &str, args: &[i64]) -> i64 {
    let module = parse(src).unwrap_or_else(|e| panic!("parse error: {e:?}"));
    validate_module(&module).unwrap_or_else(|e| panic!("ir failed validation: {e:?}"));
    let compiled = compile_module(&module).unwrap_or_else(|e| panic!("codegen error: {e:?}"));
    check_program(&compiled.program);
    let program = with_driver(compiled, entry, args);
    let regs = run_machine(&program).unwrap_or_else(|t| panic!("machine trapped: {t:?}"));
    regs[RET_REG as usize]
}

#[test]
fn straight_line_arithmetic() {
    let src = "fn add(a: i64, b: i64) -> i64 { return a + b; }";
    assert_eq!(exec(src, "add", &[3, 4]), 7);
}

#[test]
fn operator_precedence() {
    let src = "fn f() -> i64 { return 2 + 3 * 4 - 1; }";
    assert_eq!(exec(src, "f", &[]), 13);
}

#[test]
fn if_else_branch() {
    let src = r#"
        fn abs(x: i64) -> i64 {
            if x < 0 { return -x; } else { return x; }
        }
    "#;
    assert_eq!(exec(src, "abs", &[-7]), 7);
    assert_eq!(exec(src, "abs", &[7]), 7);
}

#[test]
fn if_without_else_uses_a_real_phi() {
    let src = r#"
        fn clamp_positive(x: i64) -> i64 {
            let y = x;
            if x < 0 { y = 0; }
            return y;
        }
    "#;
    assert_eq!(exec(src, "clamp_positive", &[-5]), 0);
    assert_eq!(exec(src, "clamp_positive", &[5]), 5);
}

#[test]
fn while_loop_with_a_loop_carried_variable() {
    let src = r#"
        fn sum_to(n: i64) -> i64 {
            let acc = 0;
            let i = 0;
            while i < n {
                acc = acc + i;
                i = i + 1;
            }
            return acc;
        }
    "#;
    assert_eq!(exec(src, "sum_to", &[5]), 10);
    assert_eq!(exec(src, "sum_to", &[0]), 0);
    assert_eq!(exec(src, "sum_to", &[1]), 0);
}

#[test]
fn nested_while_loops() {
    let src = r#"
        fn count_pairs(n: i64) -> i64 {
            let count = 0;
            let i = 0;
            while i < n {
                let j = 0;
                while j < n {
                    count = count + 1;
                    j = j + 1;
                }
                i = i + 1;
            }
            return count;
        }
    "#;
    assert_eq!(exec(src, "count_pairs", &[3]), 9);
}

#[test]
fn recursive_function() {
    let src = r#"
        fn fact(n: i64) -> i64 {
            if n <= 1 { return 1; } else { return n * fact(n - 1); }
        }
    "#;
    assert_eq!(exec(src, "fact", &[5]), 120);
}

#[test]
fn mutually_recursive_functions() {
    let src = r#"
        fn is_even(n: i64) -> bool {
            if n == 0 { return true; } else { return is_odd(n - 1); }
        }
        fn is_odd(n: i64) -> bool {
            if n == 0 { return false; } else { return is_even(n - 1); }
        }
    "#;
    assert_eq!(exec(src, "is_even", &[10]), 1);
    assert_eq!(exec(src, "is_odd", &[10]), 0);
    assert_eq!(exec(src, "is_odd", &[7]), 1);
}

#[test]
fn a_call_used_inside_a_larger_expression() {
    let src = r#"
        fn square(x: i64) -> i64 { return x * x; }
        fn sum_of_squares(a: i64, b: i64) -> i64 { return square(a) + square(b); }
    "#;
    assert_eq!(exec(src, "sum_of_squares", &[3, 4]), 25);
}

#[test]
fn a_call_with_swapped_arguments_does_not_clobber_them() {
    let src = r#"
        fn sub(x: i64, y: i64) -> i64 { return x - y; }
        fn swapped(a: i64, b: i64) -> i64 { return sub(b, a); }
    "#;
    assert_eq!(exec(src, "swapped", &[10, 3]), -7);
}

#[test]
fn a_loop_that_swaps_two_variables_moves_them_in_parallel() {
    // The header's phis for `a` and `b` take each other's values along the
    // back edge: a swap that sequential moves would get wrong.
    let src = r#"
        fn f(n: i64) -> i64 {
            let a = 1;
            let b = 2;
            let i = 0;
            while i < n { let t = a; a = b; b = t; i = i + 1; }
            return a * 10 + b;
        }
    "#;
    assert_eq!(exec(src, "f", &[3]), 21);
    assert_eq!(exec(src, "f", &[4]), 12);
}

#[test]
fn short_circuit_and_never_evaluates_the_rhs_when_the_lhs_is_false() {
    let src = r#"
        fn f(x: i64) -> bool {
            return x != 0 and 10 / x > 1;
        }
    "#;
    assert_eq!(exec(src, "f", &[0]), 0);
    assert_eq!(exec(src, "f", &[1]), 1);
    assert_eq!(exec(src, "f", &[20]), 0);
}

#[test]
fn short_circuit_or_never_evaluates_the_rhs_when_the_lhs_is_true() {
    let src = r#"
        fn f(x: i64) -> bool {
            return x == 0 or 10 / x > 1;
        }
    "#;
    assert_eq!(exec(src, "f", &[0]), 1);
    assert_eq!(exec(src, "f", &[20]), 0);
    assert_eq!(exec(src, "f", &[1]), 1);
}

#[test]
fn not_and_boolean_literals() {
    let src = "fn f(x: bool) -> bool { return not x; }";
    assert_eq!(exec(src, "f", &[1]), 0);
    assert_eq!(exec(src, "f", &[0]), 1);
}

#[test]
fn a_program_that_spills_still_computes_the_right_result() {
    let module = Module { functions: vec![many_live_fn()] };
    let compiled = compile_module(&module).unwrap();
    check_program(&compiled.program);
    let program = with_driver(compiled, "many_live", &[]);
    let regs = run_machine(&program).unwrap();
    assert_eq!(regs[RET_REG as usize], (0..40).sum::<i64>());
}

#[test]
fn the_first_block_sets_up_the_stack_and_jumps_to_the_first_function() {
    let module = parse("fn g() -> i64 { return 1; } fn main() -> i64 { return g(); }").unwrap();
    let compiled = compile_module(&module).unwrap();
    let init = &compiled.program.blocks[0];
    assert_eq!(init.label, "init_stack_ptr");
    assert_eq!(
        init.instructions,
        vec![
            MachInst::new(Opcode::LoadI, STACK_PTR, 0, 0, STACK_BASE as i32),
            MachInst::new(Opcode::Jmp, 0, 0, 0, 1),
        ]
    );
    assert_eq!(compiled.program.entry, 0);
    assert_eq!(compiled.function_entry[0], ("g".to_string(), 1));
    assert_eq!(compiled.entry_of("g"), Some(1));
    assert_eq!(compiled.entry_of("nope"), None);
    assert!(compiled.entry_of("main").unwrap() > 1);
    assert_eq!(compiled.program.blocks[1].label, "g::0");
    let main_entry = compiled.entry_of("main").unwrap();
    assert_eq!(compiled.program.blocks[main_entry].label, format!("main::{}", main_entry - 1));
}

#[test]
fn too_many_functions_for_the_memory_layout_is_a_typed_error() {
    let functions: Vec<Function> = (0..129)
        .map(|i| {
            let mut f = Function::new(&format!("f{i}"), vec![], None);
            f.blocks.push(BasicBlock {
                id: BlockId(0),
                instructions: vec![],
                terminator: Some(Terminator::Return(None)),
            });
            f
        })
        .collect();
    let module = Module { functions };
    assert_eq!(
        compile_module(&module).unwrap_err(),
        CodegenError::TooManyFunctionsForMemoryLayout { count: 129 }
    );
}

#[test]
fn a_constant_outside_the_32_bit_immediate_is_a_typed_error() {
    let module = parse("fn f() -> i64 { return 5000000000; }").unwrap();
    assert_eq!(
        compile_module(&module).unwrap_err(),
        CodegenError::ConstantTooLarge { func: "f".into(), value: 5_000_000_000 }
    );
}

#[test]
fn too_many_parameters_surfaces_as_a_register_allocation_error() {
    let params: Vec<(String, Type)> = (0..28).map(|i| (format!("p{i}"), Type::I64)).collect();
    let mut f = Function::new("wide", params, None);
    f.blocks.push(BasicBlock {
        id: BlockId(0),
        instructions: vec![],
        terminator: Some(Terminator::Return(None)),
    });
    let module = Module { functions: vec![f] };
    assert_eq!(
        compile_module(&module).unwrap_err(),
        CodegenError::RegAlloc(RegAllocError::TooManyParameters { func: "wide".into(), count: 28, max: 27 })
    );
}

#[test]
fn a_call_to_a_function_the_module_lacks_is_a_typed_error() {
    let mut f = Function::new("caller", vec![], Some(Type::I64));
    f.blocks.push(BasicBlock {
        id: BlockId(0),
        instructions: vec![Instruction {
            id: ValueId(0),
            ty: Type::I64,
            kind: InstKind::Call { func: "missing".into(), args: vec![] },
        }],
        terminator: Some(Terminator::Return(Some(ValueId(0)))),
    });
    let module = Module { functions: vec![f] };
    assert_eq!(
        compile_module(&module).unwrap_err(),
        CodegenError::UnknownCallee { callee: "missing".into() }
    );
}

fn many_constants_fn(n: u32) -> Function {
    let mut f = Function::new("wide", vec![], Some(Type::I64));
    let mut instructions = Vec::new();
    for i in 0..n {
        instructions.push(Instruction { id: ValueId(i), ty: Type::I64, kind: InstKind::ConstI64(i as i64) });
    }
    let mut acc = ValueId(0);
    for i in 1..n {
        let id = ValueId(n + i - 1);
        instructions.push(Instruction { id, ty: Type::I64, kind: InstKind::Bin(BinOp::Add, acc, ValueId(i)) });
        acc = id;
    }
    f.blocks.push(BasicBlock { id: BlockId(0), instructions, terminator: Some(Terminator::Return(Some(acc))) });
    f
}

#[test]
fn spill_slots_past_the_function_region_are_a_typed_error() {
    let module = Module { functions: vec![many_constants_fn(600)] };
    assert_eq!(validate_module(&module), Ok(()));
    assert_eq!(compile_module(&module).err(), Some(CodegenError::OutOfSpillSpace { func: "wide".into() }));
    let small = Module { functions: vec![many_constants_fn(100)] };
    assert!(compile_module(&small).is_ok());
}

fn const_fn(name: &str, value: i64) -> Function {
    Function {
        name: name.to_string(),
        params: vec![],
        ret_ty: Some(Type::I64),
        blocks: vec![BasicBlock {
            id: BlockId(0),
            instructions: vec![Instruction { id: ValueId(0), ty: Type::I64, kind: InstKind::ConstI64(value) }],
            terminator: Some(Terminator::Return(Some(ValueId(0)))),
        }],
        entry: BlockId(0),
    }
}

#[test]
fn functions_sharing_a_name_are_reached_through_the_last_of_them() {
    let main = Function {
        name: "main".to_string(),
        params: vec![],
        ret_ty: Some(Type::I64),
        blocks: vec![BasicBlock {
            id: BlockId(0),
            instructions: vec![Instruction {
                id: ValueId(0),
                ty: Type::I64,
                kind: InstKind::Call { func: "f".to_string(), args: vec![] },
            }],
            terminator: Some(Terminator::Return(Some(ValueId(0)))),
        }],
        entry: BlockId(0),
    };
    let module = Module { functions: vec![const_fn("f", 1), const_fn("f", 2), main] };
    assert_eq!(validate_module(&module), Ok(()));
    assert!(chakobsa::ready::is_codegen_ready(&module));
    let compiled = compile_module(&module).unwrap();
    assert_eq!(compiled.function_entry[0].1, compiled.function_entry[1].1);
    assert_eq!(compiled.entry_of("f"), Some(compiled.function_entry[1].1));
    assert_eq!(compiled.program.blocks[0].instructions[1].imm as usize, compiled.function_entry[1].1);
    let regs = run_machine(&with_driver(compiled, "main", &[])).unwrap();
    assert_eq!(regs[RET_REG as usize], 2);
}

#[test]
fn a_shared_name_whose_last_function_lacks_a_jump_target_is_not_ready() {
    let mut first = const_fn("f", 1);
    first.blocks[0].terminator = Some(Terminator::Jump(BlockId(1)));
    first.blocks.push(BasicBlock {
        id: BlockId(1),
        instructions: vec![],
        terminator: Some(Terminator::Return(Some(ValueId(0)))),
    });
    let module = Module { functions: vec![first, const_fn("f", 2)] };
    assert!(!chakobsa::ready::is_codegen_ready(&module));
}

#[test]
fn liveness_has_one_entry_per_block_and_allocation_splits_values_between_registers_and_spills() {
    let module = parse(
        "fn f(a: i64, b: i64) -> i64 { let s = a + b; if s < 0 { return 0; } else { return s * a - b; } }",
    )
    .unwrap();
    let f = &module.functions[0];
    let l = analyze(f);
    assert_eq!(l.live_in.len(), f.blocks.len());
    assert_eq!(l.live_out.len(), f.blocks.len());
    for b in &f.blocks {
        assert!(l.live_in.contains_key(&b.id.0));
        assert!(l.live_out.contains_key(&b.id.0));
    }
    let a = allocate(f, 0x1000, 4).unwrap();
    assert_eq!(a.registers.get(&0), Some(&0));
    assert_eq!(a.registers.get(&1), Some(&1));
    for b in &f.blocks {
        for inst in &b.instructions {
            let v = inst.id.0;
            assert!(a.registers.contains_key(&v) != a.spills.contains_key(&v));
        }
    }
}
