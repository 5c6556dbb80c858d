use std::collections::HashMap;

use chakobsa::codegen::CodegenError;
use chakobsa::machine::{MachInst, Opcode, Program};
use chakobsa::parser::parse;
use chakobsa::regalloc::{RET_REG, STACK_PTR};
use chakobsa::runnable::{compile_runnable, RunnableError};

/// Runs `program` until it halts and returns the return register. Opcodes
/// as `chakobsa::machine` describes them; no division by zero occurs in
/// these programs.
fn run_to_halt(program: &Program) -> i64 {
    let mut regs = [0i64; 32];
    let mut mem: HashMap<i64, i64> = HashMap::new();
    let mut calls: Vec<usize> = Vec::new();
    let mut block = program.entry;
    loop {
        let mut next = block + 1;
        for ins in &program.blocks[block].instructions {
            let (a, x, y, imm) = (ins.a as usize, ins.b as usize, ins.c as usize, ins.imm as i64);
            match ins.opcode {
                Opcode::LoadI => regs[a] = imm,
                Opcode::Load => regs[a] = *mem.get(&(regs[x] + imm)).unwrap_or(&0),
                Opcode::Store => {
                    mem.insert(regs[a] + imm, regs[x]);
                }
                Opcode::Mov => regs[a] = regs[x],
                Opcode::Add => regs[a] = regs[x].wrapping_add(regs[y]),
                Opcode::Sub => regs[a] = regs[x].wrapping_sub(regs[y]),
                Opcode::Mul => regs[a] = regs[x].wrapping_mul(regs[y]),
                Opcode::Div => regs[a] = regs[x].wrapping_div(regs[y]),
                Opcode::Mod => regs[a] = regs[x].wrapping_rem(regs[y]),
                Opcode::CmpEq => regs[a] = (regs[x] == regs[y]) as i64,
                Opcode::CmpNe => regs[a] = (regs[x] != regs[y]) as i64,
                Opcode::CmpLt => regs[a] = (regs[x] < regs[y]) as i64,
                Opcode::CmpLe => regs[a] = (regs[x] <= regs[y]) as i64,
                Opcode::CmpGt => regs[a] = (regs[x] > regs[y]) as i64,
                Opcode::CmpGe => regs[a] = (regs[x] >= regs[y]) as i64,
                Opcode::And => regs[a] = regs[x] & regs[y],
                Opcode::Or => regs[a] = regs[x] | regs[y],
                Opcode::Jmp => {
                    next = imm as usize;
                    break;
                }
                Opcode::Jz => {
                    if regs[x] == 0 {
                        next = imm as usize;
                    }
                    break;
                }
                Opcode::Call => {
                    calls.push(block + 1);
                    next = imm as usize;
                    break;
                }
                Opcode::Ret => {
                    next = calls.pop().expect("return with an empty call stack");
                    break;
                }
                Opcode::Halt => return regs[RET_REG as usize],
            }
        }
        block = next;
    }
}

#[test]
fn run_prints_mains_return_value() {
    let module = parse("fn main() -> i64 { return 3 + 4; }").unwrap();
    let program = compile_runnable(&module).unwrap();
    assert_eq!(run_to_halt(&program), 7);
}

#[test]
fn run_supports_recursion_and_calls() {
    let module = parse(
        r#"
        fn fact(n: i64) -> i64 {
            if n <= 1 { return 1; } else { return n * fact(n - 1); }
        }
        fn main() -> i64 { return fact(5); }
        "#,
    )
    .unwrap();
    let program = compile_runnable(&module).unwrap();
    assert_eq!(run_to_halt(&program), 120);
}

#[test]
fn run_without_a_main_function_is_a_clean_error_not_a_panic() {
    let module = parse("fn f() -> i64 { return 1; }").unwrap();
    assert_eq!(compile_runnable(&module).unwrap_err(), RunnableError::MissingMain);
}

#[test]
fn a_main_that_takes_arguments_is_rejected() {
    let module = parse("fn main(x: i64) -> i64 { return x; }").unwrap();
    assert_eq!(compile_runnable(&module).unwrap_err(), RunnableError::MissingMain);
}

#[test]
fn a_codegen_failure_is_reported_as_such() {
    let module = parse("fn main() -> i64 { return 9000000000; }").unwrap();
    assert_eq!(
        compile_runnable(&module).unwrap_err(),
        RunnableError::Codegen(CodegenError::ConstantTooLarge { func: "main".into(), value: 9_000_000_000 })
    );
}

#[test]
fn the_driver_calls_main_and_then_halts() {
    let module = parse("fn helper() -> i64 { return 2; } fn main() -> i64 { return helper() * 21; }").unwrap();
    let program = compile_runnable(&module).unwrap();
    let n = program.blocks.len();
    assert_eq!(program.entry, n - 2);
    let driver = &program.blocks[n - 2];
    assert_eq!(driver.label, "chakobsac_driver");
    assert_eq!(driver.instructions[0], MachInst::new(Opcode::LoadI, STACK_PTR, 0, 0, 0x80000));
    let call = driver.instructions[1];
    assert_eq!(call.opcode, Opcode::Call);
    assert!(program.blocks[call.imm as usize].label.starts_with("main::"));
    assert_eq!(program.blocks[n - 1].label, "chakobsac_halt");
    assert_eq!(program.blocks[n - 1].instructions, vec![MachInst::new(Opcode::Halt, 0, 0, 0, 0)]);
    assert_eq!(run_to_halt(&program), 42);
}
