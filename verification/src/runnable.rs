//! A self-contained runnable program: the compiled module followed by a
//! driver block that sets up the call stack and calls `main`, and a block
//! that halts, so that `main`'s result is left in the return register.

use vstd::prelude::*;
use crate::codegen::{block_view, block_views, codegen_ready, compile_module, compile_spec, named_entry, CodegenError};
use crate::lower::mi;
use crate::machine::{MachBlock, MachInst, Opcode, Program};
use crate::module::{find_function, lemma_find_function, Module};
use crate::regalloc::STACK_PTR;

verus! {

/// Why a module cannot be made into a runnable program.
#[derive(Debug, Clone, PartialEq, Eq)]
pub enum RunnableError {
    /// There is no `main`, or it takes arguments.
    MissingMain,
    Codegen(CodegenError),
}

/// The module has a function named `main` that takes no arguments.
pub open spec fn has_runnable_main(m: Module) -> bool {
    match find_function(m.functions@, "main"@) {
        Some(j) => m.functions@[j].params@.len() == 0,
        None => false,
    }
}

/// The two blocks appended behind the compiled program: one that sets up
/// the call stack and calls the entry block `main_entry`, and one that halts.
pub open spec fn driver_blocks(main_entry: int) -> Seq<(Seq<char>, Seq<MachInst>)> {
    seq![
        ("chakobsac_driver"@, seq![mi(Opcode::LoadI, STACK_PTR, 0, 0, 0x80000), mi(Opcode::Call, 0, 0, 0, main_entry)]),
        ("chakobsac_halt"@, seq![mi(Opcode::Halt, 0, 0, 0, 0)])
    ]
}

/// Compiles `module` into a program that runs `main` and halts: the
/// compiled blocks, then the driver and halt blocks, starting at the driver.
/// `main` must be the first function of that name; the driver calls the
/// entry a lookup of `main` finds (that of the last function so named).
#[verifier::spinoff_prover]
pub fn compile_runnable(module: &Module) -> (r: Result<Program, RunnableError>)
    requires
        codegen_ready(*module),
    ensures
        !has_runnable_main(*module) ==> r == Err::<Program, RunnableError>(RunnableError::MissingMain),
        has_runnable_main(*module) ==> match compile_spec(*module) {
            Err(e) => r == Err::<Program, RunnableError>(RunnableError::Codegen(e)),
            Ok(bs) => r matches Ok(p) && p.entry == bs.len() && block_views(p.blocks@)
                == bs + driver_blocks(named_entry(*module, find_function(module.functions@, "main"@)->Some_0)),
        },
{
    proof { lemma_find_function(module.functions@, "main"@); }
    match module.function("main") {
        Some(f) => {
            if f.params.len() != 0 {
                return Err(RunnableError::MissingMain);
            }
        },
        None => {
            return Err(RunnableError::MissingMain);
        },
    }
    let ghost j = find_function(module.functions@, "main"@)->Some_0;
    let compiled = match compile_module(module) {
        Ok(c) => c,
        Err(e) => return Err(RunnableError::Codegen(e)),
    };
    let main_entry = match compiled.entry_of("main") {
        Some(x) => x,
        None => {
            assert(compiled.function_entry@[j].0@ == "main"@);
            return Err(RunnableError::MissingMain);
        },
    };
    proof {
        let i = choose|i: int| 0 <= i < compiled.function_entry@.len() && (#[trigger] compiled.function_entry@[i]).0@ == "main"@
            && compiled.function_entry@[i].1 == main_entry && forall|q: int| 0 <= q < i ==> (#[trigger] compiled.function_entry@[q]).0@ != "main"@;
        if i < j {
            assert(module.functions@[i].name@ != "main"@);
        }
        if j < i {
            assert(compiled.function_entry@[j].0@ == "main"@);
        }
        assert(i == j);
    }
    let mut blocks = compiled.program.blocks;
    let driver_block = blocks.len();
    let ghost bs = blocks@;
    let mut driver: Vec<MachInst> = Vec::new();
    driver.push(MachInst::new(Opcode::LoadI, STACK_PTR, 0, 0, 0x80000));
    driver.push(MachInst::new(Opcode::Call, 0, 0, 0, main_entry as i32));
    blocks.push(MachBlock { label: "chakobsac_driver".to_owned(), instructions: driver });
    let mut halt: Vec<MachInst> = Vec::new();
    halt.push(MachInst::new(Opcode::Halt, 0, 0, 0, 0));
    blocks.push(MachBlock { label: "chakobsac_halt".to_owned(), instructions: halt });
    proof {
        let d = driver_blocks(named_entry(*module, j));
        assert(block_view(blocks@[bs.len() as int]) == d[0]);
        assert(block_view(blocks@[bs.len() as int + 1]) == d[1]);
        assert(block_views(blocks@) =~= block_views(bs) + d);
    }
    Ok(Program { blocks, entry: driver_block })
}

} // verus!
