//! The register machine that code is generated for: 32 registers, a flat
//! byte-addressed memory, and blocks of instructions that end in a control
//! transfer (`Jmp`, `Jz`, `Call`, `Ret`). `Jz` and `Call` continue, when
//! they do not jump, at whatever block comes next.

use vstd::prelude::*;

verus! {

#[derive(Debug, Clone, Copy, PartialEq, Eq, Structural)]
pub enum Opcode {
    /// `a = imm`
    LoadI,
    /// `a = mem[reg b + imm]`
    Load,
    /// `mem[reg a + imm] = b`
    Store,
    /// `a = b`
    Mov,
    Add,
    Sub,
    Mul,
    Div,
    Mod,
    CmpEq,
    CmpNe,
    CmpLt,
    CmpLe,
    CmpGt,
    CmpGe,
    And,
    Or,
    /// Jump to block `imm`.
    Jmp,
    /// Jump to block `imm` if register `b` is zero.
    Jz,
    /// Call block `imm`; `Ret` resumes at the block after the call.
    Call,
    Ret,
    /// Stop the machine.
    Halt,
}

/// One machine instruction: an opcode, three register operands and an
/// immediate.
#[derive(Debug, Clone, Copy, PartialEq, Eq, Structural)]
pub struct MachInst {
    pub opcode: Opcode,
    pub a: u8,
    pub b: u8,
    pub c: u8,
    pub imm: i32,
}

impl MachInst {
    pub fn new(opcode: Opcode, a: u8, b: u8, c: u8, imm: i32) -> (r: Self)
        ensures
            r == (MachInst { opcode, a, b, c, imm }),
    {
        MachInst { opcode, a, b, c, imm }
    }
}

/// A labelled block of machine instructions.
#[derive(Debug, Clone, PartialEq, Eq)]
pub struct MachBlock {
    pub label: String,
    pub instructions: Vec<MachInst>,
}

/// A whole machine program: its blocks, and the index of the block it starts at.
#[derive(Debug, Clone, PartialEq, Eq)]
pub struct Program {
    pub blocks: Vec<MachBlock>,
    pub entry: usize,
}

/// The machine's data as a proof sees it: the 32 registers, and memory as the
/// 64-bit word stored at each address (words at distinct multiples of 8 do
/// not overlap).
pub type MachData = (Seq<i64>, Map<int, i64>);

/// The word a boolean is held as: 1 for true, 0 for false.
pub open spec fn bool_word(b: bool) -> i64 {
    if b { 1 } else { 0 }
}

/// The word an arithmetic, comparison or logical instruction `a = b OP c`
/// writes into register `a`, given the words `x` in `b` and `y` in `c`:
/// two's-complement arithmetic that wraps on overflow, division rounding
/// toward zero and a remainder with the dividend's sign, 1 or 0 for a
/// comparison, and bitwise `and` and `or`. `None` where the instruction
/// faults (a division or remainder by zero) and for the opcodes that
/// compute nothing.
pub open spec fn alu_word(op: Opcode, x: i64, y: i64) -> Option<i64> {
    let ax: int = if x < 0 { -x } else { x as int };
    let ay: int = if y < 0 { -y } else { y as int };
    match op {
        Opcode::Add => Some(vstd::wrapping::i64_specs::wrapping_add(x, y)),
        Opcode::Sub => Some(vstd::wrapping::i64_specs::wrapping_sub(x, y)),
        Opcode::Mul => Some(vstd::wrapping::i64_specs::wrapping_mul(x, y)),
        Opcode::Div => if y == 0 {
            None
        } else if x == i64::MIN && y == -1 {
            Some(i64::MIN)
        } else {
            Some((if (x < 0) == (y < 0) { ax / ay } else { -(ax / ay) }) as i64)
        },
        Opcode::Mod => if y == 0 {
            None
        } else {
            Some((if x < 0 { -(ax % ay) } else { ax % ay }) as i64)
        },
        Opcode::CmpEq => Some(bool_word(x == y)),
        Opcode::CmpNe => Some(bool_word(x != y)),
        Opcode::CmpLt => Some(bool_word(x < y)),
        Opcode::CmpLe => Some(bool_word(x <= y)),
        Opcode::CmpGt => Some(bool_word(x > y)),
        Opcode::CmpGe => Some(bool_word(x >= y)),
        Opcode::And => Some(x & y),
        Opcode::Or => Some(x | y),
        _ => None,
    }
}

/// What one data-moving instruction does: `LoadI` and `Mov` set register
/// `a`; `Load` reads the word at register `b` plus the immediate into
/// register `a`; `Store` writes register `b` to the word at register `a` plus
/// the immediate. Only these four are modelled; any other instruction leaves
/// the data as it is here.
pub open spec fn move_step(d: MachData, ins: MachInst) -> MachData {
    let regs = d.0;
    let mem = d.1;
    match ins.opcode {
        Opcode::LoadI => (regs.update(ins.a as int, ins.imm as i64), mem),
        Opcode::Mov => (regs.update(ins.a as int, regs[ins.b as int]), mem),
        Opcode::Load => (regs.update(ins.a as int, mem[regs[ins.b as int] + ins.imm]), mem),
        Opcode::Store => (regs, mem.insert(regs[ins.a as int] + ins.imm, regs[ins.b as int])),
        _ => d,
    }
}

/// The data after running straight-line data-moving `code` from `d`.
pub open spec fn run_moves(code: Seq<MachInst>, d: MachData) -> MachData
    decreases code.len(),
{
    if code.len() == 0 {
        d
    } else {
        move_step(run_moves(code.drop_last(), d), code.last())
    }
}

/// Running two pieces of code one after the other.
pub proof fn lemma_run_moves_append(a: Seq<MachInst>, b: Seq<MachInst>, d: MachData)
    ensures
        run_moves(a + b, d) == run_moves(b, run_moves(a, d)),
    decreases b.len(),
{
    if b.len() == 0 {
        assert(a + b =~= a);
    } else {
        assert((a + b).drop_last() =~= a + b.drop_last());
        assert((a + b).last() == b.last());
        lemma_run_moves_append(a, b.drop_last(), d);
    }
}

} // verus!
