//! Lowers one function to "pending" machine blocks: real instructions, with
//! control-flow targets still given as IR block ids (within the function)
//! or callee names, resolved to absolute block indices only once the whole
//! module's layout is known.
//!
//! Three things the lowering gets right that a plain instruction-by-
//! instruction rewrite would not:
//!
//! 1. The machine's `Jz` names one target; the other is the next block. So
//!    every IR branch becomes a block ending in `Jz` to the else-target,
//!    followed by a one-jump block to the then-target.
//! 2. The machine's `Call` ends a block, while an IR call may sit mid-block:
//!    a block with a call is split in two there.
//! 3. Multi-value moves (call arguments, phi resolution) are parallel: every
//!    source is staged in scratch memory before any destination is written,
//!    so two moves can alias registers (a swap included) safely.

use vstd::prelude::*;
use std::collections::{HashMap, HashSet};
use crate::block::{BasicBlock, Terminator};
use crate::codegen::CodegenError;
use crate::function::{Function, find_block, lemma_find_block};
use crate::inst::{BinOp, InstKind, Instruction, UnOp};
use crate::liveness::{analyze, block_index, block_live, first_incoming, flow_ready, lemma_analysis_is_live_sets,
    live_within_block, operand_value, set_to_vec, term_targets, within_block, Liveness, liveness_of};
use crate::machine::{MachInst, Opcode, alu_word, bool_word};
use crate::interp::{RtValue, spec_eval_bin, spec_eval_un};
use crate::regalloc::{Allocation, AllocView, increasing, sorted_of, lemma_sorted_unique, RET_REG, SCRATCH_1, SCRATCH_2, STACK_PTR, ZERO_REG};
use crate::value::{BlockId, ValueId};

verus! {

broadcast use vstd::std_specs::hash::group_hash_axioms;

/// Where a value lives.
#[derive(Debug, Clone, Copy, PartialEq, Eq, Structural)]
pub enum Loc {
    Reg(u8),
    Spill(u64),
}

/// How a pending block ends.
#[derive(Debug, Clone, PartialEq, Eq)]
pub enum PendingTerm {
    Jmp(BlockId),
    /// Jump to `target` if `cond_reg` holds zero (false); else fall through
    /// to the next pending block.
    Jz { cond_reg: u8, target: BlockId },
    Call { callee: String },
    Ret,
}

/// A machine block whose final control transfer is not yet resolved.
#[derive(Debug)]
pub struct PendingBlock {
    pub instructions: Vec<MachInst>,
    pub term: PendingTerm,
}

impl PendingBlock {
    fn push(&mut self, ins: MachInst)
        ensures
            final(self).instructions@ == old(self).instructions@.push(ins),
            final(self).term == old(self).term,
    {
        self.instructions.push(ins);
    }
}

/// A pending block as its instructions and its ending.
pub open spec fn pending_view(p: PendingBlock) -> (Seq<MachInst>, PendingTerm) {
    (p.instructions@, p.term)
}

// ---- The lowering, as spec functions ----

pub open spec fn mi(opcode: Opcode, a: u8, b: u8, c: u8, imm: int) -> MachInst {
    MachInst { opcode, a, b, c, imm: imm as i32 }
}

/// An address the machine's 32-bit immediate can hold.
pub open spec fn fits(addr: int) -> bool {
    0 <= addr <= i32::MAX
}

/// Where `al` puts `v`: its register, else its spill slot.
pub open spec fn loc_spec(al: AllocView, v: u32) -> Loc {
    if al.registers.contains_key(v) {
        Loc::Reg(al.registers[v])
    } else {
        Loc::Spill(al.spills[v])
    }
}

pub open spec fn located(al: AllocView, v: u32) -> bool {
    al.registers.contains_key(v) || al.spills.contains_key(v)
}

/// The code that brings `v` into a register, and that register: none for a
/// value in a register, a reload into `scratch` for a spilled one.
pub open spec fn read_spec(al: AllocView, v: u32, scratch: u8) -> Option<(Seq<MachInst>, u8)> {
    match loc_spec(al, v) {
        Loc::Reg(r) => Some((seq![], r)),
        Loc::Spill(a) => if fits(a as int) {
            Some((seq![mi(Opcode::Load, scratch, ZERO_REG, 0, a as int)], scratch))
        } else {
            None
        },
    }
}

/// The register an instruction defining `v` writes.
pub open spec fn target_spec(al: AllocView, v: u32, scratch: u8) -> u8 {
    match loc_spec(al, v) {
        Loc::Reg(r) => r,
        Loc::Spill(_) => scratch,
    }
}

/// The code that stores a spilled `v` from `reg` to its slot.
pub open spec fn finish_spec(al: AllocView, v: u32, reg: u8) -> Option<Seq<MachInst>> {
    match loc_spec(al, v) {
        Loc::Spill(a) => if fits(a as int) {
            Some(seq![mi(Opcode::Store, ZERO_REG, reg, 0, a as int)])
        } else {
            None
        },
        Loc::Reg(_) => Some(seq![]),
    }
}

/// Staging the sources of the first `k` moves into the slots from `temp` on.
pub open spec fn stage_in(moves: Seq<(Loc, Loc)>, temp: int, k: nat) -> Option<Seq<MachInst>>
    decreases k,
{
    if k == 0 {
        Some(seq![])
    } else {
        match stage_in(moves, temp, (k - 1) as nat) {
            None => None,
            Some(c) => {
                let t = temp + 8 * (k - 1);
                match moves[k - 1].0 {
                    Loc::Reg(r) => if fits(t) {
                        Some(c.push(mi(Opcode::Store, ZERO_REG, r, 0, t)))
                    } else {
                        None
                    },
                    Loc::Spill(a) => if fits(a as int) && fits(t) {
                        Some(c + seq![mi(Opcode::Load, SCRATCH_1, ZERO_REG, 0, a as int), mi(Opcode::Store, ZERO_REG, SCRATCH_1, 0, t)])
                    } else {
                        None
                    },
                }
            },
        }
    }
}

/// Writing the staged values of the first `k` moves to their destinations.
pub open spec fn stage_out(moves: Seq<(Loc, Loc)>, temp: int, k: nat) -> Option<Seq<MachInst>>
    decreases k,
{
    if k == 0 {
        Some(seq![])
    } else {
        match stage_out(moves, temp, (k - 1) as nat) {
            None => None,
            Some(c) => {
                let t = temp + 8 * (k - 1);
                match moves[k - 1].1 {
                    Loc::Reg(r) => if fits(t) {
                        Some(c.push(mi(Opcode::Load, r, ZERO_REG, 0, t)))
                    } else {
                        None
                    },
                    Loc::Spill(a) => if fits(t) && fits(a as int) {
                        Some(c + seq![mi(Opcode::Load, SCRATCH_1, ZERO_REG, 0, t), mi(Opcode::Store, ZERO_REG, SCRATCH_1, 0, a as int)])
                    } else {
                        None
                    },
                }
            },
        }
    }
}

/// The code of a parallel move with temporaries from `next` on, and the next
/// free temporary address; none if the temporaries pass `region_end` or an
/// address does not fit.
pub open spec fn pmove_spec(moves: Seq<(Loc, Loc)>, next: int, region_end: int) -> Option<(Seq<MachInst>, int)> {
    if moves.len() == 0 {
        Some((seq![], next))
    } else if next + 8 * moves.len() > region_end {
        None
    } else {
        match (stage_in(moves, next, moves.len()), stage_out(moves, next, moves.len())) {
            (Some(a), Some(b)) => Some((a + b, next + 8 * moves.len())),
            _ => None,
        }
    }
}

/// The moves resolving the phis among `insts` along the edge from `from`:
/// each phi's incoming value for `from` to the phi's own location.
pub open spec fn phi_moves(al: AllocView, insts: Seq<Instruction>, from: BlockId) -> Seq<(Loc, Loc)>
    decreases insts.len(),
{
    if insts.len() == 0 {
        seq![]
    } else {
        let rest = phi_moves(al, insts.drop_last(), from);
        match insts.last().kind {
            InstKind::Phi(inc) => rest.push((loc_spec(al, (first_incoming(inc@, from)->0).0), loc_spec(al, insts.last().id.0))),
            _ => rest,
        }
    }
}

/// The moves of a call's arguments into registers `0..`.
pub open spec fn arg_moves(al: AllocView, args: Seq<ValueId>) -> Seq<(Loc, Loc)> {
    Seq::new(args.len(), |i: int| (loc_spec(al, args[i].0), Loc::Reg(i as u8)))
}

/// The values a call must save: those of `live` other than the call's own
/// result that live in registers.
pub open spec fn save_set(al: AllocView, live: Set<u32>, id: u32) -> Set<u32> {
    Set::new(|v: u32| live.contains(v) && v != id && al.registers.contains_key(v))
}

/// The registers a call saves, by increasing value number.
pub open spec fn save_regs_spec(al: AllocView, live: Set<u32>, id: u32) -> Seq<u8> {
    sorted_of(save_set(al, live, id)).map_values(|v: u32| al.registers[v])
}

/// Pushing the first `k` saved registers onto the call stack.
pub open spec fn save_code(regs: Seq<u8>, k: nat) -> Option<Seq<MachInst>>
    decreases k,
{
    if k == 0 {
        Some(seq![])
    } else {
        match save_code(regs, (k - 1) as nat) {
            Some(c) => if fits(8 * (k - 1)) {
                Some(c.push(mi(Opcode::Store, STACK_PTR, regs[k - 1], 0, 8 * (k - 1))))
            } else {
                None
            },
            None => None,
        }
    }
}

/// Reloading the first `k` saved registers from the call stack.
pub open spec fn restore_code(regs: Seq<u8>, k: nat) -> Option<Seq<MachInst>>
    decreases k,
{
    if k == 0 {
        Some(seq![])
    } else {
        match restore_code(regs, (k - 1) as nat) {
            Some(c) => if fits(8 * (k - 1)) {
                Some(c.push(mi(Opcode::Load, regs[k - 1], STACK_PTR, 0, 8 * (k - 1))))
            } else {
                None
            },
            None => None,
        }
    }
}

/// Moving the stack pointer by a call frame of `frame` bytes.
pub open spec fn frame_code(frame: int, op: Opcode) -> Seq<MachInst> {
    if frame > 0 {
        seq![mi(Opcode::LoadI, SCRATCH_1, 0, 0, frame), mi(op, STACK_PTR, STACK_PTR, SCRATCH_1, 0)]
    } else {
        seq![]
    }
}

pub open spec fn binop_spec(op: BinOp) -> Opcode {
    match op {
        BinOp::Add => Opcode::Add,
        BinOp::Sub => Opcode::Sub,
        BinOp::Mul => Opcode::Mul,
        BinOp::Div => Opcode::Div,
        BinOp::Mod => Opcode::Mod,
        BinOp::CmpEq => Opcode::CmpEq,
        BinOp::CmpNe => Opcode::CmpNe,
        BinOp::CmpLt => Opcode::CmpLt,
        BinOp::CmpLe => Opcode::CmpLe,
        BinOp::CmpGt => Opcode::CmpGt,
        BinOp::CmpGe => Opcode::CmpGe,
        BinOp::And => Opcode::And,
        BinOp::Or => Opcode::Or,
    }
}

/// The code that computes into `dst`-then-finishes a one-result
/// instruction: `pre` (operand reloads), the instruction, then the store of
/// a spilled result.
pub open spec fn with_result(al: AllocView, id: u32, pre: Seq<MachInst>, ins: MachInst, dst: u8) -> Option<Seq<MachInst>> {
    match finish_spec(al, id, dst) {
        Some(fin) => Some(pre.push(ins) + fin),
        None => None,
    }
}

/// Lowering one instruction, in a block whose live values are `live`, from
/// the state (finished blocks, block being filled, next temporary address).
pub open spec fn inst_spec(f: Function, al: AllocView, live: Set<u32>, region_end: int, inst: Instruction,
    st: (Seq<(Seq<MachInst>, PendingTerm)>, Seq<MachInst>, int)) -> Result<(Seq<(Seq<MachInst>, PendingTerm)>, Seq<MachInst>, int), CodegenError> {
    let (done, cur, temp) = st;
    let oos = CodegenError::OutOfSpillSpace { func: f.name };
    let id = inst.id.0;
    let dst = target_spec(al, id, SCRATCH_1);
    match inst.kind {
        InstKind::Phi(_) => Ok(st),
        InstKind::ConstI64(n) => if !(i32::MIN <= n <= i32::MAX) {
            Err(CodegenError::ConstantTooLarge { func: f.name, value: n })
        } else {
            match with_result(al, id, seq![], mi(Opcode::LoadI, dst, 0, 0, n as int), dst) {
                Some(c) => Ok((done, cur + c, temp)),
                None => Err(oos),
            }
        },
        InstKind::ConstBool(b) => match with_result(al, id, seq![], mi(Opcode::LoadI, dst, 0, 0, if b { 1int } else { 0int }), dst) {
            Some(c) => Ok((done, cur + c, temp)),
            None => Err(oos),
        },
        InstKind::Bin(op, a, b) => match (read_spec(al, a.0, SCRATCH_1), read_spec(al, b.0, SCRATCH_2)) {
            (Some((ca, ra)), Some((cb, rb))) => match with_result(al, id, ca + cb, mi(binop_spec(op), dst, ra, rb, 0), dst) {
                Some(c) => Ok((done, cur + c, temp)),
                None => Err(oos),
            },
            _ => Err(oos),
        },
        InstKind::Un(op, a) => match read_spec(al, a.0, SCRATCH_1) {
            Some((ca, ra)) => match with_result(al, id, ca, unop_inst(op, dst, ra), dst) {
                Some(c) => Ok((done, cur + c, temp)),
                None => Err(oos),
            },
            None => Err(oos),
        },
        InstKind::Call { func: callee, args } => {
            let regs = save_regs_spec(al, live, id);
            let frame: int = 8 * regs.len() as int;
            match (save_code(regs, regs.len()), restore_code(regs, regs.len()), pmove_spec(arg_moves(al, args@), temp, region_end)) {
                (Some(sc), Some(rc), Some((pm, temp2))) => if frame > 0 && !fits(frame) {
                    Err(oos)
                } else {
                    let mv: Seq<MachInst> = if dst != RET_REG { seq![mi(Opcode::Mov, dst, RET_REG, 0, 0)] } else { seq![] };
                    match finish_spec(al, id, dst) {
                        Some(fin) => Ok((
                            done.push((cur + sc + frame_code(frame, Opcode::Add) + pm, PendingTerm::Call { callee })),
                            frame_code(frame, Opcode::Sub) + rc + mv + fin,
                            temp2,
                        )),
                        None => Err(oos),
                    }
                },
                _ => Err(oos),
            }
        },
    }
}

/// Lowering the first `k` instructions of a block.
pub open spec fn insts_spec(f: Function, al: AllocView, live: Set<u32>, region_end: int, insts: Seq<Instruction>, k: nat,
    st: (Seq<(Seq<MachInst>, PendingTerm)>, Seq<MachInst>, int)) -> Result<(Seq<(Seq<MachInst>, PendingTerm)>, Seq<MachInst>, int), CodegenError>
    decreases k,
{
    if k == 0 {
        Ok(st)
    } else {
        match insts_spec(f, al, live, region_end, insts, (k - 1) as nat, st) {
            Ok(s) => inst_spec(f, al, live, region_end, insts[k - 1], s),
            Err(e) => Err(e),
        }
    }
}

/// The moves along the edge from block `from` into block `t`.
pub open spec fn edge_moves(f: Function, al: AllocView, from: BlockId, t: BlockId) -> Seq<(Loc, Loc)> {
    phi_moves(al, f.blocks@[block_index(f, t)].instructions@, from)
}

/// Lowering a block's terminator: the finished blocks afterwards and the
/// next temporary address.
pub open spec fn term_spec(f: Function, al: AllocView, region_end: int, b: BasicBlock,
    st: (Seq<(Seq<MachInst>, PendingTerm)>, Seq<MachInst>, int)) -> Result<(Seq<(Seq<MachInst>, PendingTerm)>, int), CodegenError> {
    let (done, cur, temp) = st;
    let oos = CodegenError::OutOfSpillSpace { func: f.name };
    match b.terminator {
        Some(Terminator::Jump(t)) => match pmove_spec(edge_moves(f, al, b.id, t), temp, region_end) {
            Some((pm, t2)) => Ok((done.push((cur + pm, PendingTerm::Jmp(t))), t2)),
            None => Err(oos),
        },
        Some(Terminator::Branch { cond, then_block, else_block }) => match read_spec(al, cond.0, SCRATCH_1) {
            Some((cc, cr)) => match pmove_spec(edge_moves(f, al, b.id, else_block), temp, region_end) {
                Some((pe, t2)) => match pmove_spec(edge_moves(f, al, b.id, then_block), t2, region_end) {
                    Some((pt, t3)) => Ok((
                        done.push((cur + cc + pe, PendingTerm::Jz { cond_reg: cr, target: else_block })).push(
                            (pt, PendingTerm::Jmp(then_block))),
                        t3,
                    )),
                    None => Err(oos),
                },
                None => Err(oos),
            },
            None => Err(oos),
        },
        Some(Terminator::Return(Some(v))) => match read_spec(al, v.0, SCRATCH_1) {
            Some((c, r)) => {
                let mv: Seq<MachInst> = if r != RET_REG { seq![mi(Opcode::Mov, RET_REG, r, 0, 0)] } else { seq![] };
                Ok((done.push((cur + c + mv, PendingTerm::Ret)), temp))
            },
            None => Err(oos),
        },
        _ => Ok((done.push((cur, PendingTerm::Ret)), temp)),
    }
}

/// Lowering the first `k` blocks of `f`, temporaries from `temp0` on; the
/// spill slots, which end at `temp0`, must already fit in the region.
pub open spec fn blocks_spec(f: Function, al: AllocView, region_end: int, k: nat, temp0: int)
    -> Result<(Seq<(Seq<MachInst>, PendingTerm)>, int), CodegenError>
    decreases k,
{
    if k == 0 {
        if temp0 > region_end {
            Err(CodegenError::OutOfSpillSpace { func: f.name })
        } else {
            Ok((seq![], temp0))
        }
    } else {
        match blocks_spec(f, al, region_end, (k - 1) as nat, temp0) {
            Ok((done, temp)) => {
                let b = f.blocks@[k - 1];
                match insts_spec(f, al, block_live(f, k - 1), region_end, b.instructions@, b.instructions@.len(), (done, seq![], temp)) {
                    Ok(st) => term_spec(f, al, region_end, b, st),
                    Err(e) => Err(e),
                }
            },
            Err(e) => Err(e),
        }
    }
}


// ---- The lowering itself ----

/// A value some block reads, or some instruction defines.
pub open spec fn mentioned(f: Function, v: u32) -> bool {
    operand_value(f, v) || exists|i: int, k: int| 0 <= i < f.blocks@.len() && 0 <= k < f.blocks@[i].instructions@.len()
        && (#[trigger] f.blocks@[i].instructions@[k]).id.0 == v
}

/// What lowering needs of a function and its allocation: what liveness
/// needs, a terminator on every block, a location for every value, and an
/// incoming entry, in every phi, for every edge into the phi's block.
pub open spec fn lower_ready(f: Function, al: AllocView) -> bool {
    &&& flow_ready(f)
    &&& forall|i: int| 0 <= i < f.blocks@.len() ==> (#[trigger] f.blocks@[i]).terminator is Some
    &&& forall|v: u32| #[trigger] mentioned(f, v) ==> located(al, v)
    &&& forall|i: int, k: int, q: int| 0 <= i < f.blocks@.len() && 0 <= k < term_targets(f.blocks@[i]).len()
        && 0 <= q < f.blocks@[block_index(f, #[trigger] term_targets(f.blocks@[i])[k])].instructions@.len()
        ==> phi_covers(#[trigger] f.blocks@[block_index(f, term_targets(f.blocks@[i])[k])].instructions@[q], f.blocks@[i].id)
}

/// If `inst` is a phi, it has an incoming entry for predecessor `from`.
pub open spec fn phi_covers(inst: Instruction, from: BlockId) -> bool {
    match inst.kind {
        InstKind::Phi(inc) => first_incoming(inc@, from) is Some,
        _ => true,
    }
}

fn loc_of(alloc: &Allocation, v: u32) -> (r: Loc)
    requires
        located(alloc@, v),
    ensures
        r == loc_spec(alloc@, v),
{
    match alloc.registers.get(&v) {
        Some(r) => Loc::Reg(*r),
        None => Loc::Spill(*alloc.spills.get(&v).unwrap()),
    }
}

fn out_of_space(func: &Function) -> (e: CodegenError)
    ensures
        e == (CodegenError::OutOfSpillSpace { func: func.name }),
{
    CodegenError::OutOfSpillSpace { func: func.name.clone() }
}

/// `addr` as an immediate, if it fits.
fn addr_i32(func: &Function, addr: u64) -> (r: Result<i32, CodegenError>)
    ensures
        fits(addr as int) ==> r == Ok::<i32, CodegenError>(addr as i32),
        !fits(addr as int) ==> r == Err::<i32, CodegenError>(CodegenError::OutOfSpillSpace { func: func.name }),
{
    if addr <= 0x7fff_ffff {
        Ok(addr as i32)
    } else {
        Err(out_of_space(func))
    }
}

/// A register holding `v`: its own, or `scratch` after a reload.
fn read_into(func: &Function, alloc: &Allocation, blk: &mut PendingBlock, v: u32, scratch: u8) -> (r: Result<u8, CodegenError>)
    requires
        located(alloc@, v),
    ensures
        final(blk).term == old(blk).term,
        match read_spec(alloc@, v, scratch) {
            Some((c, reg)) => r == Ok::<u8, CodegenError>(reg) && final(blk).instructions@ == old(blk).instructions@ + c,
            None => r == Err::<u8, CodegenError>(CodegenError::OutOfSpillSpace { func: func.name }),
        },
{
    match loc_of(alloc, v) {
        Loc::Reg(r) => {
            assert(blk.instructions@ + seq![] =~= blk.instructions@);
            Ok(r)
        },
        Loc::Spill(addr) => {
            let imm = addr_i32(func, addr)?;
            blk.push(MachInst::new(Opcode::Load, scratch, ZERO_REG, 0, imm));
            assert(blk.instructions@ =~= old(blk).instructions@ + seq![mi(Opcode::Load, scratch, ZERO_REG, 0, addr as int)]);
            Ok(scratch)
        },
    }
}

/// The register an instruction defining `v` writes: `v`'s own, or
/// `scratch` if `v` is spilled (then `finish_write` stores it).
fn write_target(alloc: &Allocation, v: u32, scratch: u8) -> (r: u8)
    requires
        located(alloc@, v),
    ensures
        r == target_spec(alloc@, v, scratch),
{
    match loc_of(alloc, v) {
        Loc::Reg(r) => r,
        Loc::Spill(_) => scratch,
    }
}

fn finish_write(func: &Function, alloc: &Allocation, blk: &mut PendingBlock, v: u32, reg_used: u8) -> (r: Result<(), CodegenError>)
    requires
        located(alloc@, v),
    ensures
        final(blk).term == old(blk).term,
        match finish_spec(alloc@, v, reg_used) {
            Some(c) => r is Ok && final(blk).instructions@ == old(blk).instructions@ + c,
            None => r == Err::<(), CodegenError>(CodegenError::OutOfSpillSpace { func: func.name }),
        },
{
    match loc_of(alloc, v) {
        Loc::Spill(addr) => {
            let imm = addr_i32(func, addr)?;
            blk.push(MachInst::new(Opcode::Store, ZERO_REG, reg_used, 0, imm));
            assert(blk.instructions@ =~= old(blk).instructions@ + seq![mi(Opcode::Store, ZERO_REG, reg_used, 0, addr as int)]);
        },
        Loc::Reg(_) => {
            assert(blk.instructions@ + seq![] =~= blk.instructions@);
        },
    }
    Ok(())
}

proof fn lemma_stage_in_none(moves: Seq<(Loc, Loc)>, temp: int, k: nat, k2: nat)
    requires
        stage_in(moves, temp, k) is None,
        k <= k2,
    ensures
        stage_in(moves, temp, k2) is None,
    decreases k2 - k,
{
    if k < k2 {
        lemma_stage_in_none(moves, temp, k, (k2 - 1) as nat);
    }
}

proof fn lemma_stage_out_none(moves: Seq<(Loc, Loc)>, temp: int, k: nat, k2: nat)
    requires
        stage_out(moves, temp, k) is None,
        k <= k2,
    ensures
        stage_out(moves, temp, k2) is None,
    decreases k2 - k,
{
    if k < k2 {
        lemma_stage_out_none(moves, temp, k, (k2 - 1) as nat);
    }
}

struct Lowerer {
    pending: Vec<PendingBlock>,
    /// Each IR block's first pending block, by block id number.
    local_index: HashMap<u32, usize>,
    next_temp_addr: u64,
    region_end: u64,
}

impl Lowerer {
    fn alloc_temp_slots(&mut self, func: &Function, count: usize) -> (r: Result<u64, CodegenError>)
        ensures
            final(self).pending@ == old(self).pending@,
            final(self).local_index@ == old(self).local_index@,
            final(self).region_end == old(self).region_end,
            old(self).next_temp_addr + 8 * count > old(self).region_end ==> r == Err::<u64, CodegenError>(
                CodegenError::OutOfSpillSpace { func: func.name }),
            old(self).next_temp_addr + 8 * count <= old(self).region_end ==> r == Ok::<u64, CodegenError>(old(self).next_temp_addr)
                && final(self).next_temp_addr == old(self).next_temp_addr + 8 * count,
    {
        let base = self.next_temp_addr;
        let bytes = (count as u64).checked_mul(8);
        match bytes {
            Some(b) => match base.checked_add(b) {
                Some(end) => {
                    if end > self.region_end {
                        return Err(out_of_space(func));
                    }
                    self.next_temp_addr = end;
                    Ok(base)
                },
                None => Err(out_of_space(func)),
            },
            None => Err(out_of_space(func)),
        }
    }

    /// Moves every (source, destination) pair "in parallel": every source is
    /// staged in scratch memory before any destination is written.
    fn parallel_move(&mut self, func: &Function, blk: &mut PendingBlock, moves: &Vec<(Loc, Loc)>) -> (r: Result<(), CodegenError>)
        ensures
            final(self).pending@ == old(self).pending@,
            final(self).local_index@ == old(self).local_index@,
            final(self).region_end == old(self).region_end,
            final(blk).term == old(blk).term,
            match pmove_spec(moves@, old(self).next_temp_addr as int, old(self).region_end as int) {
                Some((c, t)) => r is Ok && final(blk).instructions@ == old(blk).instructions@ + c && final(self).next_temp_addr == t,
                None => r == Err::<(), CodegenError>(CodegenError::OutOfSpillSpace { func: func.name }),
            },
    {
        if moves.len() == 0 {
            assert(blk.instructions@ + seq![] =~= blk.instructions@);
            return Ok(());
        }
        let temp_base = self.alloc_temp_slots(func, moves.len())?;
        let ghost b0 = blk.instructions@;
        let mut i: usize = 0;
        while i < moves.len()
            invariant
                i <= moves@.len(),
                temp_base + 8 * moves@.len() <= self.region_end,
                stage_in(moves@, temp_base as int, i as nat) == Some(blk.instructions@.subrange(b0.len() as int, blk.instructions@.len() as int)),
                self.pending@ == old(self).pending@,
                self.local_index@ == old(self).local_index@,
                self.region_end == old(self).region_end,
                temp_base == old(self).next_temp_addr,
                self.next_temp_addr == temp_base + 8 * moves@.len(),
                moves@.len() > 0,
                blk.instructions@.len() >= b0.len(),
                blk.instructions@.subrange(0, b0.len() as int) == b0,
                blk.term == old(blk).term,
            decreases moves.len() - i,
        {
            let ghost before = blk.instructions@;
            let t = temp_base + (i as u64) * 8;
            let reg = match moves[i].0 {
                Loc::Reg(r) => r,
                Loc::Spill(addr) => {
                    let imm = match addr_i32(func, addr) {
                        Ok(x) => x,
                        Err(e) => {
                            proof { lemma_stage_in_none(moves@, temp_base as int, (i + 1) as nat, moves@.len()); }
                            return Err(e);
                        },
                    };
                    blk.push(MachInst::new(Opcode::Load, SCRATCH_1, ZERO_REG, 0, imm));
                    SCRATCH_1
                },
            };
            let temp_addr = match addr_i32(func, t) {
                Ok(x) => x,
                Err(e) => {
                    proof { lemma_stage_in_none(moves@, temp_base as int, (i + 1) as nat, moves@.len()); }
                    return Err(e);
                },
            };
            blk.push(MachInst::new(Opcode::Store, ZERO_REG, reg, 0, temp_addr));
            proof {
                assert(blk.instructions@.subrange(0, b0.len() as int) =~= b0) by {
                    assert(before.subrange(0, b0.len() as int) == b0);
                }
                match moves@[i as int].0 {
                    Loc::Reg(r) => {
                        assert(blk.instructions@.subrange(b0.len() as int, blk.instructions@.len() as int)
                            =~= before.subrange(b0.len() as int, before.len() as int).push(mi(Opcode::Store, ZERO_REG, r, 0, t as int)));
                    },
                    Loc::Spill(a) => {
                        assert(blk.instructions@.subrange(b0.len() as int, blk.instructions@.len() as int)
                            =~= before.subrange(b0.len() as int, before.len() as int) + seq![mi(Opcode::Load, SCRATCH_1, ZERO_REG, 0, a as int),
                            mi(Opcode::Store, ZERO_REG, SCRATCH_1, 0, t as int)]);
                    },
                }
            }
            i += 1;
        }
        let ghost b1 = blk.instructions@;
        let mut i: usize = 0;
        assert(b1.subrange(b1.len() as int, b1.len() as int) =~= Seq::<MachInst>::empty());
        while i < moves.len()
            invariant
                i <= moves@.len(),
                temp_base + 8 * moves@.len() <= self.region_end,
                stage_out(moves@, temp_base as int, i as nat) == Some(blk.instructions@.subrange(b1.len() as int, blk.instructions@.len() as int)),
                self.pending@ == old(self).pending@,
                self.local_index@ == old(self).local_index@,
                self.region_end == old(self).region_end,
                temp_base == old(self).next_temp_addr,
                self.next_temp_addr == temp_base + 8 * moves@.len(),
                moves@.len() > 0,
                blk.instructions@.len() >= b1.len(),
                blk.instructions@.subrange(0, b1.len() as int) == b1,
                blk.term == old(blk).term,
            decreases moves.len() - i,
        {
            let ghost before = blk.instructions@;
            let t = temp_base + (i as u64) * 8;
            let temp_addr = match addr_i32(func, t) {
                Ok(x) => x,
                Err(e) => {
                    proof { lemma_stage_out_none(moves@, temp_base as int, (i + 1) as nat, moves@.len()); }
                    return Err(e);
                },
            };
            match moves[i].1 {
                Loc::Reg(r) => {
                    blk.push(MachInst::new(Opcode::Load, r, ZERO_REG, 0, temp_addr));
                },
                Loc::Spill(addr) => {
                    blk.push(MachInst::new(Opcode::Load, SCRATCH_1, ZERO_REG, 0, temp_addr));
                    let imm = match addr_i32(func, addr) {
                        Ok(x) => x,
                        Err(e) => {
                            proof { lemma_stage_out_none(moves@, temp_base as int, (i + 1) as nat, moves@.len()); }
                            return Err(e);
                        },
                    };
                    blk.push(MachInst::new(Opcode::Store, ZERO_REG, SCRATCH_1, 0, imm));
                },
            }
            proof {
                assert(blk.instructions@.subrange(0, b1.len() as int) =~= b1) by {
                    assert(before.subrange(0, b1.len() as int) == b1);
                }
                match moves@[i as int].1 {
                    Loc::Reg(r) => {
                        assert(blk.instructions@.subrange(b1.len() as int, blk.instructions@.len() as int)
                            =~= before.subrange(b1.len() as int, before.len() as int).push(mi(Opcode::Load, r, ZERO_REG, 0, t as int)));
                    },
                    Loc::Spill(a) => {
                        assert(blk.instructions@.subrange(b1.len() as int, blk.instructions@.len() as int)
                            =~= before.subrange(b1.len() as int, before.len() as int) + seq![mi(Opcode::Load, SCRATCH_1, ZERO_REG, 0, t as int),
                            mi(Opcode::Store, ZERO_REG, SCRATCH_1, 0, a as int)]);
                    },
                }
            }
            i += 1;
        }
        proof {
            let sa = b1.subrange(b0.len() as int, b1.len() as int);
            let sb = blk.instructions@.subrange(b1.len() as int, blk.instructions@.len() as int);
            assert(blk.instructions@ =~= b0 + (sa + sb)) by {
                assert(b1 =~= b0 + sa);
                assert(blk.instructions@ =~= b1 + sb);
            }
        }
        Ok(())
    }
}


pub open spec fn pending_views(p: Seq<PendingBlock>) -> Seq<(Seq<MachInst>, PendingTerm)> {
    p.map_values(|b: PendingBlock| pending_view(b))
}

/// Slot `j` of a call frame has an address that fits.
pub open spec fn slot_fits(j: int) -> bool {
    fits(8 * j)
}

proof fn lemma_save_restore(regs: Seq<u8>, k: nat)
    ensures
        (save_code(regs, k) is Some) == (forall|j: int| 0 <= j < k ==> #[trigger] slot_fits(j)),
        (restore_code(regs, k) is Some) == (forall|j: int| 0 <= j < k ==> #[trigger] slot_fits(j)),
    decreases k,
{
    if k > 0 {
        lemma_save_restore(regs, (k - 1) as nat);
        if !fits(8 * (k - 1)) {
            assert(!slot_fits(k - 1));
        }
    }
}

proof fn lemma_insts_err(f: Function, al: AllocView, live: Set<u32>, re: int, insts: Seq<Instruction>, k: nat, k2: nat,
    st: (Seq<(Seq<MachInst>, PendingTerm)>, Seq<MachInst>, int), e: CodegenError)
    requires
        insts_spec(f, al, live, re, insts, k, st) == Err::<(Seq<(Seq<MachInst>, PendingTerm)>, Seq<MachInst>, int), CodegenError>(e),
        k <= k2,
    ensures
        insts_spec(f, al, live, re, insts, k2, st) == Err::<(Seq<(Seq<MachInst>, PendingTerm)>, Seq<MachInst>, int), CodegenError>(e),
    decreases k2 - k,
{
    if k < k2 {
        lemma_insts_err(f, al, live, re, insts, k, (k2 - 1) as nat, st, e);
    }
}

proof fn lemma_blocks_err(f: Function, al: AllocView, re: int, k: nat, k2: nat, t0: int, e: CodegenError)
    requires
        blocks_spec(f, al, re, k, t0) == Err::<(Seq<(Seq<MachInst>, PendingTerm)>, int), CodegenError>(e),
        k <= k2,
    ensures
        blocks_spec(f, al, re, k2, t0) == Err::<(Seq<(Seq<MachInst>, PendingTerm)>, int), CodegenError>(e),
    decreases k2 - k,
{
    if k < k2 {
        lemma_blocks_err(f, al, re, k, (k2 - 1) as nat, t0, e);
    }
}

/// Pushes `blk` onto `pending`.
fn push_block(pending: &mut Vec<PendingBlock>, blk: PendingBlock)
    ensures
        pending_views(final(pending)@) == pending_views(old(pending)@).push(pending_view(blk)),
{
    let ghost b = blk;
    pending.push(blk);
    assert(pending_views(pending@) =~= pending_views(old(pending)@).push(pending_view(b)));
}

/// Pushes the first `k` saved registers onto the call stack, or reloads
/// them from it.
fn emit_frame_moves(func: &Function, blk: &mut PendingBlock, regs: &Vec<u8>, restore: bool) -> (r: Result<(), CodegenError>)
    ensures
        final(blk).term == old(blk).term,
        match (if restore { restore_code(regs@, regs@.len()) } else { save_code(regs@, regs@.len()) }) {
            Some(c) => r is Ok && final(blk).instructions@ == old(blk).instructions@ + c,
            None => r == Err::<(), CodegenError>(CodegenError::OutOfSpillSpace { func: func.name }),
        },
{
    let mut i: usize = 0;
    proof { lemma_save_restore(regs@, regs@.len()); }
    assert(old(blk).instructions@ + seq![] =~= old(blk).instructions@);
    while i < regs.len()
        invariant
            i <= regs@.len(),
            blk.term == old(blk).term,
            (if restore { restore_code(regs@, i as nat) } else { save_code(regs@, i as nat) }) == Some(
                blk.instructions@.subrange(old(blk).instructions@.len() as int, blk.instructions@.len() as int)),
            blk.instructions@.len() >= old(blk).instructions@.len(),
            blk.instructions@.subrange(0, old(blk).instructions@.len() as int) == old(blk).instructions@,
            (save_code(regs@, regs@.len()) is Some) == (forall|j: int| 0 <= j < regs@.len() ==> #[trigger] slot_fits(j)),
            (restore_code(regs@, regs@.len()) is Some) == (forall|j: int| 0 <= j < regs@.len() ==> #[trigger] slot_fits(j)),
        decreases regs.len() - i,
    {
        let ghost before = blk.instructions@;
        let off: u64 = (i as u64) * 8;
        let imm = match addr_i32(func, off) {
            Ok(x) => x,
            Err(e) => {
                assert(!slot_fits(i as int));
                return Err(e);
            },
        };
        if restore {
            blk.push(MachInst::new(Opcode::Load, regs[i], STACK_PTR, 0, imm));
        } else {
            blk.push(MachInst::new(Opcode::Store, STACK_PTR, regs[i], 0, imm));
        }
        proof {
            assert(blk.instructions@.subrange(0, old(blk).instructions@.len() as int) =~= old(blk).instructions@) by {
                assert(before.subrange(0, old(blk).instructions@.len() as int) == old(blk).instructions@);
            }
            assert(blk.instructions@.subrange(old(blk).instructions@.len() as int, blk.instructions@.len() as int)
                =~= before.subrange(old(blk).instructions@.len() as int, before.len() as int).push(blk.instructions@.last()));
        }
        i += 1;
    }
    assert(blk.instructions@ =~= old(blk).instructions@ + blk.instructions@.subrange(old(blk).instructions@.len() as int,
        blk.instructions@.len() as int));
    Ok(())
}

/// The stack-pointer adjustment for a call frame of `frame` bytes.
fn emit_frame_adjust(func: &Function, blk: &mut PendingBlock, frame: u64, op: Opcode) -> (r: Result<(), CodegenError>)
    ensures
        final(blk).term == old(blk).term,
        frame > 0 && !fits(frame as int) ==> r == Err::<(), CodegenError>(CodegenError::OutOfSpillSpace { func: func.name }),
        !(frame > 0 && !fits(frame as int)) ==> r is Ok && final(blk).instructions@ == old(blk).instructions@ + frame_code(frame as int, op),
{
    if frame > 0 {
        let imm = addr_i32(func, frame)?;
        blk.push(MachInst::new(Opcode::LoadI, SCRATCH_1, 0, 0, imm));
        blk.push(MachInst::new(op, STACK_PTR, STACK_PTR, SCRATCH_1, 0));
        assert(blk.instructions@ =~= old(blk).instructions@ + frame_code(frame as int, op));
    } else {
        assert(blk.instructions@ =~= old(blk).instructions@ + frame_code(frame as int, op));
    }
    Ok(())
}

/// The word a run-time value is held as: an integer as itself, a boolean
/// as 1 or 0.
pub open spec fn value_word(v: RtValue) -> i64 {
    match v {
        RtValue::I64(n) => n,
        RtValue::Bool(b) => bool_word(b),
    }
}

/// Operands of the types binary operation `op` takes: booleans for `and`
/// and `or`, integers for the others.
pub open spec fn operands_fit(op: BinOp, l: RtValue, r: RtValue) -> bool {
    if op is And || op is Or { l is Bool && r is Bool } else { l is I64 && r is I64 }
}

/// Each IR binary operation is lowered to the machine instruction that
/// computes the same thing: on operands of the types the operation takes,
/// wherever the IR operation gives a value, the instruction writes that
/// value's word (so `x >= y` writes 1 exactly when `x >= y`).
pub proof fn lemma_lowered_binop_agrees(op: BinOp, l: RtValue, r: RtValue)
    requires
        operands_fit(op, l, r),
    ensures
        spec_eval_bin(op, l, r) matches Ok(v) ==> alu_word(binop_spec(op), value_word(l), value_word(r)) == Some(value_word(v)),
{
    if op is And || op is Or {
        assert(1i64 & 1i64 == 1i64) by (bit_vector);
        assert(1i64 & 0i64 == 0i64) by (bit_vector);
        assert(0i64 & 1i64 == 0i64) by (bit_vector);
        assert(0i64 & 0i64 == 0i64) by (bit_vector);
        assert(1i64 | 1i64 == 1i64) by (bit_vector);
        assert(1i64 | 0i64 == 1i64) by (bit_vector);
        assert(0i64 | 1i64 == 1i64) by (bit_vector);
        assert(0i64 | 0i64 == 0i64) by (bit_vector);
    }
}

/// The instruction that computes unary operation `op` of the word in
/// register `src` into register `dst`: negation subtracts it from the zero
/// register, `not` compares it for equality with the zero register.
pub open spec fn unop_inst(op: UnOp, dst: u8, src: u8) -> MachInst {
    match op {
        UnOp::Neg => mi(Opcode::Sub, dst, ZERO_REG, src, 0),
        UnOp::Not => mi(Opcode::CmpEq, dst, src, ZERO_REG, 0),
    }
}

/// The word register `r` holds when the zero register holds 0 and any other
/// register the word `x`.
pub open spec fn operand_word(r: u8, x: i64) -> i64 {
    if r == ZERO_REG { 0 } else { x }
}

/// Each unary operation is lowered to an instruction that computes it: the
/// instruction writes register `dst`, reads only the operand's register and
/// the zero register, and, the zero register holding 0, writes the word of
/// the IR result on any operand of the type the operation takes.
pub proof fn lemma_lowered_unop_agrees(op: UnOp, v: RtValue, dst: u8, src: u8)
    requires
        src != ZERO_REG,
        op is Neg ==> v is I64,
        op is Not ==> v is Bool,
    ensures
        spec_eval_un(op, v) matches Ok(w) ==> {
            let ins = unop_inst(op, dst, src);
            &&& ins.a == dst
            &&& ins.b == ZERO_REG || ins.b == src
            &&& ins.c == ZERO_REG || ins.c == src
            &&& alu_word(ins.opcode, operand_word(ins.b, value_word(v)), operand_word(ins.c, value_word(v))) == Some(value_word(w))
        },
{
}

fn unop_mach(op: UnOp, dst: u8, src: u8) -> (r: MachInst)
    ensures
        r == unop_inst(op, dst, src),
        src != ZERO_REG ==> forall|v: RtValue| (op is Neg ==> v is I64) && (op is Not ==> v is Bool) ==> (#[trigger] spec_eval_un(op, v) matches Ok(w)
            ==> alu_word(r.opcode, operand_word(r.b, value_word(v)), operand_word(r.c, value_word(v))) == Some(value_word(w))),
{
    proof {
        assert forall|v: RtValue| src != ZERO_REG && (op is Neg ==> v is I64) && (op is Not ==> v is Bool) implies (#[trigger] spec_eval_un(op, v) matches Ok(w)
            ==> alu_word(unop_inst(op, dst, src).opcode, operand_word(unop_inst(op, dst, src).b, value_word(v)),
                operand_word(unop_inst(op, dst, src).c, value_word(v))) == Some(value_word(w))) by {
            lemma_lowered_unop_agrees(op, v, dst, src);
        }
    }
    match op {
        UnOp::Neg => MachInst::new(Opcode::Sub, dst, ZERO_REG, src, 0),
        UnOp::Not => MachInst::new(Opcode::CmpEq, dst, src, ZERO_REG, 0),
    }
}

fn binop_opcode(op: BinOp) -> (r: Opcode)
    ensures
        r == binop_spec(op),
        forall|l: RtValue, x: RtValue| operands_fit(op, l, x) ==> (#[trigger] spec_eval_bin(op, l, x) matches Ok(v)
            ==> alu_word(r, value_word(l), value_word(x)) == Some(value_word(v))),
{
    proof {
        assert forall|l: RtValue, x: RtValue| operands_fit(op, l, x) implies (#[trigger] spec_eval_bin(op, l, x) matches Ok(v)
            ==> alu_word(binop_spec(op), value_word(l), value_word(x)) == Some(value_word(v))) by {
            lemma_lowered_binop_agrees(op, l, x);
        }
    }
    match op {
        BinOp::Add => Opcode::Add,
        BinOp::Sub => Opcode::Sub,
        BinOp::Mul => Opcode::Mul,
        BinOp::Div => Opcode::Div,
        BinOp::Mod => Opcode::Mod,
        BinOp::CmpEq => Opcode::CmpEq,
        BinOp::CmpNe => Opcode::CmpNe,
        BinOp::CmpLt => Opcode::CmpLt,
        BinOp::CmpLe => Opcode::CmpLe,
        BinOp::CmpGt => Opcode::CmpGt,
        BinOp::CmpGe => Opcode::CmpGe,
        BinOp::And => Opcode::And,
        BinOp::Or => Opcode::Or,
    }
}

proof fn lemma_phi_value_in(insts: Seq<Instruction>, from: BlockId, q: int)
    requires
        0 <= q < insts.len(),
        insts[q].kind is Phi,
        first_incoming(insts[q].kind->Phi_0@, from) is Some,
    ensures
        crate::liveness::phi_values(insts, from).contains((first_incoming(insts[q].kind->Phi_0@, from)->0).0),
    decreases insts.len(),
{
    let v = (first_incoming(insts[q].kind->Phi_0@, from)->0).0;
    let rest = crate::liveness::phi_values(insts.drop_last(), from);
    if q == insts.len() - 1 {
        assert(crate::liveness::phi_values(insts, from) == rest.push(v));
        assert(rest.push(v)[rest.len() as int] == v);
    } else {
        assert(insts.drop_last()[q] == insts[q]);
        lemma_phi_value_in(insts.drop_last(), from, q);
        let j = choose|j: int| 0 <= j < rest.len() && rest[j] == v;
        match insts.last().kind {
            InstKind::Phi(inc) => match first_incoming(inc@, from) {
                Some(w) => {
                    assert(crate::liveness::phi_values(insts, from)[j] == v);
                },
                None => {},
            },
            _ => {},
        }
    }
}

/// A block's phi operands are values the function mentions.
proof fn lemma_phi_value_mentioned(f: Function, t: int, from: BlockId, q: int)
    requires
        0 <= t < f.blocks@.len(),
        0 <= q < f.blocks@[t].instructions@.len(),
        f.blocks@[t].instructions@[q].kind is Phi,
        first_incoming(f.blocks@[t].instructions@[q].kind->Phi_0@, from) is Some,
    ensures
        mentioned(f, (first_incoming(f.blocks@[t].instructions@[q].kind->Phi_0@, from)->0).0),
        mentioned(f, f.blocks@[t].instructions@[q].id.0),
{
    lemma_phi_value_in(f.blocks@[t].instructions@, from, q);
    assert(crate::liveness::mentions(f.blocks@[t], (first_incoming(f.blocks@[t].instructions@[q].kind->Phi_0@, from)->0).0));
}

impl Lowerer {
    /// Resolves the phis of block `to` along the edge from `from`, as one
    /// parallel move, so two phis cannot clobber each other.
    fn insert_phi_copies(&mut self, func: &Function, alloc: &Allocation, blk: &mut PendingBlock, from: BlockId, to: BlockId)
        -> (r: Result<(), CodegenError>)
        requires
            find_block(func.blocks@, to) is Some,
            forall|v: u32| #[trigger] mentioned(*func, v) ==> located(alloc@, v),
            forall|q: int| 0 <= q < func.blocks@[block_index(*func, to)].instructions@.len() ==>
                phi_covers(#[trigger] func.blocks@[block_index(*func, to)].instructions@[q], from),
        ensures
            final(self).pending@ == old(self).pending@,
            final(self).local_index@ == old(self).local_index@,
            final(self).region_end == old(self).region_end,
            final(blk).term == old(blk).term,
            match pmove_spec(edge_moves(*func, alloc@, from, to), old(self).next_temp_addr as int, old(self).region_end as int) {
                Some((c, t)) => r is Ok && final(blk).instructions@ == old(blk).instructions@ + c && final(self).next_temp_addr == t,
                None => r == Err::<(), CodegenError>(CodegenError::OutOfSpillSpace { func: func.name }),
            },
    {
        proof { lemma_find_block(func.blocks@, to); }
        let target = func.block(to).unwrap();
        let ghost t = block_index(*func, to);
        let ghost insts = target.instructions@;
        let mut moves: Vec<(Loc, Loc)> = Vec::new();
        let mut k: usize = 0;
        assert(insts.take(0) =~= Seq::<Instruction>::empty());
        while k < target.instructions.len()
            invariant
                *target == func.blocks@[t],
                0 <= t < func.blocks@.len(),
                insts == target.instructions@,
                k <= insts.len(),
                moves@ == phi_moves(alloc@, insts.take(k as int), from),
                forall|v: u32| #[trigger] mentioned(*func, v) ==> located(alloc@, v),
                forall|q: int| 0 <= q < insts.len() ==> phi_covers(#[trigger] insts[q], from),
            decreases target.instructions.len() - k,
        {
            assert(insts.take(k + 1).drop_last() =~= insts.take(k as int));
            assert(insts.take(k + 1).last() == insts[k as int]);
            match &target.instructions[k].kind {
                InstKind::Phi(incoming) => {
                    assert(phi_covers(insts[k as int], from));
                    proof { lemma_phi_value_mentioned(*func, t, from, k as int); }
                    let v = crate::liveness::first_incoming_value(incoming, from).unwrap();
                    let src = loc_of(alloc, v.0);
                    let dst = loc_of(alloc, target.instructions[k].id.0);
                    moves.push((src, dst));
                },
                _ => {},
            }
            k += 1;
        }
        assert(insts.take(k as int) =~= insts);
        self.parallel_move(func, blk, &moves)
    }
}

/// An instruction's operands and its result are values the function mentions.
proof fn lemma_inst_mentioned(f: Function, i: int, k: int)
    requires
        0 <= i < f.blocks@.len(),
        0 <= k < f.blocks@[i].instructions@.len(),
    ensures
        mentioned(f, f.blocks@[i].instructions@[k].id.0),
        forall|j: int| 0 <= j < crate::liveness::inst_uses(f.blocks@[i].instructions@[k].kind).len()
            ==> mentioned(f, (#[trigger] crate::liveness::inst_uses(f.blocks@[i].instructions@[k].kind)[j]).0),
{
    assert forall|j: int| 0 <= j < crate::liveness::inst_uses(f.blocks@[i].instructions@[k].kind).len()
        implies mentioned(f, (#[trigger] crate::liveness::inst_uses(f.blocks@[i].instructions@[k].kind)[j]).0) by {
        let v = crate::liveness::inst_uses(f.blocks@[i].instructions@[k].kind)[j];
        assert(crate::liveness::inst_uses(f.blocks@[i].instructions@[k].kind).contains(ValueId(v.0)));
        assert(crate::liveness::mentions(f.blocks@[i], v.0));
    }
}

/// The facts about the function, allocation and liveness that every step of
/// the lowering relies on.
pub open spec fn lowering_context(f: Function, al: AllocView, l: Liveness) -> bool {
    &&& lower_ready(f, al)
    &&& liveness_of(l, f)
}

impl Lowerer {
    /// Lowers a call: saves the registers live across it, moves the
    /// arguments into place, ends the block with the call, and starts the
    /// next block by restoring the saved registers and taking the result.
    fn lower_call(&mut self, func: &Function, alloc: &Allocation, liveness: &Liveness, bi: usize, k: usize, cur: &mut PendingBlock)
        -> (r: Result<(), CodegenError>)
        requires
            lowering_context(*func, alloc@, *liveness),
            bi < func.blocks@.len(),
            k < func.blocks@[bi as int].instructions@.len(),
            func.blocks@[bi as int].instructions@[k as int].kind is Call,
        ensures
            final(self).local_index@ == old(self).local_index@,
            final(self).region_end == old(self).region_end,
            match inst_spec(*func, alloc@, block_live(*func, bi as int), old(self).region_end as int, func.blocks@[bi as int].instructions@[k as int],
                (pending_views(old(self).pending@), old(cur).instructions@, old(self).next_temp_addr as int)) {
                Ok((d, c, t)) => r is Ok && pending_views(final(self).pending@) == d && final(cur).instructions@ == c
                    && final(self).next_temp_addr == t,
                Err(e) => r == Err::<(), CodegenError>(e),
            },
    {
        let ghost f = *func;
        let ghost al = alloc@;
        proof {
            lemma_analysis_is_live_sets(*liveness, f);
            lemma_inst_mentioned(f, bi as int, k as int);
        }
        let inst = &func.blocks[bi].instructions[k];
        let id = inst.id.0;
        let block_id = func.blocks[bi].id;
        proof {
            lemma_find_block(f.blocks@, block_id);
            assert(f.blocks@[bi as int].id == block_id);
        }
        let live = live_within_block(func, block_id, liveness);
        assert(live@ == block_live(f, bi as int));
        let list = set_to_vec(&live);
        let mut sorted: Vec<u32> = Vec::new();
        let mut j: usize = 0;
        while j < list.len()
            invariant
                j <= list@.len(),
                increasing(sorted@),
                forall|w: u32| #[trigger] sorted@.to_set().contains(w) <==> ((exists|q: int| 0 <= q < j && list@[q] == w)
                    && w != id && alloc.registers@.contains_key(w)),
            decreases list.len() - j,
        {
            let v = list[j];
            let ghost s0 = sorted@.to_set();
            if v != id && alloc.registers.contains_key(&v) {
                crate::regalloc::insert_sorted(&mut sorted, v);
            }
            proof {
                assert forall|w: u32| #[trigger] sorted@.to_set().contains(w) <==> ((exists|q: int| 0 <= q < j + 1 && list@[q] == w)
                    && w != id && alloc.registers@.contains_key(w)) by {
                    if w == v {
                        assert(list@[j as int] == w);
                    } else {
                        if exists|q: int| 0 <= q < j + 1 && list@[q] == w {
                            let q = choose|q: int| 0 <= q < j + 1 && list@[q] == w;
                            assert(q < j);
                        }
                    }
                }
            }
            j += 1;
        }
        proof {
            assert forall|w: u32| sorted@.to_set().contains(w) == save_set(al, live@, id).contains(w) by {
                if list@.contains(w) {
                    let q = choose|q: int| 0 <= q < list@.len() && list@[q] == w;
                    assert(list@[q] == w);
                }
                if exists|q: int| 0 <= q < j && list@[q] == w {
                    let q = choose|q: int| 0 <= q < j && list@[q] == w;
                    assert(list@.contains(w));
                }
            }
            assert(sorted@.to_set() =~= save_set(al, live@, id));
            assert(increasing(sorted@) && sorted@.to_set() == save_set(al, live@, id));
            let q = sorted_of(save_set(al, live@, id));
            assert(increasing(q) && q.to_set() == save_set(al, live@, id));
            lemma_sorted_unique(sorted@, q);
            crate::regalloc::lemma_increasing_len(sorted@);
        }
        let mut regs: Vec<u8> = Vec::new();
        let mut j: usize = 0;
        while j < sorted.len()
            invariant
                j <= sorted@.len(),
                sorted@ == sorted_of(save_set(al, live@, id)),
                forall|w: u32| #[trigger] sorted@.to_set().contains(w) ==> alloc.registers@.contains_key(w),
                regs@ == sorted@.take(j as int).map_values(|v: u32| alloc.registers@[v]),
            decreases sorted.len() - j,
        {
            assert(sorted@.to_set().contains(sorted@[j as int]));
            let r = *alloc.registers.get(&sorted[j]).unwrap();
            regs.push(r);
            assert(regs@ =~= sorted@.take(j + 1).map_values(|v: u32| alloc.registers@[v]));
            j += 1;
        }
        assert(sorted@.take(j as int) =~= sorted@);
        assert(regs@ == save_regs_spec(al, live@, id));
        let frame: u64 = (regs.len() as u64) * 8;
        let ghost sc_ok = save_code(regs@, regs@.len());
        let ghost rc_ok = restore_code(regs@, regs@.len());
        proof { lemma_save_restore(regs@, regs@.len()); }
        emit_frame_moves(func, cur, &regs, false)?;
        emit_frame_adjust(func, cur, frame, Opcode::Add)?;
        let args = match &inst.kind {
            InstKind::Call { args, .. } => args,
            _ => { return Ok(()); },
        };
        let mut moves: Vec<(Loc, Loc)> = Vec::new();
        let mut i: usize = 0;
        while i < args.len()
            invariant
                i <= args@.len(),
                bi < f.blocks@.len(),
                k < f.blocks@[bi as int].instructions@.len(),
                f.blocks@[bi as int].instructions@[k as int].kind is Call,
                *args == func.blocks@[bi as int].instructions@[k as int].kind->Call_args,
                forall|j2: int| 0 <= j2 < crate::liveness::inst_uses(f.blocks@[bi as int].instructions@[k as int].kind).len()
                    ==> mentioned(f, (#[trigger] crate::liveness::inst_uses(f.blocks@[bi as int].instructions@[k as int].kind)[j2]).0),
                forall|v: u32| #[trigger] mentioned(f, v) ==> located(al, v),
                f == *func,
                al == alloc@,
                moves@ =~= arg_moves(al, args@.take(i as int)),
            decreases args.len() - i,
        {
            assert(crate::liveness::inst_uses(f.blocks@[bi as int].instructions@[k as int].kind)[i as int] == args@[i as int]);
            let src = loc_of(alloc, args[i].0);
            moves.push((src, Loc::Reg(i as u8)));
            assert(moves@ =~= arg_moves(al, args@.take(i + 1)));
            i += 1;
        }
        assert(args@.take(i as int) =~= args@);
        self.parallel_move(func, cur, &moves)?;
        let callee = match &inst.kind {
            InstKind::Call { func: callee, .. } => callee.clone(),
            _ => { return Ok(()); },
        };
        let mut call_blk = PendingBlock { instructions: Vec::new(), term: PendingTerm::Ret };
        std::mem::swap(cur, &mut call_blk);
        call_blk.term = PendingTerm::Call { callee };
        push_block(&mut self.pending, call_blk);
        emit_frame_adjust(func, cur, frame, Opcode::Sub)?;
        emit_frame_moves(func, cur, &regs, true)?;
        let dst = write_target(alloc, id, SCRATCH_1);
        if dst != RET_REG {
            cur.push(MachInst::new(Opcode::Mov, dst, RET_REG, 0, 0));
        }
        let ghost before_fin = cur.instructions@;
        finish_write(func, alloc, cur, id, dst)?;
        proof {
            let mv: Seq<MachInst> = if dst != RET_REG { seq![mi(Opcode::Mov, dst, RET_REG, 0, 0)] } else { seq![] };
            let fin = finish_spec(al, id, dst)->0;
            assert(cur.instructions@ =~= frame_code(frame as int, Opcode::Sub) + restore_code(regs@, regs@.len())->0 + mv + fin);
        }
        Ok(())
    }
}

impl Lowerer {
    /// Lowers instruction `k` of block `bi` into `cur`.
    fn lower_inst(&mut self, func: &Function, alloc: &Allocation, liveness: &Liveness, bi: usize, k: usize, cur: &mut PendingBlock)
        -> (r: Result<(), CodegenError>)
        requires
            lowering_context(*func, alloc@, *liveness),
            bi < func.blocks@.len(),
            k < func.blocks@[bi as int].instructions@.len(),
        ensures
            final(self).local_index@ == old(self).local_index@,
            final(self).region_end == old(self).region_end,
            match inst_spec(*func, alloc@, block_live(*func, bi as int), old(self).region_end as int, func.blocks@[bi as int].instructions@[k as int],
                (pending_views(old(self).pending@), old(cur).instructions@, old(self).next_temp_addr as int)) {
                Ok((d, c, t)) => r is Ok && pending_views(final(self).pending@) == d && final(cur).instructions@ == c
                    && final(self).next_temp_addr == t,
                Err(e) => r == Err::<(), CodegenError>(e),
            },
    {
        let ghost f = *func;
        let ghost al = alloc@;
        proof { lemma_inst_mentioned(f, bi as int, k as int); }
        let inst = &func.blocks[bi].instructions[k];
        let id = inst.id.0;
        let ghost c0 = cur.instructions@;
        match &inst.kind {
            InstKind::Phi(_) => Ok(()),
            InstKind::ConstI64(n) => {
                let n = *n;
                if n < -0x8000_0000 || n > 0x7fff_ffff {
                    return Err(CodegenError::ConstantTooLarge { func: func.name.clone(), value: n });
                }
                let dst = write_target(alloc, id, SCRATCH_1);
                cur.push(MachInst::new(Opcode::LoadI, dst, 0, 0, n as i32));
                finish_write(func, alloc, cur, id, dst)?;
                proof {
                    let fin = finish_spec(al, id, dst)->0;
                    assert(cur.instructions@ =~= c0 + (Seq::<MachInst>::empty().push(mi(Opcode::LoadI, dst, 0, 0, n as int)) + fin));
                }
                Ok(())
            },
            InstKind::ConstBool(b) => {
                let imm: i32 = if *b { 1 } else { 0 };
                let dst = write_target(alloc, id, SCRATCH_1);
                cur.push(MachInst::new(Opcode::LoadI, dst, 0, 0, imm));
                finish_write(func, alloc, cur, id, dst)?;
                proof {
                    let fin = finish_spec(al, id, dst)->0;
                    assert(cur.instructions@ =~= c0 + (Seq::<MachInst>::empty().push(mi(Opcode::LoadI, dst, 0, 0, imm as int)) + fin));
                }
                Ok(())
            },
            InstKind::Bin(op, a, b) => {
                assert(crate::liveness::inst_uses(inst.kind)[0] == *a);
                assert(crate::liveness::inst_uses(inst.kind)[1] == *b);
                let ra = read_into(func, alloc, cur, a.0, SCRATCH_1)?;
                let ghost c1 = cur.instructions@;
                let rb = match read_into(func, alloc, cur, b.0, SCRATCH_2) {
                    Ok(x) => x,
                    Err(e) => { return Err(e); },
                };
                let ghost c2 = cur.instructions@;
                let dst = write_target(alloc, id, SCRATCH_1);
                cur.push(MachInst::new(binop_opcode(*op), dst, ra, rb, 0));
                finish_write(func, alloc, cur, id, dst)?;
                proof {
                    let ca = (read_spec(al, a.0, SCRATCH_1)->0).0;
                    let cb = (read_spec(al, b.0, SCRATCH_2)->0).0;
                    let fin = finish_spec(al, id, dst)->0;
                    assert(cur.instructions@ =~= c0 + ((ca + cb).push(mi(binop_spec(*op), dst, ra, rb, 0)) + fin));
                }
                Ok(())
            },
            InstKind::Un(op, a) => {
                assert(crate::liveness::inst_uses(inst.kind)[0] == *a);
                let ra = read_into(func, alloc, cur, a.0, SCRATCH_1)?;
                let dst = write_target(alloc, id, SCRATCH_1);
                let ins = unop_mach(*op, dst, ra);
                cur.push(ins);
                finish_write(func, alloc, cur, id, dst)?;
                proof {
                    let ca = (read_spec(al, a.0, SCRATCH_1)->0).0;
                    let fin = finish_spec(al, id, dst)->0;
                    assert(cur.instructions@ =~= c0 + (ca.push(ins) + fin));
                }
                Ok(())
            },
            InstKind::Call { .. } => self.lower_call(func, alloc, liveness, bi, k, cur),
        }
    }

    /// Lowers block `bi`'s terminator, finishing `cur` (and, for a branch,
    /// the one-jump block after it).
    fn lower_term(&mut self, func: &Function, alloc: &Allocation, bi: usize, cur: PendingBlock) -> (r: Result<(), CodegenError>)
        requires
            lower_ready(*func, alloc@),
            bi < func.blocks@.len(),
        ensures
            final(self).local_index@ == old(self).local_index@,
            final(self).region_end == old(self).region_end,
            match term_spec(*func, alloc@, old(self).region_end as int, func.blocks@[bi as int],
                (pending_views(old(self).pending@), cur.instructions@, old(self).next_temp_addr as int)) {
                Ok((d, t)) => r is Ok && pending_views(final(self).pending@) == d && final(self).next_temp_addr == t,
                Err(e) => r == Err::<(), CodegenError>(e),
            },
    {
        let ghost f = *func;
        let ghost al = alloc@;
        let mut cur = cur;
        let ghost c0 = cur.instructions@;
        let b = &func.blocks[bi];
        let from = b.id;
        assert(f.blocks@[bi as int].terminator is Some);
        match &b.terminator {
            Some(Terminator::Jump(t)) => {
                let t = *t;
                proof {
                    assert(term_targets(f.blocks@[bi as int])[0] == t);
                    assert(find_block(f.blocks@, term_targets(f.blocks@[bi as int])[0]) is Some);
                    assert forall|q: int| 0 <= q < f.blocks@[block_index(f, t)].instructions@.len() implies
                        phi_covers(#[trigger] f.blocks@[block_index(f, t)].instructions@[q], from) by {
                        assert(phi_covers(f.blocks@[block_index(f, term_targets(f.blocks@[bi as int])[0])].instructions@[q], f.blocks@[bi as int].id));
                    }
                }
                self.insert_phi_copies(func, alloc, &mut cur, from, t)?;
                cur.term = PendingTerm::Jmp(t);
                push_block(&mut self.pending, cur);
                Ok(())
            },
            Some(Terminator::Branch { cond, then_block, else_block }) => {
                let (tb, eb) = (*then_block, *else_block);
                proof {
                    assert(term_targets(f.blocks@[bi as int])[0] == tb);
                    assert(term_targets(f.blocks@[bi as int])[1] == eb);
                    assert(find_block(f.blocks@, term_targets(f.blocks@[bi as int])[0]) is Some);
                    assert(find_block(f.blocks@, term_targets(f.blocks@[bi as int])[1]) is Some);
                    assert forall|q: int| 0 <= q < f.blocks@[block_index(f, tb)].instructions@.len() implies
                        phi_covers(#[trigger] f.blocks@[block_index(f, tb)].instructions@[q], from) by {
                        assert(phi_covers(f.blocks@[block_index(f, term_targets(f.blocks@[bi as int])[0])].instructions@[q], f.blocks@[bi as int].id));
                    }
                    assert forall|q: int| 0 <= q < f.blocks@[block_index(f, eb)].instructions@.len() implies
                        phi_covers(#[trigger] f.blocks@[block_index(f, eb)].instructions@[q], from) by {
                        assert(phi_covers(f.blocks@[block_index(f, term_targets(f.blocks@[bi as int])[1])].instructions@[q], f.blocks@[bi as int].id));
                    }
                    assert(crate::liveness::term_uses(f.blocks@[bi as int].terminator)[0] == *cond);
                    assert(crate::liveness::mentions(f.blocks@[bi as int], cond.0));
                    assert(mentioned(f, cond.0));
                }
                let cond_reg = read_into(func, alloc, &mut cur, cond.0, SCRATCH_1)?;
                self.insert_phi_copies(func, alloc, &mut cur, from, eb)?;
                cur.term = PendingTerm::Jz { cond_reg, target: eb };
                push_block(&mut self.pending, cur);
                let mut thunk = PendingBlock { instructions: Vec::new(), term: PendingTerm::Ret };
                let ghost th0 = thunk.instructions@;
                self.insert_phi_copies(func, alloc, &mut thunk, from, tb)?;
                thunk.term = PendingTerm::Jmp(tb);
                proof {
                    assert(thunk.instructions@ =~= th0 + thunk.instructions@);
                    let pt = pmove_spec(edge_moves(f, al, from, tb), self.next_temp_addr as int, self.region_end as int);
                }
                push_block(&mut self.pending, thunk);
                Ok(())
            },
            Some(Terminator::Return(value)) => {
                match value {
                    Some(v) => {
                        proof {
                            assert(crate::liveness::term_uses(f.blocks@[bi as int].terminator)[0] == *v);
                            assert(crate::liveness::mentions(f.blocks@[bi as int], v.0));
                            assert(mentioned(f, v.0));
                        }
                        let r = read_into(func, alloc, &mut cur, v.0, SCRATCH_1)?;
                        if r != RET_REG {
                            cur.push(MachInst::new(Opcode::Mov, RET_REG, r, 0, 0));
                        }
                        proof {
                            let c = (read_spec(al, v.0, SCRATCH_1)->0).0;
                            let mv: Seq<MachInst> = if r != RET_REG { seq![mi(Opcode::Mov, RET_REG, r, 0, 0)] } else { seq![] };
                            assert(cur.instructions@ =~= c0 + c + mv);
                        }
                    },
                    None => {},
                }
                cur.term = PendingTerm::Ret;
                push_block(&mut self.pending, cur);
                Ok(())
            },
            None => Ok(()),
        }
    }

    /// Lowers block `bi`: its instructions, then its terminator.
    fn lower_block(&mut self, func: &Function, alloc: &Allocation, liveness: &Liveness, bi: usize) -> (r: Result<(), CodegenError>)
        requires
            lowering_context(*func, alloc@, *liveness),
            bi < func.blocks@.len(),
        ensures
            final(self).local_index@ == old(self).local_index@,
            final(self).region_end == old(self).region_end,
            match insts_spec(*func, alloc@, block_live(*func, bi as int), old(self).region_end as int, func.blocks@[bi as int].instructions@,
                func.blocks@[bi as int].instructions@.len(), (pending_views(old(self).pending@), seq![], old(self).next_temp_addr as int)) {
                Ok(st) => match term_spec(*func, alloc@, old(self).region_end as int, func.blocks@[bi as int], st) {
                    Ok((d, t)) => r is Ok && pending_views(final(self).pending@) == d && final(self).next_temp_addr == t,
                    Err(e) => r == Err::<(), CodegenError>(e),
                },
                Err(e) => r == Err::<(), CodegenError>(e),
            },
    {
        let ghost f = *func;
        let ghost al = alloc@;
        let ghost re = self.region_end as int;
        let ghost st0 = (pending_views(self.pending@), Seq::<MachInst>::empty(), self.next_temp_addr as int);
        let ghost insts = f.blocks@[bi as int].instructions@;
        let ghost live = block_live(f, bi as int);
        let mut cur = PendingBlock { instructions: Vec::new(), term: PendingTerm::Ret };
        let mut k: usize = 0;
        while k < func.blocks[bi].instructions.len()
            invariant
                f == *func,
                al == alloc@,
                bi < f.blocks@.len(),
                insts == f.blocks@[bi as int].instructions@,
                live == block_live(f, bi as int),
                k <= insts.len(),
                lowering_context(f, al, *liveness),
                re == self.region_end as int,
                self.local_index@ == old(self).local_index@,
                st0 == (pending_views(old(self).pending@), Seq::<MachInst>::empty(), old(self).next_temp_addr as int),
                re == old(self).region_end as int,
                insts_spec(f, al, live, re, insts, k as nat, st0) == Ok::<(Seq<(Seq<MachInst>, PendingTerm)>, Seq<MachInst>, int), CodegenError>(
                    (pending_views(self.pending@), cur.instructions@, self.next_temp_addr as int)),
            decreases insts.len() - k,
        {
            match self.lower_inst(func, alloc, liveness, bi, k, &mut cur) {
                Ok(()) => {},
                Err(e) => {
                    proof { lemma_insts_err(f, al, live, re, insts, (k + 1) as nat, insts.len(), st0, e); }
                    return Err(e);
                },
            }
            k += 1;
        }
        self.lower_term(func, alloc, bi, cur)
    }

    /// Lowers every block of `func` in order, recording where each starts.
    #[verifier::rlimit(40)]
    fn lower(self, func: &Function, alloc: &Allocation, liveness: &Liveness)
        -> (r: Result<(Vec<PendingBlock>, HashMap<u32, usize>), CodegenError>)
        requires
            lowering_context(*func, alloc@, *liveness),
            self.pending@.len() == 0,
            self.local_index@ == Map::<u32, usize>::empty(),
        ensures
            match blocks_spec(*func, alloc@, self.region_end as int, func.blocks@.len(), self.next_temp_addr as int) {
                Ok((d, _)) => r matches Ok((p, li)) && pending_views(p@) == d && lowered_index(*func, alloc@, self.region_end as int,
                    self.next_temp_addr as int, li@),
                Err(e) => r == Err::<(Vec<PendingBlock>, HashMap<u32, usize>), CodegenError>(e),
            },
    {
        let mut this = self;
        let ghost f = *func;
        let ghost al = alloc@;
        let ghost re = this.region_end as int;
        let ghost t0 = this.next_temp_addr as int;
        if this.next_temp_addr > this.region_end {
            proof { lemma_blocks_err(f, al, re, 0, f.blocks@.len(), t0, CodegenError::OutOfSpillSpace { func: f.name }); }
            return Err(out_of_space(func));
        }
        let n = func.blocks.len();
        proof {
            lemma_analysis_is_live_sets(*liveness, f);
            crate::liveness::lemma_distinct_block_ids(f.blocks@, 0);
            assert(pending_views(this.pending@) =~= Seq::<(Seq<MachInst>, PendingTerm)>::empty());
        }
        let mut i: usize = 0;
        while i < n
            invariant
                re == self.region_end as int,
                t0 == self.next_temp_addr as int,
                f == *func,
                al == alloc@,
                n == f.blocks@.len(),
                i <= n,
                lowering_context(f, al, *liveness),
                re == this.region_end as int,
                forall|a: int, b: int| 0 <= a < b < f.blocks@.len() ==> (#[trigger] f.blocks@[a]).id != (#[trigger] f.blocks@[b]).id,
                blocks_spec(f, al, re, i as nat, t0) == Ok::<(Seq<(Seq<MachInst>, PendingTerm)>, int), CodegenError>(
                    (pending_views(this.pending@), this.next_temp_addr as int)),
                forall|i2: int| 0 <= i2 < i ==> this.local_index@.contains_key((#[trigger] f.blocks@[i2]).id.0)
                    && this.local_index@[f.blocks@[i2].id.0] as int == block_start(f, al, re, i2, t0),
                forall|key: u32| this.local_index@.contains_key(key) ==> exists|i2: int| 0 <= i2 < i && (#[trigger] f.blocks@[i2]).id.0 == key,
            decreases n - i,
        {
            let ghost li0 = this.local_index@;
            let key = func.blocks[i].id.0;
            let start = this.pending.len();
            this.local_index.insert(key, start);
            proof {
                assert(block_start(f, al, re, i as int, t0) == pending_views(this.pending@).len());
                lemma_index_insert(f, al, re, t0, li0, this.local_index@, i as int, start);
            }
            proof {
                lemma_blocks_step(f, al, re, t0, i as nat, pending_views(this.pending@), this.next_temp_addr as int);
            }
            match this.lower_block(func, alloc, liveness, i) {
                Ok(()) => {},
                Err(e) => {
                    proof {
                        assert(blocks_spec(f, al, re, (i + 1) as nat, t0) == Err::<(Seq<(Seq<MachInst>, PendingTerm)>, int), CodegenError>(e));
                        lemma_blocks_err(f, al, re, (i + 1) as nat, n as nat, t0, e);
                        assert(blocks_spec(f, al, re, n as nat, t0) == Err::<(Seq<(Seq<MachInst>, PendingTerm)>, int), CodegenError>(e));
                    }
                    return Err(e);
                },
            }
            i += 1;
        }
        Ok((this.pending, this.local_index))
    }
}

proof fn lemma_blocks_step(f: Function, al: AllocView, re: int, t0: int, i: nat, done: Seq<(Seq<MachInst>, PendingTerm)>, temp: int)
    requires
        i < f.blocks@.len(),
        blocks_spec(f, al, re, i, t0) == Ok::<(Seq<(Seq<MachInst>, PendingTerm)>, int), CodegenError>((done, temp)),
    ensures
        blocks_spec(f, al, re, i + 1, t0) == match insts_spec(f, al, block_live(f, i as int), re, f.blocks@[i as int].instructions@,
            f.blocks@[i as int].instructions@.len(), (done, seq![], temp)) {
            Ok(st) => term_spec(f, al, re, f.blocks@[i as int], st),
            Err(e) => Err(e),
        },
{
}

proof fn lemma_index_insert(f: Function, al: AllocView, re: int, t0: int, li0: Map<u32, usize>, li1: Map<u32, usize>, i: int, start: usize)
    requires
        0 <= i < f.blocks@.len(),
        forall|a: int, b: int| 0 <= a < b < f.blocks@.len() ==> (#[trigger] f.blocks@[a]).id != (#[trigger] f.blocks@[b]).id,
        forall|i2: int| 0 <= i2 < i ==> li0.contains_key((#[trigger] f.blocks@[i2]).id.0)
            && li0[f.blocks@[i2].id.0] as int == block_start(f, al, re, i2, t0),
        forall|key: u32| li0.contains_key(key) ==> exists|i2: int| 0 <= i2 < i && (#[trigger] f.blocks@[i2]).id.0 == key,
        li1 == li0.insert(f.blocks@[i].id.0, start),
        start as int == block_start(f, al, re, i, t0),
    ensures
        forall|i2: int| 0 <= i2 < i + 1 ==> li1.contains_key((#[trigger] f.blocks@[i2]).id.0)
            && li1[f.blocks@[i2].id.0] as int == block_start(f, al, re, i2, t0),
        forall|key: u32| li1.contains_key(key) ==> exists|i2: int| 0 <= i2 < i + 1 && (#[trigger] f.blocks@[i2]).id.0 == key,
{
    let key = f.blocks@[i].id.0;
    assert forall|i2: int| 0 <= i2 < i + 1 implies li1.contains_key((#[trigger] f.blocks@[i2]).id.0)
        && li1[f.blocks@[i2].id.0] as int == block_start(f, al, re, i2, t0) by {
        if i2 < i {
            assert(f.blocks@[i2].id != f.blocks@[i].id);
        }
    }
    assert forall|key2: u32| li1.contains_key(key2) implies exists|i2: int| 0 <= i2 < i + 1 && (#[trigger] f.blocks@[i2]).id.0 == key2 by {
        if key2 != key {
            assert(li0.contains_key(key2));
        } else {
            assert(f.blocks@[i].id.0 == key2);
        }
    }
}

/// Where block `i`'s code starts among the pending blocks: the number of
/// pending blocks the blocks before it lower to.
pub open spec fn block_start(f: Function, al: AllocView, re: int, i: int, t0: int) -> int {
    match blocks_spec(f, al, re, i as nat, t0) {
        Ok((d, _)) => d.len() as int,
        Err(_) => 0,
    }
}

/// `li` maps each block's id number to where the block's code starts, and
/// holds nothing else.
pub open spec fn lowered_index(f: Function, al: AllocView, re: int, t0: int, li: Map<u32, usize>) -> bool {
    &&& forall|i: int| 0 <= i < f.blocks@.len() ==> li.contains_key((#[trigger] f.blocks@[i]).id.0)
        && li[f.blocks@[i].id.0] as int == block_start(f, al, re, i, t0)
    &&& forall|key: u32| li.contains_key(key) ==> exists|i: int| 0 <= i < f.blocks@.len() && (#[trigger] f.blocks@[i]).id.0 == key
}

/// Lowers `func` to pending blocks (control-flow targets not yet resolved
/// to absolute addresses), plus the index of each of its blocks' first
/// pending block. The function's temporaries take the memory from
/// `region_base` (past its spill slots) to `region_end`.
pub fn lower_function(func: &Function, alloc: &Allocation, region_base: u64, region_end: u64)
    -> (r: Result<(Vec<PendingBlock>, HashMap<u32, usize>), CodegenError>)
    requires
        lower_ready(*func, alloc@),
        region_base + 8 * alloc.spills@.len() <= u64::MAX,
    ensures
        match blocks_spec(*func, alloc@, region_end as int, func.blocks@.len(), region_base + 8 * alloc.spills@.len()) {
            Ok((d, _)) => r matches Ok((p, li)) && pending_views(p@) == d && lowered_index(*func, alloc@, region_end as int,
                region_base + 8 * alloc.spills@.len(), li@),
            Err(e) => r == Err::<(Vec<PendingBlock>, HashMap<u32, usize>), CodegenError>(e),
        },
{
    let next_temp_addr = region_base + (alloc.spills.len() as u64) * 8;
    let liveness = analyze(func);
    let lowerer = Lowerer { pending: Vec::new(), local_index: HashMap::new(), next_temp_addr, region_end };
    lowerer.lower(func, alloc, &liveness)
}

} // verus!
