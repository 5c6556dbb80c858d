//! The zero register holds 0 for the whole run of a compiled program: no
//! instruction that code generation emits ever writes it, so it can serve
//! as the base register of every absolute load and store.

use vstd::prelude::*;
use crate::lower::{blocks_spec, edge_moves, insts_spec, term_spec, inst_spec, PendingTerm, arg_moves, finish_spec, frame_code, loc_spec, mi, phi_moves, pmove_spec, read_spec, restore_code,
    save_code, save_regs_spec, save_set, stage_in, stage_out, target_spec, with_result, Loc};
use crate::machine::{MachInst, Opcode};
use crate::regalloc::{AllocView, colored_values, greedy, greedy_alloc, lemma_greedy_sound, lemma_increasing_len, increasing, lemma_sorted_exists, sorted_of, RET_REG, SCRATCH_1, SCRATCH_2, STACK_PTR, ZERO_REG};
use crate::inst::{Instruction, InstKind, UnOp};
use crate::function::Function;
use crate::module::Module;
use crate::text::nat_text;
use crate::codegen::{compile_spec, func_alloc, func_pending, init_block, start_target, pending_prefix, reserved_of, resolve_prefix, resolve_term, temp_start};
use crate::block::{BasicBlock, Terminator};
use crate::liveness::{block_index, block_live};
use crate::value::{BlockId, ValueId};

verus! {

/// `op` writes its `a` register.
pub open spec fn writes_a(op: Opcode) -> bool {
    !(op is Store || op is Jmp || op is Jz || op is Call || op is Ret || op is Halt)
}

/// `i` leaves the zero register alone.
pub open spec fn keeps_zero(i: MachInst) -> bool {
    writes_a(i.opcode) ==> i.a != ZERO_REG
}

pub open spec fn code_keeps_zero(c: Seq<MachInst>) -> bool {
    forall|j: int| 0 <= j < c.len() ==> keeps_zero(#[trigger] c[j])
}

/// Every register the allocation hands out is a general-purpose one.
pub open spec fn regs_general(al: AllocView) -> bool {
    forall|v: u32| #[trigger] al.registers.contains_key(v) ==> al.registers[v] < 27
}

proof fn lemma_concat(a: Seq<MachInst>, b: Seq<MachInst>)
    requires
        code_keeps_zero(a),
        code_keeps_zero(b),
    ensures
        code_keeps_zero(a + b),
{
    assert forall|j: int| 0 <= j < (a + b).len() implies keeps_zero(#[trigger] (a + b)[j]) by {
        if j < a.len() {
            assert((a + b)[j] == a[j]);
        } else {
            assert((a + b)[j] == b[j - a.len()]);
        }
    }
}

proof fn lemma_push(a: Seq<MachInst>, i: MachInst)
    requires
        code_keeps_zero(a),
        keeps_zero(i),
    ensures
        code_keeps_zero(a.push(i)),
{
    assert forall|j: int| 0 <= j < a.push(i).len() implies keeps_zero(#[trigger] a.push(i)[j]) by {
        if j < a.len() {
            assert(a.push(i)[j] == a[j]);
        }
    }
}

/// The register an instruction defining `v` writes is never the zero register.
proof fn lemma_target(al: AllocView, v: u32, scratch: u8)
    requires
        regs_general(al),
        scratch != ZERO_REG,
    ensures
        target_spec(al, v, scratch) != ZERO_REG,
{
}

proof fn lemma_read(al: AllocView, v: u32, scratch: u8)
    requires
        scratch != ZERO_REG,
    ensures
        read_spec(al, v, scratch) matches Some((c, _)) ==> code_keeps_zero(c),
{
}

proof fn lemma_finish(al: AllocView, v: u32, reg: u8)
    ensures
        finish_spec(al, v, reg) matches Some(c) ==> code_keeps_zero(c),
{
}

proof fn lemma_with_result(al: AllocView, id: u32, pre: Seq<MachInst>, ins: MachInst, dst: u8)
    requires
        code_keeps_zero(pre),
        keeps_zero(ins),
    ensures
        with_result(al, id, pre, ins, dst) matches Some(c) ==> code_keeps_zero(c),
{
    lemma_finish(al, id, dst);
    lemma_push(pre, ins);
    match finish_spec(al, id, dst) {
        Some(fin) => lemma_concat(pre.push(ins), fin),
        None => {},
    }
}

proof fn lemma_stage_in(moves: Seq<(Loc, Loc)>, temp: int, k: nat)
    ensures
        stage_in(moves, temp, k) matches Some(c) ==> code_keeps_zero(c),
    decreases k,
{
    if k > 0 {
        lemma_stage_in(moves, temp, (k - 1) as nat);
        match stage_in(moves, temp, (k - 1) as nat) {
            Some(c) => {
                let t = temp + 8 * (k - 1);
                match moves[k - 1].0 {
                    Loc::Reg(r) => lemma_push(c, mi(Opcode::Store, ZERO_REG, r, 0, t)),
                    Loc::Spill(a) => {
                        lemma_concat(c, seq![mi(Opcode::Load, SCRATCH_1, ZERO_REG, 0, a as int), mi(Opcode::Store, ZERO_REG, SCRATCH_1, 0, t)]);
                    },
                }
            },
            None => {},
        }
    }
}

/// No move of `moves` goes to the zero register.
pub open spec fn dests_general(moves: Seq<(Loc, Loc)>) -> bool {
    forall|j: int| 0 <= j < moves.len() ==> !((#[trigger] moves[j]).1 == Loc::Reg(ZERO_REG))
}

proof fn lemma_stage_out(moves: Seq<(Loc, Loc)>, temp: int, k: nat)
    requires
        dests_general(moves),
        k <= moves.len(),
    ensures
        stage_out(moves, temp, k) matches Some(c) ==> code_keeps_zero(c),
    decreases k,
{
    if k > 0 {
        lemma_stage_out(moves, temp, (k - 1) as nat);
        match stage_out(moves, temp, (k - 1) as nat) {
            Some(c) => {
                let t = temp + 8 * (k - 1);
                assert(!(moves[k - 1].1 == Loc::Reg(ZERO_REG)));
                match moves[k - 1].1 {
                    Loc::Reg(r) => lemma_push(c, mi(Opcode::Load, r, ZERO_REG, 0, t)),
                    Loc::Spill(a) => {
                        lemma_concat(c, seq![mi(Opcode::Load, SCRATCH_1, ZERO_REG, 0, t), mi(Opcode::Store, ZERO_REG, SCRATCH_1, 0, a as int)]);
                    },
                }
            },
            None => {},
        }
    }
}

proof fn lemma_pmove(moves: Seq<(Loc, Loc)>, next: int, region_end: int)
    requires
        dests_general(moves),
    ensures
        pmove_spec(moves, next, region_end) matches Some((c, _)) ==> code_keeps_zero(c),
{
    lemma_stage_in(moves, next, moves.len());
    lemma_stage_out(moves, next, moves.len());
    match (stage_in(moves, next, moves.len()), stage_out(moves, next, moves.len())) {
        (Some(a), Some(b)) => lemma_concat(a, b),
        _ => {},
    }
    assert(code_keeps_zero(Seq::<MachInst>::empty()));
}

proof fn lemma_phi_moves(al: AllocView, insts: Seq<Instruction>, from: BlockId)
    requires
        regs_general(al),
    ensures
        dests_general(phi_moves(al, insts, from)),
    decreases insts.len(),
{
    if insts.len() > 0 {
        lemma_phi_moves(al, insts.drop_last(), from);
        let rest = phi_moves(al, insts.drop_last(), from);
        match insts.last().kind {
            InstKind::Phi(inc) => {
                let cur = phi_moves(al, insts, from);
                assert forall|j: int| 0 <= j < cur.len() implies !((#[trigger] cur[j]).1 == Loc::Reg(ZERO_REG)) by {
                    if j < rest.len() {
                        assert(cur[j] == rest[j]);
                    }
                }
            },
            _ => {},
        }
    }
}

proof fn lemma_arg_moves(al: AllocView, args: Seq<ValueId>)
    requires
        args.len() <= 27,
    ensures
        dests_general(arg_moves(al, args)),
{
}

proof fn lemma_save_code(regs: Seq<u8>, k: nat)
    ensures
        save_code(regs, k) matches Some(c) ==> code_keeps_zero(c),
    decreases k,
{
    if k > 0 {
        lemma_save_code(regs, (k - 1) as nat);
        match save_code(regs, (k - 1) as nat) {
            Some(c) => lemma_push(c, mi(Opcode::Store, STACK_PTR, regs[k - 1], 0, 8 * (k - 1))),
            None => {},
        }
    }
}

proof fn lemma_restore_code(regs: Seq<u8>, k: nat)
    requires
        k <= regs.len(),
        forall|j: int| 0 <= j < regs.len() ==> #[trigger] regs[j] != ZERO_REG,
    ensures
        restore_code(regs, k) matches Some(c) ==> code_keeps_zero(c),
    decreases k,
{
    if k > 0 {
        lemma_restore_code(regs, (k - 1) as nat);
        match restore_code(regs, (k - 1) as nat) {
            Some(c) => lemma_push(c, mi(Opcode::Load, regs[k - 1], STACK_PTR, 0, 8 * (k - 1))),
            None => {},
        }
    }
}

/// The registers a call saves are general-purpose ones.
proof fn lemma_save_regs(al: AllocView, live: Set<u32>, id: u32)
    requires
        regs_general(al),
    ensures
        forall|j: int| 0 <= j < save_regs_spec(al, live, id).len() ==> #[trigger] save_regs_spec(al, live, id)[j] != ZERO_REG,
{
    let s = save_set(al, live, id);
    lemma_sorted_exists(s);
    let q = sorted_of(s);
    assert forall|j: int| 0 <= j < save_regs_spec(al, live, id).len() implies #[trigger] save_regs_spec(al, live, id)[j] != ZERO_REG by {
        assert(q.to_set().contains(q[j]));
        assert(s.contains(q[j]));
        assert(al.registers.contains_key(q[j]));
    }
}

proof fn lemma_frame(frame: int, op: Opcode)
    ensures
        code_keeps_zero(frame_code(frame, op)),
{
}

/// Every finished block and the block being filled leave the zero register alone.
pub open spec fn state_keeps(st: (Seq<(Seq<MachInst>, PendingTerm)>, Seq<MachInst>, int)) -> bool {
    &&& forall|j: int| 0 <= j < st.0.len() ==> code_keeps_zero(#[trigger] st.0[j].0)
    &&& code_keeps_zero(st.1)
}

/// Every call of `f` passes at most as many arguments as there are
/// general-purpose registers.
pub open spec fn calls_fit(f: Function) -> bool {
    forall|i: int, k: int| 0 <= i < f.blocks@.len() && 0 <= k < f.blocks@[i].instructions@.len()
        ==> args_fit(#[trigger] f.blocks@[i].instructions@[k])
}

pub open spec fn args_fit(inst: Instruction) -> bool {
    match inst.kind {
        InstKind::Call { args, .. } => args@.len() <= 27,
        _ => true,
    }
}

proof fn lemma_inst(f: Function, al: AllocView, live: Set<u32>, re: int, inst: Instruction,
    st: (Seq<(Seq<MachInst>, PendingTerm)>, Seq<MachInst>, int))
    requires
        regs_general(al),
        state_keeps(st),
        args_fit(inst),
    ensures
        inst_spec(f, al, live, re, inst, st) matches Ok(st2) ==> state_keeps(st2),
{
    let (done, cur, temp) = st;
    let id = inst.id.0;
    let dst = target_spec(al, id, SCRATCH_1);
    lemma_target(al, id, SCRATCH_1);
    match inst.kind {
        InstKind::Phi(_) => {},
        InstKind::ConstI64(n) => {
            assert(code_keeps_zero(Seq::<MachInst>::empty()));
            lemma_with_result(al, id, seq![], mi(Opcode::LoadI, dst, 0, 0, n as int), dst);
            match with_result(al, id, seq![], mi(Opcode::LoadI, dst, 0, 0, n as int), dst) {
                Some(c) => lemma_concat(cur, c),
                None => {},
            }
        },
        InstKind::ConstBool(b) => {
            let imm = if b { 1int } else { 0int };
            assert(code_keeps_zero(Seq::<MachInst>::empty()));
            lemma_with_result(al, id, seq![], mi(Opcode::LoadI, dst, 0, 0, imm), dst);
            match with_result(al, id, seq![], mi(Opcode::LoadI, dst, 0, 0, imm), dst) {
                Some(c) => lemma_concat(cur, c),
                None => {},
            }
        },
        InstKind::Bin(op, a, b) => {
            lemma_read(al, a.0, SCRATCH_1);
            lemma_read(al, b.0, SCRATCH_2);
            match (read_spec(al, a.0, SCRATCH_1), read_spec(al, b.0, SCRATCH_2)) {
                (Some((ca, ra)), Some((cb, rb))) => {
                    lemma_concat(ca, cb);
                    lemma_with_result(al, id, ca + cb, mi(crate::lower::binop_spec(op), dst, ra, rb, 0), dst);
                    match with_result(al, id, ca + cb, mi(crate::lower::binop_spec(op), dst, ra, rb, 0), dst) {
                        Some(c) => lemma_concat(cur, c),
                        None => {},
                    }
                },
                _ => {},
            }
        },
        InstKind::Un(op, a) => {
            lemma_read(al, a.0, SCRATCH_1);
            match read_spec(al, a.0, SCRATCH_1) {
                Some((ca, ra)) => {
                    let ins = match op {
                        UnOp::Neg => mi(Opcode::Sub, dst, ZERO_REG, ra, 0),
                        UnOp::Not => mi(Opcode::CmpEq, dst, ra, ZERO_REG, 0),
                    };
                    lemma_with_result(al, id, ca, ins, dst);
                    match with_result(al, id, ca, ins, dst) {
                        Some(c) => lemma_concat(cur, c),
                        None => {},
                    }
                },
                None => {},
            }
        },
        InstKind::Call { func: callee, args } => {
            let regs = save_regs_spec(al, live, id);
            let frame: int = 8 * regs.len() as int;
            lemma_save_code(regs, regs.len());
            lemma_save_regs(al, live, id);
            lemma_restore_code(regs, regs.len());
            lemma_arg_moves(al, args@);
            lemma_pmove(arg_moves(al, args@), temp, re);
            lemma_frame(frame, Opcode::Add);
            lemma_frame(frame, Opcode::Sub);
            lemma_finish(al, id, dst);
            match (save_code(regs, regs.len()), restore_code(regs, regs.len()), pmove_spec(arg_moves(al, args@), temp, re)) {
                (Some(sc), Some(rc), Some((pm, temp2))) => {
                    let mv: Seq<MachInst> = if dst != RET_REG { seq![mi(Opcode::Mov, dst, RET_REG, 0, 0)] } else { seq![] };
                    assert(code_keeps_zero(mv));
                    match finish_spec(al, id, dst) {
                        Some(fin) => {
                            lemma_concat(cur, sc);
                            lemma_concat(cur + sc, frame_code(frame, Opcode::Add));
                            lemma_concat(cur + sc + frame_code(frame, Opcode::Add), pm);
                            lemma_concat(frame_code(frame, Opcode::Sub), rc);
                            lemma_concat(frame_code(frame, Opcode::Sub) + rc, mv);
                            lemma_concat(frame_code(frame, Opcode::Sub) + rc + mv, fin);
                            let nd = done.push((cur + sc + frame_code(frame, Opcode::Add) + pm, PendingTerm::Call { callee }));
                            assert forall|j: int| 0 <= j < nd.len() implies code_keeps_zero(#[trigger] nd[j].0) by {
                                if j < done.len() {
                                    assert(nd[j] == done[j]);
                                }
                            }
                        },
                        None => {},
                    }
                },
                _ => {},
            }
        },
    }
}

proof fn lemma_insts(f: Function, al: AllocView, live: Set<u32>, re: int, insts: Seq<Instruction>, k: nat,
    st: (Seq<(Seq<MachInst>, PendingTerm)>, Seq<MachInst>, int))
    requires
        regs_general(al),
        state_keeps(st),
        k <= insts.len(),
        forall|j: int| 0 <= j < insts.len() ==> args_fit(#[trigger] insts[j]),
    ensures
        insts_spec(f, al, live, re, insts, k, st) matches Ok(st2) ==> state_keeps(st2),
    decreases k,
{
    if k > 0 {
        lemma_insts(f, al, live, re, insts, (k - 1) as nat, st);
        match insts_spec(f, al, live, re, insts, (k - 1) as nat, st) {
            Ok(s) => lemma_inst(f, al, live, re, insts[k - 1], s),
            Err(_) => {},
        }
    }
}

proof fn lemma_term(f: Function, al: AllocView, re: int, b: BasicBlock,
    st: (Seq<(Seq<MachInst>, PendingTerm)>, Seq<MachInst>, int))
    requires
        regs_general(al),
        state_keeps(st),
    ensures
        term_spec(f, al, re, b, st) matches Ok((d, _)) ==> forall|j: int| 0 <= j < d.len() ==> code_keeps_zero(#[trigger] d[j].0),
{
    let (done, cur, temp) = st;
    match b.terminator {
        Some(Terminator::Jump(t)) => {
            lemma_phi_moves(al, f.blocks@[block_index(f, t)].instructions@, b.id);
            lemma_pmove(edge_moves(f, al, b.id, t), temp, re);
            match pmove_spec(edge_moves(f, al, b.id, t), temp, re) {
                Some((pm, t2)) => {
                    lemma_concat(cur, pm);
                    let nd = done.push((cur + pm, PendingTerm::Jmp(t)));
                    assert forall|j: int| 0 <= j < nd.len() implies code_keeps_zero(#[trigger] nd[j].0) by {
                        if j < done.len() {
                            assert(nd[j] == done[j]);
                        }
                    }
                },
                None => {},
            }
        },
        Some(Terminator::Branch { cond, then_block, else_block }) => {
            lemma_read(al, cond.0, SCRATCH_1);
            lemma_phi_moves(al, f.blocks@[block_index(f, else_block)].instructions@, b.id);
            lemma_phi_moves(al, f.blocks@[block_index(f, then_block)].instructions@, b.id);
            match read_spec(al, cond.0, SCRATCH_1) {
                Some((cc, cr)) => {
                    lemma_pmove(edge_moves(f, al, b.id, else_block), temp, re);
                    match pmove_spec(edge_moves(f, al, b.id, else_block), temp, re) {
                        Some((pe, t2)) => {
                            lemma_pmove(edge_moves(f, al, b.id, then_block), t2, re);
                            match pmove_spec(edge_moves(f, al, b.id, then_block), t2, re) {
                                Some((pt, t3)) => {
                                    lemma_concat(cur, cc);
                                    lemma_concat(cur + cc, pe);
                                    let nd = done.push((cur + cc + pe, PendingTerm::Jz { cond_reg: cr, target: else_block })).push(
                                        (pt, PendingTerm::Jmp(then_block)));
                                    assert forall|j: int| 0 <= j < nd.len() implies code_keeps_zero(#[trigger] nd[j].0) by {
                                        if j < done.len() {
                                            assert(nd[j] == done[j]);
                                        }
                                    }
                                },
                                None => {},
                            }
                        },
                        None => {},
                    }
                },
                None => {},
            }
        },
        Some(Terminator::Return(Some(v))) => {
            lemma_read(al, v.0, SCRATCH_1);
            match read_spec(al, v.0, SCRATCH_1) {
                Some((c, r)) => {
                    let mv: Seq<MachInst> = if r != RET_REG { seq![mi(Opcode::Mov, RET_REG, r, 0, 0)] } else { seq![] };
                    assert(code_keeps_zero(mv));
                    lemma_concat(cur, c);
                    lemma_concat(cur + c, mv);
                    let nd = done.push((cur + c + mv, PendingTerm::Ret));
                    assert forall|j: int| 0 <= j < nd.len() implies code_keeps_zero(#[trigger] nd[j].0) by {
                        if j < done.len() {
                            assert(nd[j] == done[j]);
                        }
                    }
                },
                None => {},
            }
        },
        _ => {
            let nd = done.push((cur, PendingTerm::Ret));
            assert forall|j: int| 0 <= j < nd.len() implies code_keeps_zero(#[trigger] nd[j].0) by {
                if j < done.len() {
                    assert(nd[j] == done[j]);
                }
            }
        },
    }
}

/// Lowering a function whose allocation hands out only general-purpose
/// registers, and whose calls fit the argument registers, never writes the
/// zero register.
pub proof fn lemma_lowered_blocks_keep_zero(f: Function, al: AllocView, re: int, k: nat, t0: int)
    requires
        regs_general(al),
        calls_fit(f),
        k <= f.blocks@.len(),
    ensures
        blocks_spec(f, al, re, k, t0) matches Ok((d, _)) ==> forall|j: int| 0 <= j < d.len() ==> code_keeps_zero(#[trigger] d[j].0),
    decreases k,
{
    if k > 0 {
        lemma_lowered_blocks_keep_zero(f, al, re, (k - 1) as nat, t0);
        match blocks_spec(f, al, re, (k - 1) as nat, t0) {
            Ok((done, temp)) => {
                let b = f.blocks@[k - 1];
                let st0 = (done, Seq::<MachInst>::empty(), temp);
                assert(state_keeps(st0));
                assert forall|j: int| 0 <= j < b.instructions@.len() implies args_fit(#[trigger] b.instructions@[j]) by {
                    assert(args_fit(f.blocks@[k - 1].instructions@[j]));
                }
                lemma_insts(f, al, block_live(f, k - 1), re, b.instructions@, b.instructions@.len(), st0);
                match insts_spec(f, al, block_live(f, k - 1), re, b.instructions@, b.instructions@.len(), st0) {
                    Ok(st) => lemma_term(f, al, re, b, st),
                    Err(_) => {},
                }
            },
            Err(_) => {},
        }
    }
}

/// A greedy allocation of a function with at most 27 parameters hands out
/// only general-purpose registers.
proof fn lemma_alloc_general(f: Function, reserved: u8, base: int)
    requires
        f.params@.len() <= 27,
        0 <= base <= 0x1_0000_0000,
    ensures
        regs_general(greedy_alloc(f, reserved, base)),
{
    let order = sorted_of(colored_values(f));
    lemma_sorted_exists(colored_values(f));
    lemma_increasing_len(order);
    assert forall|j: int| 0 <= j < order.len() implies #[trigger] order[j] >= f.params@.len() by {
        assert(order.to_set().contains(order[j]));
    }
    lemma_greedy_sound(f, order, order.len(), reserved, base);
    let st = greedy(f, order, order.len(), reserved, base);
    assert forall|v: u32| #[trigger] st.0.contains_key(v) implies st.0[v] < 27 by {
        if v < f.params@.len() {
            assert(st.0[v] == v as u8);
        }
    }
}

proof fn lemma_pending_keeps_zero(m: Module, k: nat)
    requires
        k <= m.functions@.len() <= 128,
        forall|i: int| 0 <= i < m.functions@.len() ==> calls_fit(#[trigger] m.functions@[i]),
    ensures
        pending_prefix(m, k) matches Ok(p) ==> forall|j: int| 0 <= j < p.len() ==> code_keeps_zero(#[trigger] p[j].1.0),
    decreases k,
{
    if k > 0 {
        lemma_pending_keeps_zero(m, (k - 1) as nat);
        let i = k - 1;
        let f = m.functions@[i];
        match pending_prefix(m, (k - 1) as nat) {
            Ok(p) => {
                if f.params@.len() <= 27 {
                    lemma_alloc_general(f, reserved_of(m), 4096 * i);
                    assert(calls_fit(f));
                    lemma_lowered_blocks_keep_zero(f, func_alloc(m, i), 4096 * i + 4096, f.blocks@.len(), temp_start(m, i));
                }
                match func_pending(m, i) {
                    Ok(d) => {
                        let added = d.map_values(|b: (Seq<MachInst>, PendingTerm)| (i, b));
                        let p2 = p + added;
                        assert forall|j: int| 0 <= j < p2.len() implies code_keeps_zero(#[trigger] p2[j].1.0) by {
                            if j < p.len() {
                                assert(p2[j] == p[j]);
                            } else {
                                assert(p2[j] == added[j - p.len()]);
                                assert(added[j - p.len()].1 == d[j - p.len()]);
                            }
                        }
                    },
                    Err(_) => {},
                }
            },
            Err(_) => {},
        }
    }
}

proof fn lemma_resolved_keeps_zero(m: Module, pend: Seq<(int, (Seq<MachInst>, PendingTerm))>, k: nat)
    requires
        k <= pend.len(),
        forall|j: int| 0 <= j < pend.len() ==> code_keeps_zero(#[trigger] pend[j].1.0),
    ensures
        resolve_prefix(m, pend, k) matches Ok(bs) ==> forall|j: int| 0 <= j < bs.len() ==> code_keeps_zero(#[trigger] bs[j].1),
    decreases k,
{
    if k > 0 {
        lemma_resolved_keeps_zero(m, pend, (k - 1) as nat);
        match resolve_prefix(m, pend, (k - 1) as nat) {
            Ok(done) => {
                let (o, pb) = pend[k - 1];
                match resolve_term(m, o, pb.1) {
                    Ok(t) => {
                        assert(keeps_zero(t));
                        assert(code_keeps_zero(pend[k - 1].1.0));
                        lemma_push(pb.0, t);
                        let label = m.functions@[o].name@ + "::"@ + nat_text((k - 1) as nat);
                        let nd = done.push((label, pb.0.push(t)));
                        assert forall|j: int| 0 <= j < nd.len() implies code_keeps_zero(#[trigger] nd[j].1) by {
                            if j < done.len() {
                                assert(nd[j] == done[j]);
                            }
                        }
                    },
                    Err(_) => {},
                }
            },
            Err(_) => {},
        }
    }
}

/// No block of a compiled module writes the zero register, provided every
/// call passes at most as many arguments as there are general-purpose
/// registers.
pub proof fn lemma_compiled_keeps_zero(m: Module)
    requires
        forall|i: int| 0 <= i < m.functions@.len() ==> calls_fit(#[trigger] m.functions@[i]),
    ensures
        compile_spec(m) matches Ok(bs) ==> forall|j: int| 0 <= j < bs.len() ==> code_keeps_zero(#[trigger] bs[j].1),
{
    if m.functions@.len() <= 128 {
        let n = m.functions@.len();
        lemma_pending_keeps_zero(m, n);
        match pending_prefix(m, n) {
            Ok(p) => {
                lemma_resolved_keeps_zero(m, p, p.len());
                match resolve_prefix(m, p, p.len()) {
                    Ok(rest) => {
                        let bs = seq![init_block(start_target(m))] + rest;
                        assert(code_keeps_zero(init_block(start_target(m)).1));
                        assert forall|j: int| 0 <= j < bs.len() implies code_keeps_zero(#[trigger] bs[j].1) by {
                            if j > 0 {
                                assert(bs[j] == rest[j - 1]);
                            }
                        }
                    },
                    Err(_) => {},
                }
            },
            Err(_) => {},
        }
    }
}

} // verus!
