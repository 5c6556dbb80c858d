//! What the code of a parallel move does: every destination ends up with
//! the value its source held before the first instruction ran, whatever
//! the moves share, because every source is staged in scratch memory
//! before any destination is written.

use vstd::prelude::*;
use crate::lower::{Loc, fits, pmove_spec, stage_in, stage_out};
use crate::machine::{MachData, lemma_run_moves_append, run_moves};
use crate::regalloc::{SCRATCH_1, ZERO_REG};

verus! {

/// The value held at `l`.
pub open spec fn loc_value(d: MachData, l: Loc) -> i64 {
    match l {
        Loc::Reg(r) => d.0[r as int],
        Loc::Spill(a) => d.1[a as int],
    }
}

/// A location a move may use: a register other than the zero register and
/// the scratch register, or a word-aligned memory address.
pub open spec fn movable(l: Loc) -> bool {
    match l {
        Loc::Reg(r) => r < 32 && r != ZERO_REG && r != SCRATCH_1,
        Loc::Spill(a) => a % 8 == 0,
    }
}

/// `l` is the memory word at address `a`.
pub open spec fn spill_at(l: Loc, a: int) -> bool {
    match l {
        Loc::Spill(x) => x as int == a,
        Loc::Reg(_) => false,
    }
}

/// `l` is a register, or a memory word outside `lo..hi`.
pub open spec fn outside(l: Loc, lo: int, hi: int) -> bool {
    match l {
        Loc::Spill(x) => x < lo || x >= hi,
        Loc::Reg(_) => true,
    }
}

/// Some move among `moves` writes `l`.
pub open spec fn written(moves: Seq<(Loc, Loc)>, l: Loc) -> bool {
    exists|i: int| 0 <= i < moves.len() && (#[trigger] moves[i]).1 == l
}

/// The staging slots of the first `k` moves hold their sources' values;
/// nothing else changed but the scratch register and those slots.
proof fn lemma_stage_in_effect(moves: Seq<(Loc, Loc)>, temp: int, k: nat, d: MachData)
    requires
        k <= moves.len(),
        stage_in(moves, temp, k) is Some,
        d.0.len() == 32,
        d.0[ZERO_REG as int] == 0,
        forall|i: int| 0 <= i < moves.len() ==> movable((#[trigger] moves[i]).0),
        forall|i: int| 0 <= i < moves.len() ==> outside((#[trigger] moves[i]).0, temp, temp + 8 * moves.len()),
    ensures ({
        let o = run_moves(stage_in(moves, temp, k)->0, d);
        &&& o.0.len() == 32
        &&& forall|r: int| 0 <= r < 32 && r != SCRATCH_1 ==> #[trigger] o.0[r] == d.0[r]
        &&& forall|i: int| 0 <= i < k ==> #[trigger] o.1[temp + 8 * i] == loc_value(d, moves[i].0)
        &&& forall|a: int| (a < temp || a >= temp + 8 * k) ==> #[trigger] o.1[a] == d.1[a]
    }),
    decreases k,
{
    if k > 0 {
        lemma_stage_in_effect(moves, temp, (k - 1) as nat, d);
        let c = stage_in(moves, temp, (k - 1) as nat)->0;
        let o1 = run_moves(c, d);
        let t = temp + 8 * (k - 1);
        let m = moves[k - 1];
        assert(movable(m.0));
        match m.0 {
            Loc::Reg(r) => {
                let ins = crate::lower::mi(crate::machine::Opcode::Store, ZERO_REG, r, 0, t);
                assert(fits(t));
                assert(c.push(ins).drop_last() =~= c);
                let o = run_moves(c.push(ins), d);
                assert(o == crate::machine::move_step(o1, ins));
                assert(o1.0[ZERO_REG as int] == 0);
                assert(o.1 == o1.1.insert(t, o1.0[r as int]));
                assert forall|a: int| (a < temp || a >= temp + 8 * k) implies #[trigger] o.1[a] == d.1[a] by {
                    assert(a != t);
                }
                assert forall|i: int| 0 <= i < k implies #[trigger] o.1[temp + 8 * i] == loc_value(d, moves[i].0) by {
                    if i < k - 1 {
                        assert(temp + 8 * i != t);
                    }
                }
            },
            Loc::Spill(a0) => {
                let l = crate::lower::mi(crate::machine::Opcode::Load, SCRATCH_1, ZERO_REG, 0, a0 as int);
                let s = crate::lower::mi(crate::machine::Opcode::Store, ZERO_REG, SCRATCH_1, 0, t);
                assert(fits(t) && fits(a0 as int));
                assert((c + seq![l, s]).drop_last() =~= c.push(l));
                assert(c.push(l).drop_last() =~= c);
                let o2 = run_moves(c.push(l), d);
                let o = run_moves(c + seq![l, s], d);
                assert(o2 == crate::machine::move_step(o1, l));
                assert(o == crate::machine::move_step(o2, s));
                assert(outside(moves[k - 1].0, temp, temp + 8 * moves.len()));
                assert(o1.1[a0 as int] == d.1[a0 as int]);
                assert(o2.0[SCRATCH_1 as int] == d.1[a0 as int]);
                assert(o.1 == o2.1.insert(t, d.1[a0 as int]));
                assert forall|a: int| (a < temp || a >= temp + 8 * k) implies #[trigger] o.1[a] == d.1[a] by {
                    assert(a != t);
                }
                assert forall|i: int| 0 <= i < k implies #[trigger] o.1[temp + 8 * i] == loc_value(d, moves[i].0) by {
                    if i < k - 1 {
                        assert(temp + 8 * i != t);
                    }
                }
            },
        }
    }
}

/// The destinations of the first `k` moves hold their staging slots'
/// values; nothing else changed but the scratch register and those
/// destinations.
proof fn lemma_stage_out_effect(moves: Seq<(Loc, Loc)>, temp: int, k: nat, d: MachData)
    requires
        k <= moves.len(),
        stage_out(moves, temp, k) is Some,
        d.0.len() == 32,
        d.0[ZERO_REG as int] == 0,
        forall|i: int| 0 <= i < moves.len() ==> movable((#[trigger] moves[i]).1),
        forall|i: int, j: int| 0 <= i < j < moves.len() ==> (#[trigger] moves[i]).1 != (#[trigger] moves[j]).1,
        forall|i: int| 0 <= i < moves.len() ==> outside((#[trigger] moves[i]).1, temp, temp + 8 * moves.len()),
    ensures ({
        let o = run_moves(stage_out(moves, temp, k)->0, d);
        &&& o.0.len() == 32
        &&& o.0[ZERO_REG as int] == 0
        &&& forall|i: int| 0 <= i < k ==> #[trigger] loc_value(o, moves[i].1) == d.1[temp + 8 * i]
        &&& forall|r: int| 0 <= r < 32 && r != SCRATCH_1 && (forall|i: int| 0 <= i < k ==> moves[i].1 != Loc::Reg(r as u8))
            ==> #[trigger] o.0[r] == d.0[r]
        &&& forall|a: int| (forall|i: int| 0 <= i < k ==> !spill_at(moves[i].1, a)) ==> #[trigger] o.1[a] == d.1[a]
    }),
    decreases k,
{
    if k > 0 {
        lemma_stage_out_effect(moves, temp, (k - 1) as nat, d);
        let c = stage_out(moves, temp, (k - 1) as nat)->0;
        let o1 = run_moves(c, d);
        let t = temp + 8 * (k - 1);
        let m = moves[k - 1];
        assert(movable(m.1));
        assert forall|i: int| 0 <= i < k - 1 implies moves[i].1 != m.1 by {}
        assert(o1.1[t] == d.1[t]) by {
            assert forall|i: int| 0 <= i < k - 1 implies !spill_at(moves[i].1, t) by {
                assert(outside(moves[i].1, temp, temp + 8 * moves.len()));
            }
        }
        match m.1 {
            Loc::Reg(r) => {
                let ins = crate::lower::mi(crate::machine::Opcode::Load, r, ZERO_REG, 0, t);
                assert(fits(t));
                assert(c.push(ins).drop_last() =~= c);
                let o = run_moves(c.push(ins), d);
                assert(o == crate::machine::move_step(o1, ins));
                assert(o.0 == o1.0.update(r as int, d.1[t]));
                assert(o.1 == o1.1);
                assert forall|i: int| 0 <= i < k implies #[trigger] loc_value(o, moves[i].1) == d.1[temp + 8 * i] by {
                    if i < k - 1 {
                        assert(loc_value(o1, moves[i].1) == d.1[temp + 8 * i]);
                        match moves[i].1 {
                            Loc::Reg(q) => { assert(q != r); },
                            Loc::Spill(_) => {},
                        }
                    }
                }
                assert forall|rr: int| 0 <= rr < 32 && rr != SCRATCH_1 && (forall|i: int| 0 <= i < k ==> moves[i].1 != Loc::Reg(rr as u8))
                    implies #[trigger] o.0[rr] == d.0[rr] by {
                    assert(moves[k - 1].1 != Loc::Reg(rr as u8));
                    assert(rr != r as int);
                }
            },
            Loc::Spill(a0) => {
                let l = crate::lower::mi(crate::machine::Opcode::Load, SCRATCH_1, ZERO_REG, 0, t);
                let s = crate::lower::mi(crate::machine::Opcode::Store, ZERO_REG, SCRATCH_1, 0, a0 as int);
                assert(fits(t) && fits(a0 as int));
                assert((c + seq![l, s]).drop_last() =~= c.push(l));
                assert(c.push(l).drop_last() =~= c);
                let o2 = run_moves(c.push(l), d);
                let o = run_moves(c + seq![l, s], d);
                assert(o2 == crate::machine::move_step(o1, l));
                assert(o == crate::machine::move_step(o2, s));
                assert(o.1 == o1.1.insert(a0 as int, d.1[t]));
                assert(o.0 == o1.0.update(SCRATCH_1 as int, d.1[t]));
                assert forall|i: int| 0 <= i < k implies #[trigger] loc_value(o, moves[i].1) == d.1[temp + 8 * i] by {
                    if i < k - 1 {
                        assert(loc_value(o1, moves[i].1) == d.1[temp + 8 * i]);
                        match moves[i].1 {
                            Loc::Spill(q) => { assert(q != a0); },
                            Loc::Reg(q) => { assert(movable(moves[i].1)); },
                        }
                    }
                }
                assert forall|a: int| (forall|i: int| 0 <= i < k ==> !spill_at(moves[i].1, a)) implies #[trigger] o.1[a] == d.1[a] by {
                    assert(!spill_at(moves[k - 1].1, a));
                }
            },
        }
    }
}

/// The code of a parallel move, run from any data in which the zero
/// register holds 0, leaves every destination holding the value its source
/// held at the start, even where one move's destination is another's
/// source; it changes nothing else but the scratch register and the staging
/// slots from `next` on. This asks that the moves use no zero or scratch
/// register, that memory locations and `next` be word-aligned and outside
/// the staging slots, and that no two moves share a destination.
pub proof fn lemma_parallel_move_effect(moves: Seq<(Loc, Loc)>, next: int, region_end: int, d: MachData)
    requires
        pmove_spec(moves, next, region_end) is Some,
        d.0.len() == 32,
        d.0[ZERO_REG as int] == 0,
        next % 8 == 0,
        forall|i: int| 0 <= i < moves.len() ==> movable((#[trigger] moves[i]).0) && movable(moves[i].1),
        forall|i: int, j: int| 0 <= i < j < moves.len() ==> (#[trigger] moves[i]).1 != (#[trigger] moves[j]).1,
        forall|i: int| 0 <= i < moves.len() ==> outside((#[trigger] moves[i]).0, next, next + 8 * moves.len())
            && outside(moves[i].1, next, next + 8 * moves.len()),
    ensures ({
        let (code, _) = pmove_spec(moves, next, region_end)->0;
        let o = run_moves(code, d);
        &&& o.0.len() == 32
        &&& forall|i: int| 0 <= i < moves.len() ==> #[trigger] loc_value(o, moves[i].1) == loc_value(d, moves[i].0)
        &&& forall|r: int| 0 <= r < 32 && r != SCRATCH_1 && !written(moves, Loc::Reg(r as u8)) ==> #[trigger] o.0[r] == d.0[r]
        &&& forall|a: int| (a < next || a >= next + 8 * moves.len())
            && (forall|i: int| 0 <= i < moves.len() ==> !spill_at(#[trigger] moves[i].1, a)) ==> #[trigger] o.1[a] == d.1[a]
    }),
{
    if moves.len() > 0 {
        let n = moves.len();
        let a = stage_in(moves, next, n)->0;
        let b = stage_out(moves, next, n)->0;
        let (code, _) = pmove_spec(moves, next, region_end)->0;
        assert(code == a + b);
        lemma_stage_in_effect(moves, next, n, d);
        let d1 = run_moves(a, d);
        lemma_stage_out_effect(moves, next, n, d1);
        lemma_run_moves_append(a, b, d);
        let o = run_moves(a + b, d);
        assert forall|i: int| 0 <= i < moves.len() implies #[trigger] loc_value(o, moves[i].1) == loc_value(d, moves[i].0) by {
            assert(d1.1[next + 8 * i] == loc_value(d, moves[i].0));
        }
        assert forall|r: int| 0 <= r < 32 && r != SCRATCH_1 && !written(moves, Loc::Reg(r as u8)) implies #[trigger] o.0[r] == d.0[r] by {
            assert forall|i: int| 0 <= i < n implies moves[i].1 != Loc::Reg(r as u8) by {
                if moves[i].1 == Loc::Reg(r as u8) {
                    assert(written(moves, Loc::Reg(r as u8)));
                }
            }
        }
        assert forall|x: int| (x < next || x >= next + 8 * moves.len())
            && (forall|i: int| 0 <= i < moves.len() ==> !spill_at(#[trigger] moves[i].1, x)) implies #[trigger] o.1[x] == d.1[x] by {
            assert(d1.1[x] == d.1[x]);
        }
    }
}

} // verus!
