//! Block-level liveness for register allocation: for each function, which
//! values are live going into and out of each block.
//!
//! Liveness is computed at block granularity (a value live anywhere in a
//! block counts as live for the whole block). This is conservative: it never
//! under-counts liveness, so it never hides a real interference, though it
//! can over-count within a block and cost registers.
//!
//! A phi's incoming values are not uses of the phi's own block: the operand
//! for predecessor `P` is read at the end of `P`, so it is live out of `P`.

use vstd::prelude::*;
use std::collections::{HashMap, HashSet};
use crate::block::{BasicBlock, Terminator, term_successors};
use crate::function::{Function, find_block, lemma_find_block};
use crate::inst::{InstKind, Instruction};
use crate::validate::duplicate_block;
use crate::value::{BlockId, ValueId};

verus! {

broadcast use vstd::std_specs::hash::group_hash_axioms;

/// The values an instruction reads (a phi's operands aside).
pub open spec fn inst_uses(k: InstKind) -> Seq<ValueId> {
    match k {
        InstKind::Bin(_, a, c) => seq![a, c],
        InstKind::Un(_, a) => seq![a],
        InstKind::Call { args, .. } => args@,
        _ => seq![],
    }
}

/// The value a terminator reads, if any.
pub open spec fn term_uses(t: Option<Terminator>) -> Seq<ValueId> {
    match t {
        Some(Terminator::Branch { cond, .. }) => seq![cond],
        Some(Terminator::Return(Some(v))) => seq![v],
        _ => seq![],
    }
}

/// One of the first `n` instructions defines value number `v`.
pub open spec fn defined_before(insts: Seq<Instruction>, n: int, v: u32) -> bool {
    exists|k: int| 0 <= k < n && (#[trigger] insts[k]).id.0 == v
}

/// Instruction `k` reads `v` before the block has defined it.
pub open spec fn exposed_at(insts: Seq<Instruction>, k: int, v: u32) -> bool {
    inst_uses(insts[k].kind).contains(ValueId(v)) && !defined_before(insts, k, v)
}

/// The values a block defines.
pub open spec fn block_defs(b: BasicBlock) -> Set<u32> {
    Set::new(|v: u32| defined_before(b.instructions@, b.instructions@.len() as int, v))
}

/// The values a block reads before defining them itself (its upward-exposed
/// uses), its phis' operands excepted.
pub open spec fn block_uses(b: BasicBlock) -> Set<u32> {
    Set::new(|v: u32|
        (exists|k: int| 0 <= k < b.instructions@.len() && #[trigger] exposed_at(b.instructions@, k, v))
        || (term_uses(b.terminator).contains(ValueId(v)) && !defined_before(b.instructions@, b.instructions@.len() as int, v)))
}

/// The value the first entry of `inc` for predecessor `from` carries.
pub open spec fn first_incoming(inc: Seq<(BlockId, ValueId)>, from: BlockId) -> Option<ValueId>
    decreases inc.len(),
{
    if inc.len() == 0 {
        None
    } else if inc[0].0 == from {
        Some(inc[0].1)
    } else {
        first_incoming(inc.drop_first(), from)
    }
}

/// In order, the values the phis among `insts` receive along the edge from
/// `from` (a phi with no entry for `from` contributes nothing).
pub open spec fn phi_values(insts: Seq<Instruction>, from: BlockId) -> Seq<u32>
    decreases insts.len(),
{
    if insts.len() == 0 {
        seq![]
    } else {
        let rest = phi_values(insts.drop_last(), from);
        match insts.last().kind {
            InstKind::Phi(inc) => match first_incoming(inc@, from) {
                Some(v) => rest.push(v.0),
                None => rest,
            },
            _ => rest,
        }
    }
}

/// The index of the block with id `t`.
pub open spec fn block_index(f: Function, t: BlockId) -> int {
    find_block(f.blocks@, t)->0
}

/// What is live along the edge from block `from` into block `t`: `t`'s
/// live-in values and the operands `t`'s phis take from `from`.
pub open spec fn edge_live(f: Function, ins: Seq<Set<u32>>, from: BlockId, t: BlockId) -> Set<u32> {
    let s = block_index(f, t);
    ins[s].union(phi_values(f.blocks@[s].instructions@, from).to_set())
}

/// The live-out set the equations give block `i` from the live-in sets.
pub open spec fn flow_out(f: Function, ins: Seq<Set<u32>>, i: int) -> Set<u32> {
    let b = f.blocks@[i];
    match b.terminator {
        Some(Terminator::Jump(t)) => edge_live(f, ins, b.id, t),
        Some(Terminator::Branch { then_block, else_block, .. }) => edge_live(f, ins, b.id, then_block).union(
            edge_live(f, ins, b.id, else_block)),
        _ => Set::empty(),
    }
}

/// The live-in set the equations give block `i` from its live-out set.
pub open spec fn flow_in(f: Function, outs: Seq<Set<u32>>, i: int) -> Set<u32> {
    block_uses(f.blocks@[i]).union(outs[i].difference(block_defs(f.blocks@[i])))
}

/// `ins` and `outs` (by block index) solve the liveness equations.
pub open spec fn is_flow_solution(f: Function, ins: Seq<Set<u32>>, outs: Seq<Set<u32>>) -> bool {
    &&& ins.len() == f.blocks@.len()
    &&& outs.len() == f.blocks@.len()
    &&& forall|i: int| 0 <= i < f.blocks@.len() ==> #[trigger] outs[i] == flow_out(f, ins, i)
    &&& forall|i: int| 0 <= i < f.blocks@.len() ==> #[trigger] ins[i] == flow_in(f, outs, i)
}

/// Pointwise inclusion of one pair of set sequences in another.
pub open spec fn below(ins: Seq<Set<u32>>, outs: Seq<Set<u32>>, ins2: Seq<Set<u32>>, outs2: Seq<Set<u32>>) -> bool {
    &&& forall|i: int| 0 <= i < ins.len() ==> (#[trigger] ins[i]).subset_of(ins2[i])
    &&& forall|i: int| 0 <= i < outs.len() ==> (#[trigger] outs[i]).subset_of(outs2[i])
}

/// What liveness needs of a function: distinct block ids, and every jump
/// or branch target a block of the function.
pub open spec fn flow_ready(f: Function) -> bool {
    &&& duplicate_block(f.blocks@, 0) is None
    &&& f.blocks@.len() <= u32::MAX
    &&& forall|i: int, k: int|
        0 <= i < f.blocks@.len() && (#[trigger] f.blocks@[i]).terminator is Some && 0 <= k < term_successors(
            f.blocks@[i].terminator->0).len() ==> find_block(f.blocks@, #[trigger] term_successors(f.blocks@[i].terminator->0)[k])
            is Some
}

fn operand_list(kind: &InstKind) -> (r: Vec<u32>)
    ensures
        r@ == inst_uses(*kind).map_values(|v: ValueId| v.0),
{
    let mut r: Vec<u32> = Vec::new();
    match kind {
        InstKind::Bin(_, a, c) => {
            r.push(a.0);
            r.push(c.0);
            assert(r@ =~= inst_uses(*kind).map_values(|v: ValueId| v.0));
        },
        InstKind::Un(_, a) => {
            r.push(a.0);
            assert(r@ =~= inst_uses(*kind).map_values(|v: ValueId| v.0));
        },
        InstKind::Call { args, .. } => {
            let mut i: usize = 0;
            while i < args.len()
                invariant
                    i <= args@.len(),
                    r@ =~= args@.take(i as int).map_values(|v: ValueId| v.0),
                decreases args.len() - i,
            {
                r.push(args[i].0);
                i += 1;
                assert(r@ =~= args@.take(i as int).map_values(|v: ValueId| v.0));
            }
            assert(args@.take(i as int) =~= args@);
        },
        _ => {
            assert(r@ =~= inst_uses(*kind).map_values(|v: ValueId| v.0));
        },
    }
    r
}

fn term_operand_list(t: &Option<Terminator>) -> (r: Vec<u32>)
    ensures
        r@ == term_uses(*t).map_values(|v: ValueId| v.0),
{
    let mut r: Vec<u32> = Vec::new();
    match t {
        Some(Terminator::Branch { cond, .. }) => r.push(cond.0),
        Some(Terminator::Return(Some(v))) => r.push(v.0),
        _ => {},
    }
    assert(r@ =~= term_uses(*t).map_values(|v: ValueId| v.0));
    r
}

/// Adds `v` to `used` unless `defined` holds it.
fn note_use(used: &mut HashSet<u32>, defined: &HashSet<u32>, v: u32)
    ensures
        final(used)@ == if defined@.contains(v) { old(used)@ } else { old(used)@.insert(v) },
{
    if !defined.contains(&v) {
        used.insert(v);
    }
}

/// The values read so far: the exposed reads of the first `k` instructions,
/// and the first `j` operands of instruction `k` where not yet defined.
spec fn exposed_prefix(insts: Seq<Instruction>, k: int, ops: Seq<u32>, j: int) -> Set<u32> {
    Set::new(|v: u32|
        (exists|k2: int| 0 <= k2 < k && #[trigger] exposed_at(insts, k2, v))
        || (exists|j2: int| 0 <= j2 < j && ops[j2] == v && !defined_before(insts, k, v)))
}

/// The values block `b` reads before defining them, and the values it
/// defines.
fn used_and_defined(b: &BasicBlock) -> (r: (HashSet<u32>, HashSet<u32>))
    ensures
        r.0@ == block_uses(*b),
        r.1@ == block_defs(*b),
{
    let ghost insts = b.instructions@;
    let mut used: HashSet<u32> = HashSet::new();
    let mut defined: HashSet<u32> = HashSet::new();
    let mut k: usize = 0;
    assert(used@ =~= exposed_prefix(insts, 0, seq![], 0));
    while k < b.instructions.len()
        invariant
            insts == b.instructions@,
            k <= insts.len(),
            used@ == exposed_prefix(insts, k as int, seq![], 0),
            defined@ == Set::new(|v: u32| defined_before(insts, k as int, v)),
        decreases b.instructions.len() - k,
    {
        let ops = operand_list(&b.instructions[k].kind);
        let ghost ops_s = ops@;
        assert(used@ =~= exposed_prefix(insts, k as int, ops_s, 0));
        let mut j: usize = 0;
        while j < ops.len()
            invariant
                insts == b.instructions@,
                k < insts.len(),
                j <= ops@.len(),
                ops@ == ops_s,
                ops_s == inst_uses(insts[k as int].kind).map_values(|v: ValueId| v.0),
                used@ == exposed_prefix(insts, k as int, ops_s, j as int),
                defined@ == Set::new(|v: u32| defined_before(insts, k as int, v)),
            decreases ops.len() - j,
        {
            note_use(&mut used, &defined, ops[j]);
            j += 1;
            assert(used@ =~= exposed_prefix(insts, k as int, ops_s, j as int));
        }
        let id = b.instructions[k].id.0;
        defined.insert(id);
        proof {
            assert forall|v: u32| #[trigger] exposed_prefix(insts, k as int, ops_s, ops_s.len() as int).contains(v)
                == exposed_prefix(insts, k + 1, seq![], 0).contains(v) by {
                if exposed_at(insts, k as int, v) {
                    let j2 = choose|j2: int| 0 <= j2 < inst_uses(insts[k as int].kind).len()
                        && inst_uses(insts[k as int].kind)[j2] == ValueId(v);
                    assert(ops_s[j2] == v);
                }
                if exists|j2: int| 0 <= j2 < ops_s.len() && ops_s[j2] == v && !defined_before(insts, k as int, v) {
                    let j2 = choose|j2: int| 0 <= j2 < ops_s.len() && ops_s[j2] == v && !defined_before(insts, k as int, v);
                    assert(inst_uses(insts[k as int].kind)[j2] == ValueId(v));
                    assert(exposed_at(insts, k as int, v));
                }
            }
            assert(used@ =~= exposed_prefix(insts, k + 1, seq![], 0));
            assert forall|v: u32| #[trigger] defined@.contains(v) == defined_before(insts, k + 1, v) by {
                if v == id {
                    assert(insts[k as int].id.0 == v);
                }
                if defined_before(insts, k + 1, v) && v != id {
                    let k2 = choose|k2: int| 0 <= k2 < k + 1 && (#[trigger] insts[k2]).id.0 == v;
                    assert(k2 < k);
                }
            }
            assert(defined@ =~= Set::new(|v: u32| defined_before(insts, k + 1, v)));
        }
        k += 1;
    }
    let tops = term_operand_list(&b.terminator);
    let ghost before = used@;
    let mut j: usize = 0;
    while j < tops.len()
        invariant
            insts == b.instructions@,
            k == insts.len(),
            j <= tops@.len(),
            tops@ == term_uses(b.terminator).map_values(|v: ValueId| v.0),
            used@ == before.union(Set::new(|v: u32| exists|j2: int| 0 <= j2 < j && tops@[j2] == v
                && !defined_before(insts, k as int, v))),
            defined@ == Set::new(|v: u32| defined_before(insts, k as int, v)),
        decreases tops.len() - j,
    {
        note_use(&mut used, &defined, tops[j]);
        j += 1;
        assert(used@ =~= before.union(Set::new(|v: u32| exists|j2: int| 0 <= j2 < j && tops@[j2] == v
            && !defined_before(insts, k as int, v))));
    }
    proof {
        assert forall|v: u32| #[trigger] used@.contains(v) == block_uses(*b).contains(v) by {
            if term_uses(b.terminator).contains(ValueId(v)) {
                let j2 = choose|j2: int| 0 <= j2 < term_uses(b.terminator).len() && term_uses(b.terminator)[j2] == ValueId(v);
                assert(tops@[j2] == v);
            }
            if exists|j2: int| 0 <= j2 < tops@.len() && tops@[j2] == v && !defined_before(insts, k as int, v) {
                let j2 = choose|j2: int| 0 <= j2 < tops@.len() && tops@[j2] == v && !defined_before(insts, k as int, v);
                assert(term_uses(b.terminator)[j2] == ValueId(v));
            }
        }
        assert(used@ =~= block_uses(*b));
        assert(defined@ =~= block_defs(*b));
    }
    (used, defined)
}


/// The values block `block` of `func` reads before defining them, and the
/// values it defines.
fn used_and_defined_in_block(func: &Function, block: BlockId) -> (r: (HashSet<u32>, HashSet<u32>))
    requires
        find_block(func.blocks@, block) is Some,
    ensures
        r.0@ == block_uses(func.blocks@[block_index(*func, block)]),
        r.1@ == block_defs(func.blocks@[block_index(*func, block)]),
{
    proof { lemma_find_block(func.blocks@, block); }
    let b = func.block(block).unwrap();
    used_and_defined(b)
}

pub(crate) fn first_incoming_value(inc: &Vec<(BlockId, ValueId)>, from: BlockId) -> (r: Option<ValueId>)
    ensures
        r == first_incoming(inc@, from),
{
    let mut i: usize = 0;
    assert(inc@.subrange(0, inc@.len() as int) =~= inc@);
    while i < inc.len()
        invariant
            i <= inc@.len(),
            first_incoming(inc@.subrange(i as int, inc@.len() as int), from) == first_incoming(inc@, from),
        decreases inc.len() - i,
    {
        assert(inc@.subrange(i as int, inc@.len() as int).drop_first() =~= inc@.subrange(i + 1, inc@.len() as int));
        if inc[i].0 == from {
            return Some(inc[i].1);
        }
        i += 1;
    }
    None
}

/// The values the phis of `block` receive from predecessor `from`, in order
/// (none if `func` has no such block).
fn phi_operands_from(func: &Function, block: BlockId, from: BlockId) -> (r: Vec<u32>)
    ensures
        r@ == match find_block(func.blocks@, block) {
            Some(i) => phi_values(func.blocks@[i].instructions@, from),
            None => Seq::<u32>::empty(),
        },
{
    proof { lemma_find_block(func.blocks@, block); }
    let mut r: Vec<u32> = Vec::new();
    match func.block(block) {
        None => r,
        Some(b) => {
            let ghost insts = b.instructions@;
            let mut k: usize = 0;
            assert(insts.take(0) =~= Seq::<Instruction>::empty());
            while k < b.instructions.len()
                invariant
                    insts == b.instructions@,
                    k <= insts.len(),
                    r@ == phi_values(insts.take(k as int), from),
                decreases b.instructions.len() - k,
            {
                assert(insts.take(k + 1).drop_last() =~= insts.take(k as int));
                assert(insts.take(k + 1).last() == insts[k as int]);
                match &b.instructions[k].kind {
                    InstKind::Phi(incoming) => {
                        match first_incoming_value(incoming, from) {
                            Some(v) => r.push(v.0),
                            None => {},
                        }
                    },
                    _ => {},
                }
                k += 1;
            }
            assert(insts.take(k as int) =~= insts);
            r
        },
    }
}


// ---- The equations over flag rows ----
//
// Values are numbered by their position in a universe list; a set of values
// is then a row of flags, one per universe position. Row `i` of `used`,
// `def`, `ins` and `outs` belongs to block `i`; `succ[i]` lists the indices
// of block `i`'s successors, and `ph[i][k]` flags the phi operands the
// `k`-th of them takes from block `i`.

pub open spec fn rows(v: Seq<Vec<bool>>) -> Seq<Seq<bool>> {
    Seq::new(v.len(), |i: int| v[i]@)
}

pub open spec fn rows3(v: Seq<Vec<Vec<bool>>>) -> Seq<Seq<Seq<bool>>> {
    Seq::new(v.len(), |i: int| rows(v[i]@))
}

pub open spec fn idx_rows(v: Seq<Vec<usize>>) -> Seq<Seq<usize>> {
    Seq::new(v.len(), |i: int| v[i]@)
}

/// Some edge among the first `upto` out of a block carries value `j`: it is
/// live into that successor, or a phi there takes it along the edge.
pub open spec fn any_edge(ins: Seq<Seq<bool>>, succ_i: Seq<usize>, ph_i: Seq<Seq<bool>>, upto: int, j: int) -> bool {
    exists|k: int| #![trigger ins[succ_i[k] as int][j]] #![trigger ph_i[k][j]]
        0 <= k < upto && (ins[succ_i[k] as int][j] || ph_i[k][j])
}

/// Flag `j` of the live-out row of block `i`, computed from the live-in rows.
pub open spec fn fout(ins: Seq<Seq<bool>>, succ: Seq<Seq<usize>>, ph: Seq<Seq<Seq<bool>>>, i: int, j: int) -> bool {
    any_edge(ins, succ[i], ph[i], succ[i].len() as int, j)
}

/// Flag `j` of the live-in row of block `i`, computed from its live-out row.
pub open spec fn fin(outs: Seq<Seq<bool>>, used: Seq<Seq<bool>>, def: Seq<Seq<bool>>, i: int, j: int) -> bool {
    used[i][j] || (outs[i][j] && !def[i][j])
}

/// `n` rows of `m` flags each.
pub open spec fn shaped(r: Seq<Seq<bool>>, n: int, m: int) -> bool {
    r.len() == n && forall|i: int| 0 <= i < n ==> (#[trigger] r[i]).len() == m
}

pub open spec fn flags_ok(used: Seq<Seq<bool>>, def: Seq<Seq<bool>>, succ: Seq<Seq<usize>>, ph: Seq<Seq<Seq<bool>>>, n: int, m: int) -> bool {
    &&& shaped(used, n, m)
    &&& shaped(def, n, m)
    &&& succ.len() == n
    &&& ph.len() == n
    &&& forall|i: int, k: int| 0 <= i < n && 0 <= k < succ[i].len() ==> (#[trigger] succ[i][k]) < n
    &&& forall|i: int| 0 <= i < n ==> (#[trigger] ph[i]).len() == succ[i].len()
    &&& forall|i: int, k: int| 0 <= i < n && 0 <= k < succ[i].len() ==> (#[trigger] ph[i][k]).len() == m
}

/// Rows `ins`/`outs` are closed under the equations: whatever the equations
/// derive from them, they already hold.
pub open spec fn closed(ins: Seq<Seq<bool>>, outs: Seq<Seq<bool>>, used: Seq<Seq<bool>>, def: Seq<Seq<bool>>,
    succ: Seq<Seq<usize>>, ph: Seq<Seq<Seq<bool>>>, n: int, m: int) -> bool {
    &&& forall|i: int, j: int| 0 <= i < n && 0 <= j < m && #[trigger] fout(ins, succ, ph, i, j) ==> outs[i][j]
    &&& forall|i: int, j: int| 0 <= i < n && 0 <= j < m && #[trigger] fin(outs, used, def, i, j) ==> ins[i][j]
}

pub open spec fn rows_below(a: Seq<Seq<bool>>, b: Seq<Seq<bool>>, n: int, m: int) -> bool {
    forall|i: int, j: int| 0 <= i < n && 0 <= j < m && #[trigger] a[i][j] ==> b[i][j]
}

/// Every flag set is one the equations derive from the current rows.
pub open spec fn derivable(ins: Seq<Seq<bool>>, outs: Seq<Seq<bool>>, used: Seq<Seq<bool>>, def: Seq<Seq<bool>>,
    succ: Seq<Seq<usize>>, ph: Seq<Seq<Seq<bool>>>, n: int, m: int) -> bool {
    &&& forall|i: int, j: int| 0 <= i < n && 0 <= j < m && #[trigger] outs[i][j] ==> fout(ins, succ, ph, i, j)
    &&& forall|i: int, j: int| 0 <= i < n && 0 <= j < m && #[trigger] ins[i][j] ==> fin(outs, used, def, i, j)
}

/// The rows lie below every closed assignment.
pub open spec fn least(ins: Seq<Seq<bool>>, outs: Seq<Seq<bool>>, used: Seq<Seq<bool>>, def: Seq<Seq<bool>>,
    succ: Seq<Seq<usize>>, ph: Seq<Seq<Seq<bool>>>, n: int, m: int) -> bool {
    forall|a2: Seq<Seq<bool>>, b2: Seq<Seq<bool>>| #[trigger] closed(a2, b2, used, def, succ, ph, n, m)
        ==> rows_below(ins, a2, n, m) && rows_below(outs, b2, n, m)
}

pub open spec fn count(r: Seq<bool>) -> nat
    decreases r.len(),
{
    if r.len() == 0 {
        0
    } else {
        count(r.drop_last()) + if r.last() { 1nat } else { 0nat }
    }
}

proof fn lemma_count_grow(a: Seq<bool>, b: Seq<bool>)
    requires
        a.len() == b.len(),
        forall|j: int| 0 <= j < a.len() && #[trigger] a[j] ==> b[j],
    ensures
        count(a) <= count(b) <= b.len(),
        a != b ==> count(a) < count(b),
    decreases a.len(),
{
    if a.len() > 0 {
        let n = a.len() - 1;
        assert forall|j: int| 0 <= j < n && #[trigger] a.drop_last()[j] implies b.drop_last()[j] by {
            assert(a[j]);
        }
        lemma_count_grow(a.drop_last(), b.drop_last());
        assert(a[n] ==> b[n]);
        if a != b {
            if a.drop_last() == b.drop_last() {
                if a.last() == b.last() {
                    assert forall|i: int| 0 <= i < a.len() implies a[i] == b[i] by {
                        if i < n {
                            assert(a[i] == a.drop_last()[i]);
                            assert(b[i] == b.drop_last()[i]);
                        }
                    }
                    assert(a =~= b);
                }
                assert(!a.last() && b.last());
            }
        }
    } else {
        assert(a =~= b);
    }
}

pub open spec fn total(r: Seq<Seq<bool>>) -> nat
    decreases r.len(),
{
    if r.len() == 0 {
        0
    } else {
        total(r.drop_last()) + count(r.last())
    }
}

proof fn lemma_total_update(r: Seq<Seq<bool>>, i: int, row: Seq<bool>)
    requires
        0 <= i < r.len(),
    ensures
        total(r.update(i, row)) + count(r[i]) == total(r) + count(row),
    decreases r.len(),
{
    if i < r.len() - 1 {
        assert(r.update(i, row).drop_last() =~= r.drop_last().update(i, row));
        lemma_total_update(r.drop_last(), i, row);
    } else {
        assert(r.update(i, row).drop_last() =~= r.drop_last());
    }
}

proof fn lemma_total_bound(r: Seq<Seq<bool>>, m: int)
    requires
        0 <= m,
        forall|i: int| 0 <= i < r.len() ==> (#[trigger] r[i]).len() == m,
    ensures
        total(r) <= r.len() * m,
    decreases r.len(),
{
    if r.len() > 0 {
        let n = r.len() - 1;
        assert forall|i: int| 0 <= i < n implies (#[trigger] r.drop_last()[i]).len() == m by {
            assert(r[i].len() == m);
        }
        lemma_total_bound(r.drop_last(), m);
        assert(r[n].len() == m);
        lemma_count_grow(r.last(), r.last());
        let t = total(r.drop_last());
        let c = count(r.last());
        assert(t + c <= r.len() * m) by (nonlinear_arith)
            requires
                t <= n * m,
                c <= m,
                n == r.len() - 1;
    }
}

fn false_row(m: usize) -> (r: Vec<bool>)
    ensures
        r@.len() == m,
        forall|j: int| 0 <= j < m ==> !(#[trigger] r@[j]),
{
    let mut r: Vec<bool> = Vec::new();
    while r.len() < m
        invariant
            r@.len() <= m,
            forall|j: int| 0 <= j < r@.len() ==> !(#[trigger] r@[j]),
        decreases m - r.len(),
    {
        r.push(false);
    }
    r
}

fn rows_equal(a: &Vec<bool>, b: &Vec<bool>) -> (r: bool)
    requires
        a@.len() == b@.len(),
    ensures
        r == (a@ == b@),
{
    let mut j: usize = 0;
    while j < a.len()
        invariant
            j <= a@.len(),
            a@.len() == b@.len(),
            forall|k: int| 0 <= k < j ==> a@[k] == b@[k],
        decreases a.len() - j,
    {
        if a[j] != b[j] {
            return false;
        }
        j += 1;
    }
    assert(a@ =~= b@);
    true
}

/// Sets in `r` every flag set in `a` or in `b`.
fn or_into(r: &mut Vec<bool>, a: &Vec<bool>, b: &Vec<bool>)
    requires
        old(r)@.len() == a@.len(),
        a@.len() == b@.len(),
    ensures
        final(r)@.len() == a@.len(),
        forall|j: int| 0 <= j < a@.len() ==> #[trigger] final(r)@[j] == (old(r)@[j] || a@[j] || b@[j]),
{
    let mut j: usize = 0;
    while j < a.len()
        invariant
            j <= a@.len(),
            r@.len() == a@.len(),
            a@.len() == b@.len(),
            forall|jj: int| 0 <= jj < j ==> #[trigger] r@[jj] == (old(r)@[jj] || a@[jj] || b@[jj]),
            forall|jj: int| j <= jj < a@.len() ==> #[trigger] r@[jj] == old(r)@[jj],
        decreases a.len() - j,
    {
        let v = r[j] || a[j] || b[j];
        r.set(j, v);
        j += 1;
    }
}

/// The live-out row of a block from the current live-in rows.
fn out_row(ins: &Vec<Vec<bool>>, succ_i: &Vec<usize>, ph_i: &Vec<Vec<bool>>, m: usize) -> (r: Vec<bool>)
    requires
        forall|k: int| 0 <= k < succ_i@.len() ==> (#[trigger] succ_i@[k]) < ins@.len(),
        shaped(rows(ins@), ins@.len() as int, m as int),
        ph_i@.len() == succ_i@.len(),
        shaped(rows(ph_i@), ph_i@.len() as int, m as int),
    ensures
        r@.len() == m,
        forall|j: int| 0 <= j < m ==> #[trigger] r@[j] == any_edge(rows(ins@), succ_i@, rows(ph_i@), succ_i@.len() as int, j),
{
    let ghost ir = rows(ins@);
    let ghost pr = rows(ph_i@);
    let mut r = false_row(m);
    let mut k: usize = 0;
    while k < succ_i.len()
        invariant
            k <= succ_i@.len(),
            r@.len() == m,
            ir == rows(ins@),
            pr == rows(ph_i@),
            forall|kk: int| 0 <= kk < succ_i@.len() ==> (#[trigger] succ_i@[kk]) < ins@.len(),
            shaped(ir, ins@.len() as int, m as int),
            ph_i@.len() == succ_i@.len(),
            shaped(pr, ph_i@.len() as int, m as int),
            forall|j: int| 0 <= j < m ==> #[trigger] r@[j] == any_edge(ir, succ_i@, pr, k as int, j),
        decreases succ_i.len() - k,
    {
        let s = succ_i[k];
        assert(ir[s as int] == ins@[s as int]@);
        assert(pr[k as int] == ph_i@[k as int]@);
        or_into(&mut r, &ins[s], &ph_i[k]);
        proof {
            assert forall|j: int| 0 <= j < m implies #[trigger] r@[j] == any_edge(ir, succ_i@, pr, k + 1, j) by {
                if any_edge(ir, succ_i@, pr, k + 1, j) && !(ir[s as int][j] || pr[k as int][j]) {
                    let kk = choose|kk: int| #![trigger ir[succ_i@[kk] as int][j]] #![trigger pr[kk][j]] 0 <= kk < k + 1 && (ir[succ_i@[kk] as int][j] || pr[kk][j]);
                    assert(kk != k);
                    assert(any_edge(ir, succ_i@, pr, k as int, j));
                }
                if any_edge(ir, succ_i@, pr, k as int, j) {
                    let kk = choose|kk: int| #![trigger ir[succ_i@[kk] as int][j]] #![trigger pr[kk][j]] 0 <= kk < k && (ir[succ_i@[kk] as int][j] || pr[kk][j]);
                    assert(0 <= kk < k + 1);
                }
                if ir[s as int][j] || pr[k as int][j] {
                    assert(ir[succ_i@[k as int] as int][j] || pr[k as int][j]);
                }
            }
        }
        k += 1;
    }
    r
}

/// The live-in row of a block from its live-out row.
fn in_row(used_i: &Vec<bool>, def_i: &Vec<bool>, out_i: &Vec<bool>, m: usize) -> (r: Vec<bool>)
    requires
        used_i@.len() == m,
        def_i@.len() == m,
        out_i@.len() == m,
    ensures
        r@.len() == m,
        forall|j: int| 0 <= j < m ==> #[trigger] r@[j] == (used_i@[j] || (out_i@[j] && !def_i@[j])),
{
    let mut r: Vec<bool> = Vec::new();
    let mut j: usize = 0;
    while j < m
        invariant
            j <= m,
            used_i@.len() == m,
            def_i@.len() == m,
            out_i@.len() == m,
            r@.len() == j,
            forall|jj: int| 0 <= jj < j ==> #[trigger] r@[jj] == (used_i@[jj] || (out_i@[jj] && !def_i@[jj])),
        decreases m - j,
    {
        r.push(used_i[j] || (out_i[j] && !def_i[j]));
        j += 1;
    }
    r
}

proof fn lemma_fout_mono(a: Seq<Seq<bool>>, b: Seq<Seq<bool>>, succ: Seq<Seq<usize>>, ph: Seq<Seq<Seq<bool>>>, n: int, m: int, i: int, j: int)
    requires
        rows_below(a, b, n, m),
        0 <= i < n,
        0 <= j < m,
        forall|k: int| 0 <= k < succ[i].len() ==> (#[trigger] succ[i][k]) < n,
        fout(a, succ, ph, i, j),
    ensures
        fout(b, succ, ph, i, j),
{
    let k = choose|k: int| #![trigger a[succ[i][k] as int][j]] #![trigger ph[i][k][j]] 0 <= k < succ[i].len() && (a[succ[i][k] as int][j] || ph[i][k][j]);
    assert(succ[i][k] < n);
    if a[succ[i][k] as int][j] {
        assert(b[succ[i][k] as int][j]);
    }
}

/// Recomputes block `i`'s live-out row and then its live-in row, reporting
/// whether either changed.
fn update_block(ins: &mut Vec<Vec<bool>>, outs: &mut Vec<Vec<bool>>, used: &Vec<Vec<bool>>, def: &Vec<Vec<bool>>,
    succ: &Vec<Vec<usize>>, ph: &Vec<Vec<Vec<bool>>>, m: usize, i: usize) -> (changed: bool)
    requires
        flags_ok(rows(used@), rows(def@), idx_rows(succ@), rows3(ph@), used@.len() as int, m as int),
        i < used@.len(),
        shaped(rows(old(ins)@), used@.len() as int, m as int),
        shaped(rows(old(outs)@), used@.len() as int, m as int),
        derivable(rows(old(ins)@), rows(old(outs)@), rows(used@), rows(def@), idx_rows(succ@), rows3(ph@), used@.len() as int, m as int),
        least(rows(old(ins)@), rows(old(outs)@), rows(used@), rows(def@), idx_rows(succ@), rows3(ph@), used@.len() as int, m as int),
    ensures
        shaped(rows(final(ins)@), used@.len() as int, m as int),
        shaped(rows(final(outs)@), used@.len() as int, m as int),
        derivable(rows(final(ins)@), rows(final(outs)@), rows(used@), rows(def@), idx_rows(succ@), rows3(ph@), used@.len() as int, m as int),
        least(rows(final(ins)@), rows(final(outs)@), rows(used@), rows(def@), idx_rows(succ@), rows3(ph@), used@.len() as int, m as int),
        total(rows(final(ins)@)) + total(rows(final(outs)@)) >= total(rows(old(ins)@)) + total(rows(old(outs)@))
            + if changed { 1int } else { 0int },
        !changed ==> rows(final(ins)@) == rows(old(ins)@) && rows(final(outs)@) == rows(old(outs)@),
        !changed ==> forall|j: int| 0 <= j < m ==> #[trigger] rows(final(outs)@)[i as int][j]
            == fout(rows(final(ins)@), idx_rows(succ@), rows3(ph@), i as int, j),
        !changed ==> forall|j: int| 0 <= j < m ==> #[trigger] rows(final(ins)@)[i as int][j]
            == fin(rows(final(outs)@), rows(used@), rows(def@), i as int, j),
{
    let ghost nn = used@.len() as int;
    let ghost mm = m as int;
    let ghost us = rows(used@);
    let ghost ds = rows(def@);
    let ghost ss = idx_rows(succ@);
    let ghost ps = rows3(ph@);
    let ghost ins0 = rows(ins@);
    let ghost outs0 = rows(outs@);
    let ghost ii = i as int;
    proof {
        assert(ss[ii] == succ@[ii]@);
        assert(ps[ii] == rows(ph@[ii]@));
        assert forall|k: int| 0 <= k < succ@[ii]@.len() implies (#[trigger] succ@[ii]@[k]) < ins@.len() by {
            assert(ss[ii][k] == succ@[ii]@[k]);
        }
        assert(shaped(rows(ph@[ii]@), ph@[ii]@.len() as int, mm)) by {
            assert forall|k: int| 0 <= k < ph@[ii]@.len() implies (#[trigger] rows(ph@[ii]@)[k]).len() == mm by {
                assert(ps[ii][k].len() == mm);
            }
        }
    }
    let changed_out;
    let new_out = out_row(ins, &succ[i], &ph[i], m);
    proof {
        assert forall|j: int| 0 <= j < mm implies #[trigger] new_out@[j] == fout(ins0, ss, ps, ii, j) by {}
        assert(outs0[ii].len() == mm);
        assert forall|j: int| 0 <= j < mm && #[trigger] outs0[ii][j] implies new_out@[j] by {}
        lemma_count_grow(outs0[ii], new_out@);
    }
    if !rows_equal(&new_out, &outs[i]) {
        outs.set(i, new_out);
        changed_out = true;
        proof {
            assert(rows(outs@) =~= outs0.update(ii, new_out@));
            lemma_total_update(outs0, ii, new_out@);
        }
    } else {
        changed_out = false;
        proof { assert(rows(outs@) =~= outs0); }
    }
    let ghost outs1 = rows(outs@);
    proof {
        assert forall|i2: int, j: int| 0 <= i2 < nn && 0 <= j < mm && #[trigger] outs0[i2][j] implies outs1[i2][j] by {
            if i2 == ii {
                assert(fout(ins0, ss, ps, i2, j));
            }
        }
    }
    proof {
        assert(us[ii] == used@[ii]@);
        assert(ds[ii] == def@[ii]@);
        assert(outs1[ii] == outs@[ii]@);
    }
    let new_in = in_row(&used[i], &def[i], &outs[i], m);
    proof {
        assert forall|j: int| 0 <= j < mm implies #[trigger] new_in@[j] == fin(outs1, us, ds, ii, j) by {}
        assert(ins0[ii].len() == mm);
        assert forall|j: int| 0 <= j < mm && #[trigger] ins0[ii][j] implies new_in@[j] by {
            assert(fin(outs0, us, ds, ii, j));
        }
        lemma_count_grow(ins0[ii], new_in@);
    }
    let changed_in;
    if !rows_equal(&new_in, &ins[i]) {
        ins.set(i, new_in);
        changed_in = true;
        proof {
            assert(rows(ins@) =~= ins0.update(ii, new_in@));
            lemma_total_update(ins0, ii, new_in@);
        }
    } else {
        changed_in = false;
        proof { assert(rows(ins@) =~= ins0); }
    }
    let ghost ins1 = rows(ins@);
    proof {
        assert forall|i2: int, j: int| 0 <= i2 < nn && 0 <= j < mm && #[trigger] ins0[i2][j] implies ins1[i2][j] by {
            if i2 == ii {
                assert(fin(outs0, us, ds, i2, j));
            }
        }
        assert forall|i2: int, j: int| 0 <= i2 < nn && 0 <= j < mm && #[trigger] outs1[i2][j] implies fout(ins1, ss, ps, i2, j) by {
            if i2 != ii {
                assert(outs0[i2][j]);
            }
            assert(fout(ins0, ss, ps, i2, j));
            lemma_fout_mono(ins0, ins1, ss, ps, nn, mm, i2, j);
        }
        assert forall|i2: int, j: int| 0 <= i2 < nn && 0 <= j < mm && #[trigger] ins1[i2][j] implies fin(outs1, us, ds, i2, j) by {
            if i2 != ii {
                assert(ins0[i2][j]);
                assert(fin(outs0, us, ds, i2, j));
            }
        }
        assert forall|a2: Seq<Seq<bool>>, b2: Seq<Seq<bool>>| #[trigger] closed(a2, b2, us, ds, ss, ps, nn, mm)
            implies rows_below(ins1, a2, nn, mm) && rows_below(outs1, b2, nn, mm) by {
            assert(rows_below(ins0, a2, nn, mm));
            assert(rows_below(outs0, b2, nn, mm));
            assert forall|i2: int, j: int| 0 <= i2 < nn && 0 <= j < mm && #[trigger] outs1[i2][j] implies b2[i2][j] by {
                if i2 == ii {
                    lemma_fout_mono(ins0, a2, ss, ps, nn, mm, i2, j);
                } else {
                    assert(outs0[i2][j]);
                }
            }
            assert forall|i2: int, j: int| 0 <= i2 < nn && 0 <= j < mm && #[trigger] ins1[i2][j] implies a2[i2][j] by {
                if i2 == ii {
                    if outs1[i2][j] {
                        assert(b2[i2][j]);
                    }
                    assert(fin(b2, us, ds, i2, j));
                } else {
                    assert(ins0[i2][j]);
                }
            }
        }
    }
    changed_out || changed_in
}

/// Solves the equations by iteration from all-empty rows: the result is a
/// solution, and it lies below every row assignment closed under the
/// equations (so it is the least solution).
fn solve(used: &Vec<Vec<bool>>, def: &Vec<Vec<bool>>, succ: &Vec<Vec<usize>>, ph: &Vec<Vec<Vec<bool>>>, m: usize)
    -> (r: (Vec<Vec<bool>>, Vec<Vec<bool>>))
    requires
        flags_ok(rows(used@), rows(def@), idx_rows(succ@), rows3(ph@), used@.len() as int, m as int),
    ensures
        shaped(rows(r.0@), used@.len() as int, m as int),
        shaped(rows(r.1@), used@.len() as int, m as int),
        forall|i: int, j: int| 0 <= i < used@.len() && 0 <= j < m ==>
            #[trigger] rows(r.1@)[i][j] == fout(rows(r.0@), idx_rows(succ@), rows3(ph@), i, j),
        forall|i: int, j: int| 0 <= i < used@.len() && 0 <= j < m ==>
            #[trigger] rows(r.0@)[i][j] == fin(rows(r.1@), rows(used@), rows(def@), i, j),
        least(rows(r.0@), rows(r.1@), rows(used@), rows(def@), idx_rows(succ@), rows3(ph@), used@.len() as int, m as int),
{
    let n = used.len();
    let ghost nn = n as int;
    let ghost mm = m as int;
    let ghost us = rows(used@);
    let ghost ds = rows(def@);
    let ghost ss = idx_rows(succ@);
    let ghost ps = rows3(ph@);
    let mut ins: Vec<Vec<bool>> = Vec::new();
    let mut outs: Vec<Vec<bool>> = Vec::new();
    while ins.len() < n
        invariant
            ins@.len() == outs@.len(),
            ins@.len() <= n,
            forall|i: int, j: int| 0 <= i < ins@.len() && 0 <= j < m ==> !(#[trigger] ins@[i]@[j]),
            forall|i: int, j: int| 0 <= i < outs@.len() && 0 <= j < m ==> !(#[trigger] outs@[i]@[j]),
            forall|i: int| 0 <= i < ins@.len() ==> (#[trigger] ins@[i])@.len() == m,
            forall|i: int| 0 <= i < outs@.len() ==> (#[trigger] outs@[i])@.len() == m,
        decreases n - ins.len(),
    {
        ins.push(false_row(m));
        outs.push(false_row(m));
    }
    proof {
        assert(shaped(rows(ins@), nn, mm));
        assert(shaped(rows(outs@), nn, mm));
        assert forall|i: int, j: int| 0 <= i < nn && 0 <= j < mm implies !(#[trigger] rows(ins@)[i][j]) && !rows(outs@)[i][j] by {
            assert(rows(ins@)[i] == ins@[i]@);
            assert(rows(outs@)[i] == outs@[i]@);
        }
        lemma_total_bound(rows(ins@), mm);
        lemma_total_bound(rows(outs@), mm);
    }
    let mut changed = true;
    while changed
        invariant
            n == used@.len(),
            nn == n as int,
            mm == m as int,
            flags_ok(us, ds, ss, ps, nn, mm),
            us == rows(used@),
            ds == rows(def@),
            ss == idx_rows(succ@),
            ps == rows3(ph@),
            shaped(rows(ins@), nn, mm),
            shaped(rows(outs@), nn, mm),
            derivable(rows(ins@), rows(outs@), us, ds, ss, ps, nn, mm),
            least(rows(ins@), rows(outs@), us, ds, ss, ps, nn, mm),
            !changed ==> forall|i: int, j: int| 0 <= i < nn && 0 <= j < mm ==> #[trigger] rows(outs@)[i][j]
                == fout(rows(ins@), ss, ps, i, j),
            !changed ==> forall|i: int, j: int| 0 <= i < nn && 0 <= j < mm ==> #[trigger] rows(ins@)[i][j]
                == fin(rows(outs@), us, ds, i, j),
            total(rows(ins@)) + total(rows(outs@)) <= 2 * (nn * mm),
        decreases 2 * (nn * mm) - total(rows(ins@)) - total(rows(outs@)) + if changed { 1int } else { 0int },
    {
        changed = false;
        let ghost start = total(rows(ins@)) + total(rows(outs@));
        let mut i: usize = 0;
        while i < n
            invariant
                n == used@.len(),
                nn == n as int,
                mm == m as int,
                i <= n,
                flags_ok(us, ds, ss, ps, nn, mm),
                us == rows(used@),
                ds == rows(def@),
                ss == idx_rows(succ@),
                ps == rows3(ph@),
                shaped(rows(ins@), nn, mm),
                shaped(rows(outs@), nn, mm),
                derivable(rows(ins@), rows(outs@), us, ds, ss, ps, nn, mm),
                least(rows(ins@), rows(outs@), us, ds, ss, ps, nn, mm),
                !changed ==> forall|i2: int, j: int| 0 <= i2 < i && 0 <= j < mm ==> #[trigger] rows(outs@)[i2][j]
                    == fout(rows(ins@), ss, ps, i2, j),
                !changed ==> forall|i2: int, j: int| 0 <= i2 < i && 0 <= j < mm ==> #[trigger] rows(ins@)[i2][j]
                    == fin(rows(outs@), us, ds, i2, j),
                total(rows(ins@)) + total(rows(outs@)) >= start + if changed { 1int } else { 0int },
            decreases n - i,
        {
            let c = update_block(&mut ins, &mut outs, used, def, succ, ph, m, i);
            if c {
                changed = true;
            }
            i += 1;
        }
        proof {
            lemma_total_bound(rows(ins@), mm);
            lemma_total_bound(rows(outs@), mm);
        }
    }
    (ins, outs)
}


// ---- From the IR to flag rows and back ----

/// The blocks control may go to from `b`, in terminator order.
pub open spec fn term_targets(b: BasicBlock) -> Seq<BlockId> {
    match b.terminator {
        Some(t) => term_successors(t),
        None => seq![],
    }
}

/// The set a flag row stands for over the universe `univ`.
pub open spec fn row_set(univ: Seq<u32>, row: Seq<bool>) -> Set<u32> {
    Set::new(|v: u32| exists|j: int| 0 <= j < univ.len() && #[trigger] row[j] && univ[j] == v)
}

pub open spec fn sets_of(univ: Seq<u32>, r: Seq<Seq<bool>>) -> Seq<Set<u32>> {
    Seq::new(r.len(), |i: int| row_set(univ, r[i]))
}

fn block_position(func: &Function, t: BlockId) -> (r: usize)
    requires
        find_block(func.blocks@, t) is Some,
    ensures
        r as int == block_index(*func, t),
        r < func.blocks@.len(),
{
    proof { lemma_find_block(func.blocks@, t); }
    let mut i: usize = 0;
    while i < func.blocks.len()
        invariant
            i <= func.blocks@.len(),
            find_block(func.blocks@, t) is Some,
            forall|j: int| 0 <= j < i ==> func.blocks@[j].id != t,
            match find_block(func.blocks@, t) {
                Some(k) => 0 <= k < func.blocks@.len() && func.blocks@[k].id == t && forall|j: int|
                    0 <= j < k ==> func.blocks@[j].id != t,
                None => true,
            },
        decreases func.blocks.len() - i,
    {
        if func.blocks[i].id == t {
            return i;
        }
        i += 1;
    }
    proof {
        let k = find_block(func.blocks@, t)->0;
        assert(func.blocks@[k].id == t);
    }
    0
}

fn targets_of(b: &BasicBlock) -> (r: Vec<BlockId>)
    ensures
        r@ == term_targets(*b),
{
    match &b.terminator {
        Some(t) => t.successors(),
        None => Vec::new(),
    }
}

/// Adds `v` to the universe unless it is there already.
fn add_value(univ: &mut Vec<u32>, v: u32)
    requires
        old(univ)@.no_duplicates(),
    ensures
        final(univ)@.no_duplicates(),
        final(univ)@.contains(v),
        forall|w: u32| old(univ)@.contains(w) ==> final(univ)@.contains(w),
        forall|w: u32| final(univ)@.contains(w) ==> old(univ)@.contains(w) || w == v,
{
    let mut j: usize = 0;
    while j < univ.len()
        invariant
            j <= univ@.len(),
            univ@ == old(univ)@,
            univ@.no_duplicates(),
            forall|k: int| 0 <= k < j ==> univ@[k] != v,
        decreases univ.len() - j,
    {
        if univ[j] == v {
            assert(univ@[j as int] == v);
            return;
        }
        j += 1;
    }
    let ghost before = univ@;
    univ.push(v);
    proof {
        assert forall|w: u32| univ@.contains(w) implies before.contains(w) || w == v by {
            let k = choose|k: int| 0 <= k < univ@.len() && univ@[k] == w;
            if k < before.len() {
                assert(before[k] == w);
            }
        }
        assert(univ@[before.len() as int] == v);
        assert forall|w: u32| before.contains(w) implies univ@.contains(w) by {
            let k = choose|k: int| 0 <= k < before.len() && before[k] == w;
            assert(univ@[k] == w);
        }
    }
}

fn add_values(univ: &mut Vec<u32>, vals: &Vec<u32>)
    requires
        old(univ)@.no_duplicates(),
    ensures
        final(univ)@.no_duplicates(),
        forall|k: int| 0 <= k < vals@.len() ==> final(univ)@.contains(#[trigger] vals@[k]),
        forall|w: u32| old(univ)@.contains(w) ==> final(univ)@.contains(w),
        forall|w: u32| #[trigger] final(univ)@.contains(w) ==> old(univ)@.contains(w) || vals@.contains(w),
{
    let mut k: usize = 0;
    while k < vals.len()
        invariant
            k <= vals@.len(),
            univ@.no_duplicates(),
            forall|kk: int| 0 <= kk < k ==> univ@.contains(#[trigger] vals@[kk]),
            forall|w: u32| old(univ)@.contains(w) ==> univ@.contains(w),
            forall|w: u32| #[trigger] univ@.contains(w) ==> old(univ)@.contains(w) || vals@.take(k as int).contains(w),
        decreases vals.len() - k,
    {
        let ghost u0 = univ@;
        add_value(univ, vals[k]);
        proof {
            assert forall|w: u32| #[trigger] univ@.contains(w) implies old(univ)@.contains(w) || vals@.take(k + 1).contains(w) by {
                if w == vals@[k as int] {
                    assert(vals@.take(k + 1)[k as int] == w);
                } else if u0.contains(w) && !old(univ)@.contains(w) {
                    let q = choose|q: int| 0 <= q < vals@.take(k as int).len() && vals@.take(k as int)[q] == w;
                    assert(vals@.take(k + 1)[q] == w);
                }
            }
        }
        k += 1;
    }
    proof {
        assert(vals@.take(k as int) =~= vals@);
    }
}

/// Block `b` reads `v`: as an operand of an instruction or of its
/// terminator, or as the value a phi of `b` takes along some edge.
pub open spec fn mentions(b: BasicBlock, v: u32) -> bool {
    ||| exists|k: int| 0 <= k < b.instructions@.len() && #[trigger] inst_uses(b.instructions@[k].kind).contains(ValueId(v))
    ||| term_uses(b.terminator).contains(ValueId(v))
    ||| exists|from: BlockId| #[trigger] phi_values(b.instructions@, from).contains(v)
}

/// Some block of `f` reads `v`.
pub open spec fn operand_value(f: Function, v: u32) -> bool {
    exists|i: int| 0 <= i < f.blocks@.len() && #[trigger] mentions(f.blocks@[i], v)
}

/// What the analysis gathers about block `i` of `f`.
pub open spec fn block_facts_hold(f: Function, i: int, univ: Seq<u32>, used: Set<u32>, def: Set<u32>,
    succ_i: Seq<usize>, phis_i: Seq<Vec<u32>>) -> bool {
    let b = f.blocks@[i];
    &&& used == block_uses(b)
    &&& def == block_defs(b)
    &&& succ_i.len() == term_targets(b).len()
    &&& phis_i.len() == term_targets(b).len()
    &&& forall|k: int| 0 <= k < succ_i.len() ==> #[trigger] succ_i[k] as int == block_index(f, term_targets(b)[k])
        && succ_i[k] < f.blocks@.len()
    &&& forall|k: int| 0 <= k < succ_i.len() ==> (#[trigger] phis_i[k])@ == phi_values(
        f.blocks@[succ_i[k] as int].instructions@, b.id)
    &&& forall|v: u32| #[trigger] used.contains(v) ==> univ.contains(v)
    &&& forall|k: int, q: int| 0 <= k < succ_i.len() && 0 <= q < phis_i[k]@.len() ==> univ.contains(#[trigger] phis_i[k]@[q])
}

/// Gathers what the analysis needs of block `i`, adding every value it may
/// mark live to the universe.
fn block_facts(func: &Function, i: usize, univ: &mut Vec<u32>) -> (r: (HashSet<u32>, HashSet<u32>, Vec<usize>, Vec<Vec<u32>>))
    requires
        flow_ready(*func),
        i < func.blocks@.len(),
        old(univ)@.no_duplicates(),
    ensures
        final(univ)@.no_duplicates(),
        forall|w: u32| old(univ)@.contains(w) ==> final(univ)@.contains(w),
        forall|w: u32| final(univ)@.contains(w) ==> old(univ)@.contains(w) || operand_value(*func, w),
        block_facts_hold(*func, i as int, final(univ)@, r.0@, r.1@, r.2@, r.3@),
{
    let b = &func.blocks[i];
    let ghost insts = b.instructions@;
    let (used, defined) = used_and_defined(b);
    let mut k: usize = 0;
    while k < b.instructions.len()
        invariant
            insts == b.instructions@,
            *b == func.blocks@[i as int],
            k <= insts.len(),
            univ@.no_duplicates(),
            forall|w: u32| old(univ)@.contains(w) ==> univ@.contains(w),
            forall|k2: int, v: u32| 0 <= k2 < k && #[trigger] inst_uses(insts[k2].kind).contains(ValueId(v)) ==> univ@.contains(v),
            i < func.blocks@.len(),
            forall|w: u32| univ@.contains(w) ==> old(univ)@.contains(w) || operand_value(*func, w),
        decreases b.instructions.len() - k,
    {
        let ops = operand_list(&b.instructions[k].kind);
        let ghost u0 = univ@;
        add_values(univ, &ops);
        proof {
            assert forall|w: u32| univ@.contains(w) implies old(univ)@.contains(w) || operand_value(*func, w) by {
                if !u0.contains(w) {
                    assert(ops@.contains(w));
                    let q = choose|q: int| 0 <= q < ops@.len() && ops@[q] == w;
                    assert(inst_uses(insts[k as int].kind)[q] == ValueId(w));
                    assert(inst_uses(insts[k as int].kind).contains(ValueId(w)));
                    assert(mentions(func.blocks@[i as int], w));
                }
            }
            assert forall|k2: int, v: u32| 0 <= k2 < k + 1 && #[trigger] inst_uses(insts[k2].kind).contains(ValueId(v))
                implies univ@.contains(v) by {
                if k2 == k {
                    let q = choose|q: int| 0 <= q < inst_uses(insts[k2].kind).len() && inst_uses(insts[k2].kind)[q] == ValueId(v);
                    assert(ops@[q] == v);
                } else {
                    assert(u0.contains(v));
                }
            }
        }
        k += 1;
    }
    let tops = term_operand_list(&b.terminator);
    let ghost u1 = univ@;
    add_values(univ, &tops);
    proof {
        assert forall|w: u32| univ@.contains(w) implies old(univ)@.contains(w) || operand_value(*func, w) by {
            if !u1.contains(w) {
                let q = choose|q: int| 0 <= q < tops@.len() && tops@[q] == w;
                assert(term_uses(b.terminator)[q] == ValueId(w));
                assert(term_uses(b.terminator).contains(ValueId(w)));
                assert(mentions(func.blocks@[i as int], w));
            }
        }
        assert forall|v: u32| #[trigger] used@.contains(v) implies univ@.contains(v) by {
            if exists|k2: int| 0 <= k2 < insts.len() && #[trigger] exposed_at(insts, k2, v) {
                let k2 = choose|k2: int| 0 <= k2 < insts.len() && #[trigger] exposed_at(insts, k2, v);
                assert(u1.contains(v));
            } else {
                let q = choose|q: int| 0 <= q < term_uses(b.terminator).len() && term_uses(b.terminator)[q] == ValueId(v);
                assert(tops@[q] == v);
            }
        }
    }
    let targets = targets_of(b);
    let mut succ_i: Vec<usize> = Vec::new();
    let mut phis_i: Vec<Vec<u32>> = Vec::new();
    let mut k: usize = 0;
    while k < targets.len()
        invariant
            *b == func.blocks@[i as int],
            i < func.blocks@.len(),
            flow_ready(*func),
            targets@ == term_targets(*b),
            k <= targets@.len(),
            succ_i@.len() == k,
            phis_i@.len() == k,
            univ@.no_duplicates(),
            forall|w: u32| old(univ)@.contains(w) ==> univ@.contains(w),
            forall|v: u32| #[trigger] used@.contains(v) ==> univ@.contains(v),
            forall|kk: int| 0 <= kk < k ==> #[trigger] succ_i@[kk] as int == block_index(*func, term_targets(*b)[kk])
                && succ_i@[kk] < func.blocks@.len(),
            forall|kk: int| 0 <= kk < k ==> (#[trigger] phis_i@[kk])@ == phi_values(
                func.blocks@[succ_i@[kk] as int].instructions@, b.id),
            forall|kk: int, q: int| 0 <= kk < k && 0 <= q < phis_i@[kk]@.len() ==> univ@.contains(#[trigger] phis_i@[kk]@[q]),
            forall|w: u32| univ@.contains(w) ==> old(univ)@.contains(w) || operand_value(*func, w),
        decreases targets.len() - k,
    {
        let t = targets[k];
        assert(find_block(func.blocks@, term_successors(func.blocks@[i as int].terminator->0)[k as int]) is Some);
        let s = block_position(func, t);
        let pv = phi_operands_from(func, t, b.id);
        let ghost u2 = univ@;
        add_values(univ, &pv);
        succ_i.push(s);
        phis_i.push(pv);
        proof {
            crate::function::lemma_find_block(func.blocks@, t);
            assert forall|w: u32| univ@.contains(w) implies old(univ)@.contains(w) || operand_value(*func, w) by {
                if !u2.contains(w) {
                    assert(pv@.contains(w));
                    assert(phi_values(func.blocks@[s as int].instructions@, b.id).contains(w));
                    assert(mentions(func.blocks@[s as int], w));
                }
            }
            assert forall|kk: int, q: int| 0 <= kk < k + 1 && 0 <= q < phis_i@[kk]@.len() implies univ@.contains(#[trigger] phis_i@[kk]@[q]) by {
                if kk < k {
                    assert(u2.contains(phis_i@[kk]@[q]));
                }
            }
        }
        k += 1;
    }
    (used, defined, succ_i, phis_i)
}


/// How the flag rows stand for the IR: row `i` of `us`/`ds` flags the
/// universe values block `i` reads first / defines, `ss[i]` indexes its
/// successors, and `ps[i][k]` flags the phi operands along its `k`-th edge.
pub open spec fn rows_encode(f: Function, univ: Seq<u32>, us: Seq<Seq<bool>>, ds: Seq<Seq<bool>>,
    ss: Seq<Seq<usize>>, ps: Seq<Seq<Seq<bool>>>) -> bool {
    let n = f.blocks@.len() as int;
    let m = univ.len() as int;
    &&& univ.no_duplicates()
    &&& flags_ok(us, ds, ss, ps, n, m)
    &&& forall|i: int, j: int| 0 <= i < n && 0 <= j < m ==> #[trigger] us[i][j] == block_uses(f.blocks@[i]).contains(univ[j])
    &&& forall|i: int, j: int| 0 <= i < n && 0 <= j < m ==> #[trigger] ds[i][j] == block_defs(f.blocks@[i]).contains(univ[j])
    &&& forall|i: int, v: u32| 0 <= i < n && #[trigger] block_uses(f.blocks@[i]).contains(v) ==> univ.contains(v)
    &&& forall|i: int| 0 <= i < n ==> (#[trigger] ss[i]).len() == term_targets(f.blocks@[i]).len()
    &&& forall|i: int, k: int| 0 <= i < n && 0 <= k < ss[i].len() ==> #[trigger] ss[i][k] as int == block_index(f,
        term_targets(f.blocks@[i])[k])
    &&& forall|i: int, k: int, j: int| 0 <= i < n && 0 <= k < ss[i].len() && 0 <= j < m ==> #[trigger] ps[i][k][j]
        == phi_values(f.blocks@[ss[i][k] as int].instructions@, f.blocks@[i].id).contains(univ[j])
    &&& forall|i: int, k: int, v: u32| 0 <= i < n && 0 <= k < ss[i].len()
        && #[trigger] phi_values(f.blocks@[ss[i][k] as int].instructions@, f.blocks@[i].id).contains(v) ==> univ.contains(v)
}

proof fn lemma_univ_index(univ: Seq<u32>, v: u32) -> (j: int)
    requires
        univ.contains(v),
    ensures
        0 <= j < univ.len(),
        univ[j] == v,
{
    choose|j: int| 0 <= j < univ.len() && univ[j] == v
}

/// With distinct universe entries, a row's set holds `univ[j]` exactly when
/// flag `j` is set.
proof fn lemma_row_set_at(univ: Seq<u32>, row: Seq<bool>, j: int)
    requires
        univ.no_duplicates(),
        0 <= j < univ.len(),
    ensures
        row_set(univ, row).contains(univ[j]) == row[j],
{
    if row_set(univ, row).contains(univ[j]) {
        let j2 = choose|j2: int| 0 <= j2 < univ.len() && #[trigger] row[j2] && univ[j2] == univ[j];
        assert(j2 == j);
    }
}

/// Membership in block `i`'s live-out set, edge by edge.
proof fn lemma_flow_out_edges(f: Function, ins: Seq<Set<u32>>, i: int, v: u32)
    requires
        0 <= i < f.blocks@.len(),
    ensures
        flow_out(f, ins, i).contains(v) <==> exists|k: int| 0 <= k < term_targets(f.blocks@[i]).len()
            && #[trigger] edge_live(f, ins, f.blocks@[i].id, term_targets(f.blocks@[i])[k]).contains(v),
{
    let b = f.blocks@[i];
    match b.terminator {
        Some(Terminator::Jump(t)) => {
            assert(term_targets(b)[0] == t);
        },
        Some(Terminator::Branch { then_block, else_block, .. }) => {
            assert(term_targets(b)[0] == then_block);
            assert(term_targets(b)[1] == else_block);
            if exists|k: int| 0 <= k < term_targets(b).len() && #[trigger] edge_live(f, ins, b.id, term_targets(b)[k]).contains(v) {
                let k = choose|k: int| 0 <= k < term_targets(b).len() && #[trigger] edge_live(f, ins, b.id, term_targets(b)[k]).contains(v);
                assert(k == 0 || k == 1);
            }
        },
        _ => {},
    }
}

proof fn lemma_rows_give_solution(f: Function, univ: Seq<u32>, us: Seq<Seq<bool>>, ds: Seq<Seq<bool>>,
    ss: Seq<Seq<usize>>, ps: Seq<Seq<Seq<bool>>>, ins: Seq<Seq<bool>>, outs: Seq<Seq<bool>>)
    requires
        rows_encode(f, univ, us, ds, ss, ps),
        shaped(ins, f.blocks@.len() as int, univ.len() as int),
        shaped(outs, f.blocks@.len() as int, univ.len() as int),
        forall|i: int, j: int| 0 <= i < f.blocks@.len() && 0 <= j < univ.len() ==> #[trigger] outs[i][j] == fout(ins, ss, ps, i, j),
        forall|i: int, j: int| 0 <= i < f.blocks@.len() && 0 <= j < univ.len() ==> #[trigger] ins[i][j] == fin(outs, us, ds, i, j),
    ensures
        is_flow_solution(f, sets_of(univ, ins), sets_of(univ, outs)),
{
    let n = f.blocks@.len() as int;
    let m = univ.len() as int;
    let si = sets_of(univ, ins);
    let so = sets_of(univ, outs);
    assert forall|i: int| 0 <= i < n implies #[trigger] so[i] == flow_out(f, si, i) by {
        let b = f.blocks@[i];
        assert forall|v: u32| so[i].contains(v) == flow_out(f, si, i).contains(v) by {
            lemma_flow_out_edges(f, si, i, v);
            if so[i].contains(v) {
                let j = choose|j: int| 0 <= j < univ.len() && #[trigger] outs[i][j] && univ[j] == v;
                assert(fout(ins, ss, ps, i, j));
                let k = choose|k: int| #![trigger ins[ss[i][k] as int][j]] #![trigger ps[i][k][j]]
                    0 <= k < ss[i].len() && (ins[ss[i][k] as int][j] || ps[i][k][j]);
                let s = ss[i][k] as int;
                assert(s == block_index(f, term_targets(b)[k]));
                assert(s < n);
                if ins[s][j] {
                    assert(si[s] == row_set(univ, ins[s]));
                    assert(si[s].contains(v));
                } else {
                    assert(phi_values(f.blocks@[s].instructions@, b.id).contains(v));
                }
                assert(edge_live(f, si, b.id, term_targets(b)[k]).contains(v));
            }
            if flow_out(f, si, i).contains(v) {
                let k = choose|k: int| 0 <= k < term_targets(b).len() && #[trigger] edge_live(f, si, b.id, term_targets(b)[k]).contains(v);
                assert(ss[i][k] as int == block_index(f, term_targets(b)[k]));
                let s = ss[i][k] as int;
                assert(s < n);
                if si[s].contains(v) {
                    assert(si[s] == row_set(univ, ins[s]));
                    let j = choose|j: int| 0 <= j < univ.len() && #[trigger] ins[s][j] && univ[j] == v;
                    assert(ins[ss[i][k] as int][j]);
                    assert(fout(ins, ss, ps, i, j));
                    assert(outs[i][j]);
                } else {
                    assert(phi_values(f.blocks@[s].instructions@, b.id).to_set().contains(v));
                    assert(phi_values(f.blocks@[s].instructions@, b.id).contains(v));
                    let j = lemma_univ_index(univ, v);
                    assert(ps[i][k][j]);
                    assert(fout(ins, ss, ps, i, j));
                    assert(outs[i][j]);
                }
                assert(so[i] == row_set(univ, outs[i]));
            }
        }
        assert(so[i] =~= flow_out(f, si, i));
    }
    assert forall|i: int| 0 <= i < n implies #[trigger] si[i] == flow_in(f, so, i) by {
        let b = f.blocks@[i];
        assert forall|v: u32| si[i].contains(v) == flow_in(f, so, i).contains(v) by {
            if si[i].contains(v) {
                let j = choose|j: int| 0 <= j < univ.len() && #[trigger] ins[i][j] && univ[j] == v;
                assert(fin(outs, us, ds, i, j));
                if outs[i][j] && !ds[i][j] {
                    lemma_row_set_at(univ, outs[i], j);
                }
            }
            if flow_in(f, so, i).contains(v) {
                if block_uses(b).contains(v) {
                    let j = lemma_univ_index(univ, v);
                    assert(us[i][j]);
                    assert(ins[i][j]);
                    lemma_row_set_at(univ, ins[i], j);
                } else {
                    assert(so[i].contains(v));
                    let j = choose|j: int| 0 <= j < univ.len() && #[trigger] outs[i][j] && univ[j] == v;
                    assert(!ds[i][j]);
                    assert(ins[i][j]);
                    lemma_row_set_at(univ, ins[i], j);
                }
            }
        }
        assert(si[i] =~= flow_in(f, so, i));
    }
}

/// The flag image of a set assignment.
pub open spec fn flags_of(univ: Seq<u32>, sets: Seq<Set<u32>>) -> Seq<Seq<bool>> {
    Seq::new(sets.len(), |i: int| Seq::new(univ.len(), |j: int| sets[i].contains(univ[j])))
}

proof fn lemma_solutions_closed(f: Function, univ: Seq<u32>, us: Seq<Seq<bool>>, ds: Seq<Seq<bool>>,
    ss: Seq<Seq<usize>>, ps: Seq<Seq<Seq<bool>>>, xi: Seq<Set<u32>>, xo: Seq<Set<u32>>)
    requires
        rows_encode(f, univ, us, ds, ss, ps),
        is_flow_solution(f, xi, xo),
    ensures
        closed(flags_of(univ, xi), flags_of(univ, xo), us, ds, ss, ps, f.blocks@.len() as int, univ.len() as int),
{
    let n = f.blocks@.len() as int;
    let m = univ.len() as int;
    let a2 = flags_of(univ, xi);
    let b2 = flags_of(univ, xo);
    assert forall|i: int, j: int| 0 <= i < n && 0 <= j < m && #[trigger] fout(a2, ss, ps, i, j) implies b2[i][j] by {
        let b = f.blocks@[i];
        let k = choose|k: int| #![trigger a2[ss[i][k] as int][j]] #![trigger ps[i][k][j]]
            0 <= k < ss[i].len() && (a2[ss[i][k] as int][j] || ps[i][k][j]);
        let s = ss[i][k] as int;
        assert(s == block_index(f, term_targets(b)[k]));
        assert(s < n);
        if a2[s][j] {
            assert(xi[s].contains(univ[j]));
        } else {
            assert(phi_values(f.blocks@[s].instructions@, b.id).contains(univ[j]));
            assert(phi_values(f.blocks@[s].instructions@, b.id).to_set().contains(univ[j]));
        }
        assert(edge_live(f, xi, b.id, term_targets(b)[k]).contains(univ[j]));
        lemma_flow_out_edges(f, xi, i, univ[j]);
        assert(xo[i] == flow_out(f, xi, i));
    }
    assert forall|i: int, j: int| 0 <= i < n && 0 <= j < m && #[trigger] fin(b2, us, ds, i, j) implies a2[i][j] by {
        assert(xi[i] == flow_in(f, xo, i));
    }
}

proof fn lemma_rows_least(f: Function, univ: Seq<u32>, us: Seq<Seq<bool>>, ds: Seq<Seq<bool>>,
    ss: Seq<Seq<usize>>, ps: Seq<Seq<Seq<bool>>>, ins: Seq<Seq<bool>>, outs: Seq<Seq<bool>>)
    requires
        rows_encode(f, univ, us, ds, ss, ps),
        shaped(ins, f.blocks@.len() as int, univ.len() as int),
        shaped(outs, f.blocks@.len() as int, univ.len() as int),
        least(ins, outs, us, ds, ss, ps, f.blocks@.len() as int, univ.len() as int),
    ensures
        forall|xi: Seq<Set<u32>>, xo: Seq<Set<u32>>| #[trigger] is_flow_solution(f, xi, xo)
            ==> below(sets_of(univ, ins), sets_of(univ, outs), xi, xo),
{
    let n = f.blocks@.len() as int;
    let m = univ.len() as int;
    assert forall|xi: Seq<Set<u32>>, xo: Seq<Set<u32>>| #[trigger] is_flow_solution(f, xi, xo)
        implies below(sets_of(univ, ins), sets_of(univ, outs), xi, xo) by {
        lemma_solutions_closed(f, univ, us, ds, ss, ps, xi, xo);
        let a2 = flags_of(univ, xi);
        let b2 = flags_of(univ, xo);
        assert(closed(a2, b2, us, ds, ss, ps, n, m));
        assert forall|i: int| 0 <= i < sets_of(univ, ins).len() implies (#[trigger] sets_of(univ, ins)[i]).subset_of(xi[i]) by {
            assert forall|v: u32| sets_of(univ, ins)[i].contains(v) implies xi[i].contains(v) by {
                let j = choose|j: int| 0 <= j < univ.len() && #[trigger] ins[i][j] && univ[j] == v;
                assert(a2[i][j]);
            }
        }
        assert forall|i: int| 0 <= i < sets_of(univ, outs).len() implies (#[trigger] sets_of(univ, outs)[i]).subset_of(xo[i]) by {
            assert forall|v: u32| sets_of(univ, outs)[i].contains(v) implies xo[i].contains(v) by {
                let j = choose|j: int| 0 <= j < univ.len() && #[trigger] outs[i][j] && univ[j] == v;
                assert(b2[i][j]);
            }
        }
    }
}


/// Blocks past a duplicate-free point have ids no earlier block has.
pub proof fn lemma_distinct_block_ids(bs: Seq<BasicBlock>, k: nat)
    requires
        duplicate_block(bs, k) is None,
    ensures
        forall|a: int, b: int| 0 <= a < b < bs.len() && k <= b ==> (#[trigger] bs[a]).id != (#[trigger] bs[b]).id,
    decreases bs.len() - k,
{
    if k < bs.len() {
        lemma_distinct_block_ids(bs, k + 1);
    }
}

proof fn lemma_facts_grow(f: Function, i: int, u0: Seq<u32>, u1: Seq<u32>, used: Set<u32>, def: Set<u32>,
    succ_i: Seq<usize>, phis_i: Seq<Vec<u32>>)
    requires
        block_facts_hold(f, i, u0, used, def, succ_i, phis_i),
        forall|w: u32| u0.contains(w) ==> u1.contains(w),
    ensures
        block_facts_hold(f, i, u1, used, def, succ_i, phis_i),
{
    assert forall|k: int, q: int| 0 <= k < succ_i.len() && 0 <= q < phis_i[k]@.len() implies u1.contains(#[trigger] phis_i[k]@[q]) by {
        assert(u0.contains(phis_i[k]@[q]));
    }
}

pub(crate) fn contains_value(vals: &Vec<u32>, v: u32) -> (r: bool)
    ensures
        r == vals@.contains(v),
{
    let mut k: usize = 0;
    while k < vals.len()
        invariant
            k <= vals@.len(),
            forall|q: int| 0 <= q < k ==> vals@[q] != v,
        decreases vals.len() - k,
    {
        if vals[k] == v {
            assert(vals@[k as int] == v);
            return true;
        }
        k += 1;
    }
    false
}

fn set_row(univ: &Vec<u32>, set: &HashSet<u32>) -> (r: Vec<bool>)
    ensures
        r@.len() == univ@.len(),
        forall|j: int| 0 <= j < univ@.len() ==> #[trigger] r@[j] == set@.contains(univ@[j]),
{
    let mut r: Vec<bool> = Vec::new();
    let mut j: usize = 0;
    while j < univ.len()
        invariant
            j <= univ@.len(),
            r@.len() == j,
            forall|q: int| 0 <= q < j ==> #[trigger] r@[q] == set@.contains(univ@[q]),
        decreases univ.len() - j,
    {
        r.push(set.contains(&univ[j]));
        j += 1;
    }
    r
}

fn vec_row(univ: &Vec<u32>, vals: &Vec<u32>) -> (r: Vec<bool>)
    ensures
        r@.len() == univ@.len(),
        forall|j: int| 0 <= j < univ@.len() ==> #[trigger] r@[j] == vals@.contains(univ@[j]),
{
    let mut r: Vec<bool> = Vec::new();
    let mut j: usize = 0;
    while j < univ.len()
        invariant
            j <= univ@.len(),
            r@.len() == j,
            forall|q: int| 0 <= q < j ==> #[trigger] r@[q] == vals@.contains(univ@[q]),
        decreases univ.len() - j,
    {
        r.push(contains_value(vals, univ[j]));
        j += 1;
    }
    r
}

fn row_to_set(univ: &Vec<u32>, row: &Vec<bool>) -> (r: HashSet<u32>)
    requires
        row@.len() == univ@.len(),
    ensures
        r@ == row_set(univ@, row@),
{
    let mut r: HashSet<u32> = HashSet::new();
    let mut j: usize = 0;
    while j < univ.len()
        invariant
            j <= univ@.len(),
            row@.len() == univ@.len(),
            r@ == Set::new(|v: u32| exists|q: int| 0 <= q < j && #[trigger] row@[q] && univ@[q] == v),
        decreases univ.len() - j,
    {
        if row[j] {
            r.insert(univ[j]);
        }
        j += 1;
        assert(r@ =~= Set::new(|v: u32| exists|q: int| 0 <= q < j && #[trigger] row@[q] && univ@[q] == v));
    }
    assert(r@ =~= row_set(univ@, row@));
    r
}

/// Live-in and live-out sets per block, keyed by block id number.
#[derive(Debug)]
pub struct Liveness {
    pub live_in: HashMap<u32, HashSet<u32>>,
    pub live_out: HashMap<u32, HashSet<u32>>,
}

/// The live-in sets, by block index.
pub open spec fn in_sets(l: Liveness, f: Function) -> Seq<Set<u32>> {
    Seq::new(f.blocks@.len(), |i: int| l.live_in@[f.blocks@[i].id.0]@)
}

/// The live-out sets, by block index.
pub open spec fn out_sets(l: Liveness, f: Function) -> Seq<Set<u32>> {
    Seq::new(f.blocks@.len(), |i: int| l.live_out@[f.blocks@[i].id.0]@)
}

/// `l` is the liveness of `f`: one entry per block, forming the least
/// solution of the liveness equations.
pub open spec fn liveness_of(l: Liveness, f: Function) -> bool {
    &&& forall|i: int| 0 <= i < f.blocks@.len() ==> l.live_in@.contains_key((#[trigger] f.blocks@[i]).id.0)
        && l.live_out@.contains_key(f.blocks@[i].id.0)
    &&& forall|k: u32| l.live_in@.contains_key(k) ==> exists|i: int| 0 <= i < f.blocks@.len() && (#[trigger] f.blocks@[i]).id.0 == k
    &&& forall|k: u32| l.live_out@.contains_key(k) ==> exists|i: int| 0 <= i < f.blocks@.len() && (#[trigger] f.blocks@[i]).id.0 == k
    &&& is_flow_solution(f, in_sets(l, f), out_sets(l, f))
    &&& forall|xi: Seq<Set<u32>>, xo: Seq<Set<u32>>| #[trigger] is_flow_solution(f, xi, xo)
        ==> below(in_sets(l, f), out_sets(l, f), xi, xo)
}

/// The ids of `f`'s blocks.
pub open spec fn block_ids(f: Function) -> Set<u32> {
    Set::new(|k: u32| exists|i: int| 0 <= i < f.blocks@.len() && (#[trigger] f.blocks@[i]).id.0 == k)
}

/// A liveness result has exactly one live-in and one live-out entry per
/// block: the keys of both tables are the ids of the function's blocks.
pub proof fn lemma_one_entry_per_block(l: Liveness, f: Function)
    requires
        liveness_of(l, f),
    ensures
        l.live_in@.dom() == block_ids(f),
        l.live_out@.dom() == block_ids(f),
{
    assert forall|k: u32| l.live_in@.dom().contains(k) <==> #[trigger] block_ids(f).contains(k) by {
        if block_ids(f).contains(k) {
            let i = choose|i: int| 0 <= i < f.blocks@.len() && (#[trigger] f.blocks@[i]).id.0 == k;
            assert(l.live_in@.contains_key(f.blocks@[i].id.0));
        }
    }
    assert forall|k: u32| l.live_out@.dom().contains(k) <==> #[trigger] block_ids(f).contains(k) by {
        if block_ids(f).contains(k) {
            let i = choose|i: int| 0 <= i < f.blocks@.len() && (#[trigger] f.blocks@[i]).id.0 == k;
            assert(l.live_out@.contains_key(f.blocks@[i].id.0));
        }
    }
    assert(l.live_in@.dom() =~= block_ids(f));
    assert(l.live_out@.dom() =~= block_ids(f));
}

/// Computes each block's live-in and live-out values by the standard
/// backward dataflow, iterated from empty sets to a fixed point:
/// `live_out[b]` is the union, over successors `s`, of `live_in[s]` and the
/// operands `s`'s phis take from `b`; `live_in[b]` is what `b` reads before
/// defining it, plus `live_out[b]` less what `b` defines.
pub fn analyze(func: &Function) -> (r: Liveness)
    requires
        flow_ready(*func),
    ensures
        liveness_of(r, *func),
        forall|i: int, v: u32| 0 <= i < func.blocks@.len() && (#[trigger] in_sets(r, *func)[i].contains(v)
            || #[trigger] out_sets(r, *func)[i].contains(v)) ==> operand_value(*func, v),
{
    let n = func.blocks.len();
    let ghost f = *func;
    let mut univ: Vec<u32> = Vec::new();
    let mut useds: Vec<HashSet<u32>> = Vec::new();
    let mut defs: Vec<HashSet<u32>> = Vec::new();
    let mut succ: Vec<Vec<usize>> = Vec::new();
    let mut phis: Vec<Vec<Vec<u32>>> = Vec::new();
    let mut i: usize = 0;
    while i < n
        invariant
            f == *func,
            n == func.blocks@.len(),
            flow_ready(f),
            i <= n,
            useds@.len() == i,
            defs@.len() == i,
            succ@.len() == i,
            phis@.len() == i,
            univ@.no_duplicates(),
            forall|w: u32| univ@.contains(w) ==> operand_value(f, w),
            forall|i2: int| 0 <= i2 < i ==> block_facts_hold(f, i2, univ@, (#[trigger] useds@[i2])@, defs@[i2]@, succ@[i2]@, phis@[i2]@),
        decreases n - i,
    {
        let ghost u0 = univ@;
        let (u, d, s, p) = block_facts(func, i, &mut univ);
        useds.push(u);
        defs.push(d);
        succ.push(s);
        phis.push(p);
        proof {
            assert forall|i2: int| 0 <= i2 < i + 1 implies block_facts_hold(f, i2, univ@, (#[trigger] useds@[i2])@, defs@[i2]@,
                succ@[i2]@, phis@[i2]@) by {
                if i2 < i {
                    lemma_facts_grow(f, i2, u0, univ@, useds@[i2]@, defs@[i2]@, succ@[i2]@, phis@[i2]@);
                }
            }
        }
        i += 1;
    }
    let m = univ.len();
    let ghost univ_ops = forall|w: u32| univ@.contains(w) ==> operand_value(f, w);
    assert(univ_ops);
    let mut used_f: Vec<Vec<bool>> = Vec::new();
    let mut def_f: Vec<Vec<bool>> = Vec::new();
    let mut ph_f: Vec<Vec<Vec<bool>>> = Vec::new();
    let mut i: usize = 0;
    while i < n
        invariant
            f == *func,
            n == func.blocks@.len(),
            m == univ@.len(),
            i <= n,
            useds@.len() == n,
            defs@.len() == n,
            succ@.len() == n,
            phis@.len() == n,
            used_f@.len() == i,
            def_f@.len() == i,
            ph_f@.len() == i,
            forall|i2: int| 0 <= i2 < n ==> block_facts_hold(f, i2, univ@, (#[trigger] useds@[i2])@, defs@[i2]@, succ@[i2]@, phis@[i2]@),
            forall|i2: int| 0 <= i2 < i ==> (#[trigger] used_f@[i2])@.len() == m && def_f@[i2]@.len() == m
                && ph_f@[i2]@.len() == succ@[i2]@.len(),
            forall|i2: int, j: int| 0 <= i2 < i && 0 <= j < m ==> #[trigger] used_f@[i2]@[j] == useds@[i2]@.contains(univ@[j]),
            forall|i2: int, j: int| 0 <= i2 < i && 0 <= j < m ==> #[trigger] def_f@[i2]@[j] == defs@[i2]@.contains(univ@[j]),
            forall|i2: int, k: int| 0 <= i2 < i && 0 <= k < succ@[i2]@.len() ==> (#[trigger] ph_f@[i2]@[k])@.len() == m,
            forall|i2: int, k: int, j: int| 0 <= i2 < i && 0 <= k < succ@[i2]@.len() && 0 <= j < m ==>
                #[trigger] ph_f@[i2]@[k]@[j] == phis@[i2]@[k]@.contains(univ@[j]),
        decreases n - i,
    {
        used_f.push(set_row(&univ, &useds[i]));
        def_f.push(set_row(&univ, &defs[i]));
        let mut ph_i: Vec<Vec<bool>> = Vec::new();
        let mut k: usize = 0;
        proof { assert(block_facts_hold(f, i as int, univ@, useds@[i as int]@, defs@[i as int]@, succ@[i as int]@, phis@[i as int]@)); }
        while k < phis[i].len()
            invariant
                i < n,
                phis@.len() == n,
                m == univ@.len(),
                k <= phis@[i as int]@.len(),
                ph_i@.len() == k,
                forall|k2: int| 0 <= k2 < k ==> (#[trigger] ph_i@[k2])@.len() == m,
                forall|k2: int, j: int| 0 <= k2 < k && 0 <= j < m ==> #[trigger] ph_i@[k2]@[j] == phis@[i as int]@[k2]@.contains(univ@[j]),
            decreases phis@[i as int]@.len() - k,
        {
            ph_i.push(vec_row(&univ, &phis[i][k]));
            k += 1;
        }
        ph_f.push(ph_i);
        i += 1;
    }
    let ghost us = rows(used_f@);
    let ghost ds = rows(def_f@);
    let ghost ss = idx_rows(succ@);
    let ghost ps = rows3(ph_f@);
    proof {
        let nn = n as int;
        let mm = m as int;
        assert forall|i2: int| 0 <= i2 < nn implies block_facts_hold(f, i2, univ@, useds@[i2]@, defs@[i2]@, succ@[i2]@, phis@[i2]@) by {
            assert(block_facts_hold(f, i2, univ@, (#[trigger] useds@[i2])@, defs@[i2]@, succ@[i2]@, phis@[i2]@));
        }
        assert(shaped(us, nn, mm)) by {
            assert forall|i2: int| 0 <= i2 < nn implies (#[trigger] us[i2]).len() == mm by {
                assert(used_f@[i2]@.len() == m);
            }
        }
        assert(shaped(ds, nn, mm)) by {
            assert forall|i2: int| 0 <= i2 < nn implies (#[trigger] ds[i2]).len() == mm by {
                assert(used_f@[i2]@.len() == m);
            }
        }
        assert forall|i2: int, k: int| 0 <= i2 < nn && 0 <= k < ss[i2].len() implies (#[trigger] ss[i2][k]) < nn by {
            assert(block_facts_hold(f, i2, univ@, useds@[i2]@, defs@[i2]@, succ@[i2]@, phis@[i2]@));
            assert(succ@[i2]@[k] < f.blocks@.len());
        }
        assert forall|i2: int| 0 <= i2 < nn implies (#[trigger] ps[i2]).len() == ss[i2].len() by {
            assert(used_f@[i2]@.len() == m);
        }
        assert forall|i2: int, k: int| 0 <= i2 < nn && 0 <= k < ss[i2].len() implies (#[trigger] ps[i2][k]).len() == mm by {
            assert(ph_f@[i2]@[k]@.len() == m);
        }
        assert(flags_ok(us, ds, ss, ps, nn, mm));
        assert forall|i2: int, j: int| 0 <= i2 < nn && 0 <= j < mm implies #[trigger] us[i2][j] == block_uses(f.blocks@[i2]).contains(univ@[j]) by {
            assert(used_f@[i2]@[j] == useds@[i2]@.contains(univ@[j]));
        }
        assert forall|i2: int, j: int| 0 <= i2 < nn && 0 <= j < mm implies #[trigger] ds[i2][j] == block_defs(f.blocks@[i2]).contains(univ@[j]) by {
            assert(def_f@[i2]@[j] == defs@[i2]@.contains(univ@[j]));
        }
        assert forall|i2: int, v: u32| 0 <= i2 < nn && #[trigger] block_uses(f.blocks@[i2]).contains(v) implies univ@.contains(v) by {
            assert(useds@[i2]@.contains(v));
        }
        assert forall|i2: int| 0 <= i2 < nn implies (#[trigger] ss[i2]).len() == term_targets(f.blocks@[i2]).len() by {}
        assert forall|i2: int, k: int| 0 <= i2 < nn && 0 <= k < ss[i2].len() implies #[trigger] ss[i2][k] as int == block_index(f,
            term_targets(f.blocks@[i2])[k]) by {
            assert(succ@[i2]@[k] as int == block_index(f, term_targets(f.blocks@[i2])[k]));
        }
        assert forall|i2: int, k: int, j: int| 0 <= i2 < nn && 0 <= k < ss[i2].len() && 0 <= j < mm implies #[trigger] ps[i2][k][j]
            == phi_values(f.blocks@[ss[i2][k] as int].instructions@, f.blocks@[i2].id).contains(univ@[j]) by {
            assert(ph_f@[i2]@[k]@[j] == phis@[i2]@[k]@.contains(univ@[j]));
            assert(phis@[i2]@[k]@ == phi_values(f.blocks@[succ@[i2]@[k] as int].instructions@, f.blocks@[i2].id));
        }
        assert forall|i2: int, k: int, v: u32| 0 <= i2 < nn && 0 <= k < ss[i2].len()
            && #[trigger] phi_values(f.blocks@[ss[i2][k] as int].instructions@, f.blocks@[i2].id).contains(v) implies univ@.contains(v) by {
            assert(phis@[i2]@[k]@ == phi_values(f.blocks@[succ@[i2]@[k] as int].instructions@, f.blocks@[i2].id));
            let q = choose|q: int| 0 <= q < phis@[i2]@[k]@.len() && phis@[i2]@[k]@[q] == v;
            assert(univ@.contains(phis@[i2]@[k]@[q]));
        }
        assert(rows_encode(f, univ@, us, ds, ss, ps));
    }
    let (ins, outs) = solve(&used_f, &def_f, &succ, &ph_f, m);
    proof {
        lemma_rows_give_solution(f, univ@, us, ds, ss, ps, rows(ins@), rows(outs@));
        lemma_rows_least(f, univ@, us, ds, ss, ps, rows(ins@), rows(outs@));
        lemma_distinct_block_ids(f.blocks@, 0);
    }
    let ghost si = sets_of(univ@, rows(ins@));
    let ghost so = sets_of(univ@, rows(outs@));
    let mut live_in: HashMap<u32, HashSet<u32>> = HashMap::new();
    let mut live_out: HashMap<u32, HashSet<u32>> = HashMap::new();
    let mut i: usize = 0;
    while i < n
        invariant
            f == *func,
            n == func.blocks@.len(),
            i <= n,
            m == univ@.len(),
            ins@.len() == n,
            outs@.len() == n,
            shaped(rows(ins@), n as int, m as int),
            shaped(rows(outs@), n as int, m as int),
            si == sets_of(univ@, rows(ins@)),
            so == sets_of(univ@, rows(outs@)),
            forall|a: int, b: int| 0 <= a < b < f.blocks@.len() ==> (#[trigger] f.blocks@[a]).id != (#[trigger] f.blocks@[b]).id,
            forall|i2: int| 0 <= i2 < i ==> live_in@.contains_key((#[trigger] f.blocks@[i2]).id.0)
                && live_in@[f.blocks@[i2].id.0]@ == si[i2] && live_out@.contains_key(f.blocks@[i2].id.0)
                && live_out@[f.blocks@[i2].id.0]@ == so[i2],
            forall|k: u32| live_in@.contains_key(k) ==> exists|i2: int| 0 <= i2 < i && (#[trigger] f.blocks@[i2]).id.0 == k,
            forall|k: u32| live_out@.contains_key(k) ==> exists|i2: int| 0 <= i2 < i && (#[trigger] f.blocks@[i2]).id.0 == k,
        decreases n - i,
    {
        assert(rows(ins@)[i as int] == ins@[i as int]@);
        assert(rows(outs@)[i as int] == outs@[i as int]@);
        let key = func.blocks[i].id.0;
        let si_row = row_to_set(&univ, &ins[i]);
        let so_row = row_to_set(&univ, &outs[i]);
        let ghost in0 = live_in@;
        let ghost out0 = live_out@;
        live_in.insert(key, si_row);
        live_out.insert(key, so_row);
        proof {
            assert forall|i2: int| 0 <= i2 < i + 1 implies live_in@.contains_key((#[trigger] f.blocks@[i2]).id.0)
                && live_in@[f.blocks@[i2].id.0]@ == si[i2] && live_out@.contains_key(f.blocks@[i2].id.0)
                && live_out@[f.blocks@[i2].id.0]@ == so[i2] by {
                if i2 < i {
                    assert(f.blocks@[i2].id != f.blocks@[i as int].id);
                    assert(f.blocks@[i2].id.0 != key);
                }
            }
            assert forall|k: u32| live_in@.contains_key(k) implies exists|i2: int| 0 <= i2 < i + 1 && (#[trigger] f.blocks@[i2]).id.0 == k by {
                if k != key {
                    assert(in0.contains_key(k));
                } else {
                    assert(f.blocks@[i as int].id.0 == k);
                }
            }
            assert forall|k: u32| live_out@.contains_key(k) implies exists|i2: int| 0 <= i2 < i + 1 && (#[trigger] f.blocks@[i2]).id.0 == k by {
                if k != key {
                    assert(out0.contains_key(k));
                } else {
                    assert(f.blocks@[i as int].id.0 == k);
                }
            }
        }
        i += 1;
    }
    let r = Liveness { live_in, live_out };
    proof {
        assert(in_sets(r, f) =~= si);
        assert(out_sets(r, f) =~= so);
        assert forall|i: int, v: u32| 0 <= i < f.blocks@.len() && (#[trigger] in_sets(r, f)[i].contains(v)
            || #[trigger] out_sets(r, f)[i].contains(v)) implies operand_value(f, v) by {
            if si[i].contains(v) {
                let j = choose|j: int| 0 <= j < univ@.len() && #[trigger] rows(ins@)[i][j] && univ@[j] == v;
                assert(univ@.contains(v));
            } else {
                let j = choose|j: int| 0 <= j < univ@.len() && #[trigger] rows(outs@)[i][j] && univ@[j] == v;
                assert(univ@.contains(v));
            }
        }
    }
    r
}


/// Adds every element of `src` to `dst`.
fn union_into(dst: &mut HashSet<u32>, src: &HashSet<u32>)
    ensures
        final(dst)@ == old(dst)@.union(src@),
{
    let ghost d0 = dst@;
    for x in it: src.iter()
        invariant
            forall|v: u32| #[trigger] dst@.contains(v) <==> (d0.contains(v)
                || exists|k: int| 0 <= k < it.index() && it.seq().unref()[k] == v),
            it.seq().unref().to_set() == src@,
    {
        let ghost i0 = it.index();
        dst.insert(*x);
        proof {
            assert(it.seq().unref()[i0] == *x);
            assert forall|v: u32| #[trigger] dst@.contains(v) <==> (d0.contains(v)
                || exists|k: int| 0 <= k < i0 + 1 && it.seq().unref()[k] == v) by {
                if v == *x {
                    assert(it.seq().unref()[i0] == v);
                }
            }
        }
    }
}

/// Every value live anywhere within block `block`: live into it, read or
/// defined in it, or live out of it.
pub open spec fn within_block(f: Function, l: Liveness, block: BlockId) -> Set<u32> {
    let b = f.blocks@[block_index(f, block)];
    l.live_in@[block.0]@.union(block_uses(b)).union(block_defs(b)).union(l.live_out@[block.0]@)
}

/// Every value live at any point within `block`: two values both in it must
/// not share a register.
pub fn live_within_block(func: &Function, block: BlockId, liveness: &Liveness) -> (r: HashSet<u32>)
    requires
        find_block(func.blocks@, block) is Some,
        liveness.live_in@.contains_key(block.0),
        liveness.live_out@.contains_key(block.0),
    ensures
        r@ == within_block(*func, *liveness, block),
{
    let (used, defined) = used_and_defined_in_block(func, block);
    let mut live: HashSet<u32> = HashSet::new();
    union_into(&mut live, liveness.live_in.get(&block.0).unwrap());
    union_into(&mut live, &used);
    union_into(&mut live, &defined);
    union_into(&mut live, liveness.live_out.get(&block.0).unwrap());
    assert(live@ =~= within_block(*func, *liveness, block));
    live
}

/// `ins`/`outs` are the least solution of `f`'s liveness equations.
pub open spec fn least_solution(f: Function, ins: Seq<Set<u32>>, outs: Seq<Set<u32>>) -> bool {
    &&& is_flow_solution(f, ins, outs)
    &&& forall|xi: Seq<Set<u32>>, xo: Seq<Set<u32>>| #[trigger] is_flow_solution(f, xi, xo) ==> below(ins, outs, xi, xo)
}

/// The least solution of `f`'s liveness equations (unique where it exists:
/// see `lemma_least_solution_unique`).
pub open spec fn live_sets(f: Function) -> (Seq<Set<u32>>, Seq<Set<u32>>) {
    choose|p: (Seq<Set<u32>>, Seq<Set<u32>>)| least_solution(f, p.0, p.1)
}

/// Every value live anywhere within block `i` of `f`.
pub open spec fn block_live(f: Function, i: int) -> Set<u32> {
    live_sets(f).0[i].union(block_uses(f.blocks@[i])).union(block_defs(f.blocks@[i])).union(live_sets(f).1[i])
}

/// The least solution is unique.
pub proof fn lemma_least_solution_unique(f: Function, a: Seq<Set<u32>>, b: Seq<Set<u32>>, c: Seq<Set<u32>>, d: Seq<Set<u32>>)
    requires
        least_solution(f, a, b),
        least_solution(f, c, d),
    ensures
        a == c,
        b == d,
{
    assert(below(a, b, c, d));
    assert(below(c, d, a, b));
    assert forall|i: int| 0 <= i < a.len() implies a[i] == c[i] by {
        assert(a[i].subset_of(c[i]));
        assert(c[i].subset_of(a[i]));
        assert(a[i] =~= c[i]);
    }
    assert forall|i: int| 0 <= i < b.len() implies b[i] == d[i] by {
        assert(b[i].subset_of(d[i]));
        assert(d[i].subset_of(b[i]));
        assert(b[i] =~= d[i]);
    }
    assert(a =~= c);
    assert(b =~= d);
}

/// What `analyze` returns is the least solution, so the live sets of
/// `block_live` are its sets.
pub proof fn lemma_analysis_is_live_sets(l: Liveness, f: Function)
    requires
        liveness_of(l, f),
        flow_ready(f),
    ensures
        live_sets(f) == (in_sets(l, f), out_sets(l, f)),
        forall|i: int| 0 <= i < f.blocks@.len() ==> #[trigger] block_index(f, f.blocks@[i].id) == i,
        forall|i: int| 0 <= i < f.blocks@.len() ==> #[trigger] block_live(f, i) == within_block(f, l, f.blocks@[i].id),
{
    let w = (in_sets(l, f), out_sets(l, f));
    assert(least_solution(f, w.0, w.1));
    assert(exists|q: (Seq<Set<u32>>, Seq<Set<u32>>)| least_solution(f, q.0, q.1));
    let p = live_sets(f);
    assert(least_solution(f, p.0, p.1));
    lemma_least_solution_unique(f, p.0, p.1, in_sets(l, f), out_sets(l, f));
    lemma_distinct_block_ids(f.blocks@, 0);
    assert forall|i: int| 0 <= i < f.blocks@.len() implies #[trigger] block_index(f, f.blocks@[i].id) == i by {
        lemma_find_block(f.blocks@, f.blocks@[i].id);
        let k = find_block(f.blocks@, f.blocks@[i].id)->0;
        if k < i {
            assert(f.blocks@[k].id != f.blocks@[i].id);
        }
    }
    assert forall|i: int| 0 <= i < f.blocks@.len() implies #[trigger] block_live(f, i) == within_block(f, l, f.blocks@[i].id) by {
        assert(block_index(f, f.blocks@[i].id) == i);
    }
}

/// The elements of `s`, in the set's own iteration order.
pub fn set_to_vec(s: &HashSet<u32>) -> (r: Vec<u32>)
    ensures
        r@.to_set() == s@,
{
    let mut r: Vec<u32> = Vec::new();
    for x in it: s.iter()
        invariant
            forall|v: u32| #[trigger] r@.contains(v) <==> exists|k: int| 0 <= k < it.index() && it.seq().unref()[k] == v,
            it.seq().unref().to_set() == s@,
    {
        let ghost i0 = it.index();
        let ghost r0 = r@;
        r.push(*x);
        proof {
            assert(it.seq().unref()[i0] == *x);
            assert forall|v: u32| #[trigger] r@.contains(v) <==> exists|k: int| 0 <= k < i0 + 1 && it.seq().unref()[k] == v by {
                if r@.contains(v) {
                    let j = choose|j: int| 0 <= j < r@.len() && r@[j] == v;
                    if j < r0.len() {
                        assert(r0[j] == v);
                        assert(r0.contains(v));
                    }
                }
                if exists|k: int| 0 <= k < i0 + 1 && it.seq().unref()[k] == v {
                    let k = choose|k: int| 0 <= k < i0 + 1 && it.seq().unref()[k] == v;
                    if k < i0 {
                        assert(r0.contains(v));
                        let j = choose|j: int| 0 <= j < r0.len() && r0[j] == v;
                        assert(r@[j] == v);
                    } else {
                        assert(r@[r0.len() as int] == v);
                    }
                }
            }
        }
    }
    r
}

} // verus!
