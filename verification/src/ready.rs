//! Deciding whether a module meets what code generation needs of it
//! (`codegen_ready`), so that a caller can check before compiling.

use vstd::prelude::*;
use std::collections::HashSet;
use crate::block::{BasicBlock, Terminator, term_successors};
use crate::codegen::{codegen_ready, defined, func_ready, is_target, owner, owner_index};
use crate::function::{Function, find_block, lemma_find_block};
use crate::inst::{InstKind, Instruction};
use crate::liveness::{block_index, first_incoming, first_incoming_value, flow_ready, inst_uses, mentions, operand_value,
    phi_values, term_targets, term_uses};
use crate::lower::{mentioned, phi_covers};
use crate::module::{Module, str_eq};
use crate::validate::duplicate_block;
use crate::value::{BlockId, ValueId};

verus! {

broadcast use vstd::std_specs::hash::group_hash_axioms;

/// No block of `bs` from index `k` on shares its id with an earlier one.
spec fn distinct_from(bs: Seq<BasicBlock>, k: int) -> bool {
    forall|a: int, b: int| 0 <= a < b < bs.len() && b >= k ==> bs[a].id != bs[b].id
}

proof fn lemma_duplicate_none(bs: Seq<BasicBlock>, k: nat)
    ensures
        (duplicate_block(bs, k) is None) == distinct_from(bs, k as int),
    decreases bs.len() - k,
{
    if k < bs.len() {
        lemma_duplicate_none(bs, k + 1);
        if exists|j: int| 0 <= j < k && bs[j].id == bs[k as int].id {
            let j = choose|j: int| 0 <= j < k && bs[j].id == bs[k as int].id;
            assert(!distinct_from(bs, k as int)) by {
                assert(bs[j].id == bs[k as int].id);
            }
        }
    }
}

/// No two blocks of `bs` share an id.
fn blocks_distinct(bs: &Vec<BasicBlock>) -> (r: bool)
    ensures
        r == (duplicate_block(bs@, 0) is None),
{
    proof { lemma_duplicate_none(bs@, 0); }
    let mut b: usize = 0;
    while b < bs.len()
        invariant
            b <= bs@.len(),
            forall|x: int, y: int| 0 <= x < y < b ==> bs@[x].id != bs@[y].id,
        decreases bs.len() - b,
    {
        let mut a: usize = 0;
        while a < b
            invariant
                a <= b < bs@.len(),
                forall|x: int| 0 <= x < a ==> bs@[x].id != bs@[b as int].id,
            decreases b - a,
        {
            if bs[a].id == bs[b].id {
                proof {
                    assert(bs@[a as int].id == bs@[b as int].id);
                    assert(!distinct_from(bs@, 0));
                    lemma_duplicate_none(bs@, 0);
                }
                return false;
            }
            a += 1;
        }
        b += 1;
    }
    assert(distinct_from(bs@, 0));
    true
}

/// Every jump or branch target of `f` is one of its blocks.
fn targets_known(f: &Function) -> (r: bool)
    ensures
        r == forall|i: int, k: int|
            0 <= i < f.blocks@.len() && (#[trigger] f.blocks@[i]).terminator is Some && 0 <= k < term_successors(
                f.blocks@[i].terminator->0).len() ==> find_block(f.blocks@, #[trigger] term_successors(f.blocks@[i].terminator->0)[k])
                is Some,
{
    let mut i: usize = 0;
    while i < f.blocks.len()
        invariant
            i <= f.blocks@.len(),
            forall|i2: int, k: int|
                0 <= i2 < i && (#[trigger] f.blocks@[i2]).terminator is Some && 0 <= k < term_successors(
                    f.blocks@[i2].terminator->0).len() ==> find_block(f.blocks@, #[trigger] term_successors(f.blocks@[i2].terminator->0)[k])
                    is Some,
        decreases f.blocks.len() - i,
    {
        match &f.blocks[i].terminator {
            Some(t) => {
                let succ = t.successors();
                let mut k: usize = 0;
                while k < succ.len()
                    invariant
                        k <= succ@.len(),
                        i < f.blocks@.len(),
                        f.blocks@[i as int].terminator == Some(*t),
                        succ@ == term_successors(*t),
                        forall|k2: int| 0 <= k2 < k ==> find_block(f.blocks@, #[trigger] succ@[k2]) is Some,
                    decreases succ.len() - k,
                {
                    if f.block(succ[k]).is_none() {
                        proof {
                            let bi = f.blocks@[i as int];
                            assert(term_successors(bi.terminator->0)[k as int] == succ@[k as int]);
                            assert(find_block(f.blocks@, term_successors(bi.terminator->0)[k as int]) is None);
                        }
                        return false;
                    }
                    k += 1;
                }
            },
            None => {},
        }
        i += 1;
    }
    true
}

/// Exactly what liveness needs of `f`.
fn flow_check(f: &Function) -> (r: bool)
    ensures
        r == flow_ready(*f),
{
    if f.blocks.len() > 0xffff_ffff {
        return false;
    }
    blocks_distinct(&f.blocks) && targets_known(f)
}

/// `v` is a parameter of `f` or defined by one of its instructions.
pub open spec fn value_known(f: Function, v: u32) -> bool {
    v < f.params@.len() || defined(f, v)
}

/// Every value number some instruction of `f` defines.
fn defined_ids(f: &Function) -> (ids: HashSet<u32>)
    ensures
        forall|v: u32| #[trigger] ids@.contains(v) == defined(*f, v),
{
    let mut ids: HashSet<u32> = HashSet::new();
    let mut i: usize = 0;
    while i < f.blocks.len()
        invariant
            i <= f.blocks@.len(),
            forall|v: u32| #[trigger] ids@.contains(v) == exists|i2: int, k2: int| 0 <= i2 < i
                && 0 <= k2 < f.blocks@[i2].instructions@.len() && (#[trigger] f.blocks@[i2].instructions@[k2]).id.0 == v,
        decreases f.blocks.len() - i,
    {
        let b = &f.blocks[i];
        let mut k: usize = 0;
        while k < b.instructions.len()
            invariant
                i < f.blocks@.len(),
                *b == f.blocks@[i as int],
                k <= b.instructions@.len(),
                forall|v: u32| #[trigger] ids@.contains(v) == ((exists|i2: int, k2: int| 0 <= i2 < i
                    && 0 <= k2 < f.blocks@[i2].instructions@.len() && (#[trigger] f.blocks@[i2].instructions@[k2]).id.0 == v)
                    || exists|k2: int| 0 <= k2 < k && (#[trigger] b.instructions@[k2]).id.0 == v),
            decreases b.instructions.len() - k,
        {
            ids.insert(b.instructions[k].id.0);
            proof {
                assert forall|v: u32| #[trigger] ids@.contains(v) == ((exists|i2: int, k2: int| 0 <= i2 < i
                    && 0 <= k2 < f.blocks@[i2].instructions@.len() && (#[trigger] f.blocks@[i2].instructions@[k2]).id.0 == v)
                    || exists|k2: int| 0 <= k2 < k + 1 && (#[trigger] b.instructions@[k2]).id.0 == v) by {
                    if v == b.instructions@[k as int].id.0 {
                        assert(b.instructions@[k as int].id.0 == v);
                    }
                }
            }
            k += 1;
        }
        proof {
            assert forall|v: u32| #[trigger] ids@.contains(v) == exists|i2: int, k2: int| 0 <= i2 < i + 1
                && 0 <= k2 < f.blocks@[i2].instructions@.len() && (#[trigger] f.blocks@[i2].instructions@[k2]).id.0 == v by {
                if exists|k2: int| 0 <= k2 < k && (#[trigger] b.instructions@[k2]).id.0 == v {
                    let k2 = choose|k2: int| 0 <= k2 < k && (#[trigger] b.instructions@[k2]).id.0 == v;
                    assert(f.blocks@[i as int].instructions@[k2].id.0 == v);
                }
                if exists|i2: int, k2: int| 0 <= i2 < i + 1
                    && 0 <= k2 < f.blocks@[i2].instructions@.len() && (#[trigger] f.blocks@[i2].instructions@[k2]).id.0 == v {
                    let (i2, k2) = choose|i2: int, k2: int| 0 <= i2 < i + 1
                        && 0 <= k2 < f.blocks@[i2].instructions@.len() && (#[trigger] f.blocks@[i2].instructions@[k2]).id.0 == v;
                    if i2 == i {
                        assert(b.instructions@[k2].id.0 == v);
                    }
                }
            }
        }
        i += 1;
    }
    ids
}

fn known(f: &Function, ids: &HashSet<u32>, v: ValueId) -> (r: bool)
    requires
        forall|u: u32| #[trigger] ids@.contains(u) == defined(*f, u),
    ensures
        r == value_known(*f, v.0),
{
    (v.0 as usize) < f.params.len() || ids.contains(&v.0)
}

/// Where `from`'s first entry in `inc` sits.
pub open spec fn first_pos(inc: Seq<(BlockId, ValueId)>, from: BlockId) -> int
    decreases inc.len(),
{
    if inc.len() == 0 || inc[0].0 == from {
        0
    } else {
        1 + first_pos(inc.drop_first(), from)
    }
}

pub(crate) proof fn lemma_first_incoming(inc: Seq<(BlockId, ValueId)>, from: BlockId)
    ensures
        match first_incoming(inc, from) {
            Some(x) => 0 <= first_pos(inc, from) < inc.len() && inc[first_pos(inc, from)] == (from, x)
                && forall|q: int| 0 <= q < first_pos(inc, from) ==> inc[q].0 != from,
            None => forall|q: int| 0 <= q < inc.len() ==> inc[q].0 != from,
        },
    decreases inc.len(),
{
    if inc.len() > 0 && inc[0].0 != from {
        lemma_first_incoming(inc.drop_first(), from);
        assert forall|q: int| 1 <= q < inc.len() implies inc[q] == inc.drop_first()[q - 1] by {}
    }
}

/// A value the phis of `insts` take along an edge is some phi's first entry
/// for that edge, and every such entry is one of them.
pub(crate) proof fn lemma_phi_values(insts: Seq<Instruction>, from: BlockId, v: u32)
    ensures
        phi_values(insts, from).contains(v) == exists|k: int| 0 <= k < insts.len()
            && (#[trigger] insts[k]).kind is Phi && first_incoming(insts[k].kind->Phi_0@, from) == Some(ValueId(v)),
    decreases insts.len(),
{
    if insts.len() > 0 {
        let rest = insts.drop_last();
        lemma_phi_values(rest, from, v);
        assert forall|k: int| 0 <= k < rest.len() implies rest[k] == insts[k] by {}
        let last = insts.last();
        if exists|k: int| 0 <= k < insts.len() && (#[trigger] insts[k]).kind is Phi
            && first_incoming(insts[k].kind->Phi_0@, from) == Some(ValueId(v)) {
            let k = choose|k: int| 0 <= k < insts.len() && (#[trigger] insts[k]).kind is Phi
                && first_incoming(insts[k].kind->Phi_0@, from) == Some(ValueId(v));
            if k < insts.len() - 1 {
                assert(rest[k] == insts[k]);
                assert(phi_values(rest, from).contains(v));
            } else {
                assert(insts[k] == last);
            }
        }
        match last.kind {
            InstKind::Phi(inc) => match first_incoming(inc@, from) {
                Some(x) => {
                    assert(phi_values(insts, from) == phi_values(rest, from).push(x.0));
                    if x.0 == v {
                        assert(insts[insts.len() - 1] == last);
                        assert(phi_values(insts, from)[phi_values(rest, from).len() as int] == v);
                    }
                    if phi_values(insts, from).contains(v) && x.0 != v {
                        let j = choose|j: int| 0 <= j < phi_values(insts, from).len() && phi_values(insts, from)[j] == v;
                        assert(phi_values(rest, from)[j] == v);
                    }
                    if phi_values(rest, from).contains(v) {
                        let j = choose|j: int| 0 <= j < phi_values(rest, from).len() && phi_values(rest, from)[j] == v;
                        assert(phi_values(insts, from)[j] == v);
                    }
                },
                None => {},
            },
            _ => {},
        }
    }
}

/// Every value block `b` reads, along any path, is known in `f`.
spec fn reads_known(f: Function, b: BasicBlock) -> bool {
    forall|v: u32| #[trigger] mentions(b, v) ==> value_known(f, v)
}

/// The first entries of phi `inc` name known values.
spec fn phi_entries_known(f: Function, inc: Seq<(BlockId, ValueId)>) -> bool {
    forall|p: int| 0 <= p < inc.len() && first_incoming(inc, (#[trigger] inc[p]).0) == Some(inc[p].1) ==> value_known(f, inc[p].1.0)
}

fn phi_check(f: &Function, ids: &HashSet<u32>, inc: &Vec<(BlockId, ValueId)>) -> (r: bool)
    requires
        forall|u: u32| #[trigger] ids@.contains(u) == defined(*f, u),
    ensures
        r == phi_entries_known(*f, inc@),
{
    let mut p: usize = 0;
    while p < inc.len()
        invariant
            p <= inc@.len(),
            forall|u: u32| #[trigger] ids@.contains(u) == defined(*f, u),
            forall|q: int| 0 <= q < p && first_incoming(inc@, (#[trigger] inc@[q]).0) == Some(inc@[q].1) ==> value_known(*f, inc@[q].1.0),
        decreases inc.len() - p,
    {
        match first_incoming_value(inc, inc[p].0) {
            Some(x) => {
                if x == inc[p].1 && !known(f, ids, x) {
                    return false;
                }
            },
            None => {},
        }
        p += 1;
    }
    true
}

fn block_reads_known(f: &Function, ids: &HashSet<u32>, b: &BasicBlock) -> (r: bool)
    requires
        forall|u: u32| #[trigger] ids@.contains(u) == defined(*f, u),
    ensures
        r == reads_known(*f, *b),
{
    let ghost insts = b.instructions@;
    let mut k: usize = 0;
    while k < b.instructions.len()
        invariant
            insts == b.instructions@,
            k <= insts.len(),
            forall|u: u32| #[trigger] ids@.contains(u) == defined(*f, u),
            forall|k2: int, x: ValueId| 0 <= k2 < k && #[trigger] inst_uses(insts[k2].kind).contains(x) ==> value_known(*f, x.0),
            forall|k2: int| 0 <= k2 < k && (#[trigger] insts[k2]).kind is Phi ==> phi_entries_known(*f, insts[k2].kind->Phi_0@),
        decreases b.instructions.len() - k,
    {
        let inst = &b.instructions[k];
        match &inst.kind {
            InstKind::Bin(_, a, c) => {
                if !known(f, ids, *a) || !known(f, ids, *c) {
                    proof {
                        let u = inst_uses(b.instructions@[k as int].kind);
                        assert(u[0] == *a && u[1] == *c);
                        if !value_known(*f, a.0) {
                            assert(u.contains(ValueId(a.0)));
                            assert(mentions(*b, a.0));
                        } else {
                            assert(u.contains(ValueId(c.0)));
                            assert(mentions(*b, c.0));
                        }
                    }
                    return false;
                }
                proof {
                    assert forall|x: ValueId| #[trigger] inst_uses(inst.kind).contains(x) implies value_known(*f, x.0) by {
                        assert(inst_uses(inst.kind) =~= seq![*a, *c]);
                    }
                }
            },
            InstKind::Un(_, a) => {
                if !known(f, ids, *a) {
                    proof {
                        let u = inst_uses(b.instructions@[k as int].kind);
                        assert(u[0] == *a);
                        assert(u.contains(ValueId(a.0)));
                        assert(mentions(*b, a.0));
                    }
                    return false;
                }
                proof {
                    assert forall|x: ValueId| #[trigger] inst_uses(inst.kind).contains(x) implies value_known(*f, x.0) by {
                        assert(inst_uses(inst.kind) =~= seq![*a]);
                    }
                }
            },
            InstKind::Call { args, .. } => {
                let mut j: usize = 0;
                while j < args.len()
                    invariant
                        j <= args@.len(),
                        k < insts.len(),
                        insts == b.instructions@,
                        inst_uses(insts[k as int].kind) == args@,
                        forall|u: u32| #[trigger] ids@.contains(u) == defined(*f, u),
                        forall|j2: int| 0 <= j2 < j ==> value_known(*f, (#[trigger] args@[j2]).0),
                    decreases args.len() - j,
                {
                    if !known(f, ids, args[j]) {
                        proof {
                            let u = inst_uses(insts[k as int].kind);
                            assert(u[j as int] == args@[j as int]);
                            assert(u.contains(ValueId(args@[j as int].0)));
                            assert(mentions(*b, args@[j as int].0));
                        }
                        return false;
                    }
                    j += 1;
                }
            },
            InstKind::Phi(inc) => {
                if !phi_check(f, ids, inc) {
                    proof {
                        let p = choose|p: int| 0 <= p < inc@.len() && first_incoming(inc@, (#[trigger] inc@[p]).0) == Some(inc@[p].1)
                            && !value_known(*f, inc@[p].1.0);
                        lemma_phi_values(insts, inc@[p].0, inc@[p].1.0);
                        assert(insts[k as int].kind is Phi);
                        assert(phi_values(insts, inc@[p].0).contains(inc@[p].1.0));
                        assert(mentions(*b, inc@[p].1.0));
                    }
                    return false;
                }
            },
            _ => {},
        }
        k += 1;
    }
    match &b.terminator {
        Some(Terminator::Branch { cond, .. }) => {
            if !known(f, ids, *cond) {
                proof {
                    assert(term_uses(b.terminator)[0] == *cond);
                    assert(mentions(*b, cond.0));
                }
                return false;
            }
        },
        Some(Terminator::Return(Some(v))) => {
            if !known(f, ids, *v) {
                proof {
                    assert(term_uses(b.terminator)[0] == *v);
                    assert(mentions(*b, v.0));
                }
                return false;
            }
        },
        _ => {},
    }
    proof {
        assert forall|v: u32| #[trigger] mentions(*b, v) implies value_known(*f, v) by {
            if exists|k2: int| 0 <= k2 < insts.len() && #[trigger] inst_uses(insts[k2].kind).contains(ValueId(v)) {
                let k2 = choose|k2: int| 0 <= k2 < insts.len() && #[trigger] inst_uses(insts[k2].kind).contains(ValueId(v));
                assert(inst_uses(insts[k2].kind).contains(ValueId(v)));
            } else if term_uses(b.terminator).contains(ValueId(v)) {
                match b.terminator {
                    Some(Terminator::Branch { cond, .. }) => { assert(term_uses(b.terminator) =~= seq![cond]); },
                    Some(Terminator::Return(Some(x))) => { assert(term_uses(b.terminator) =~= seq![x]); },
                    _ => { assert(term_uses(b.terminator) =~= Seq::<ValueId>::empty()); },
                }
            } else {
                let from = choose|from: BlockId| #[trigger] phi_values(insts, from).contains(v);
                lemma_phi_values(insts, from, v);
                let k2 = choose|k2: int| 0 <= k2 < insts.len() && (#[trigger] insts[k2]).kind is Phi
                    && first_incoming(insts[k2].kind->Phi_0@, from) == Some(ValueId(v));
                let inc = insts[k2].kind->Phi_0@;
                lemma_first_incoming(inc, from);
                let p = first_pos(inc, from);
                assert(inc[p] == (from, ValueId(v)));
                assert(phi_entries_known(*f, inc));
            }
        }
    }
    true
}

/// Every phi of the block that edge `k` out of block `i` enters has an
/// entry for block `i`.
spec fn edge_covered(f: Function, i: int, k: int) -> bool {
    let t = block_index(f, term_targets(f.blocks@[i])[k]);
    forall|q: int| 0 <= q < f.blocks@[t].instructions@.len() ==> #[trigger] phi_covers(f.blocks@[t].instructions@[q], f.blocks@[i].id)
}

spec fn phis_covered(f: Function) -> bool {
    forall|i: int, k: int, q: int| 0 <= i < f.blocks@.len() && 0 <= k < term_targets(f.blocks@[i]).len()
        && 0 <= q < f.blocks@[block_index(f, #[trigger] term_targets(f.blocks@[i])[k])].instructions@.len()
        ==> phi_covers(#[trigger] f.blocks@[block_index(f, term_targets(f.blocks@[i])[k])].instructions@[q], f.blocks@[i].id)
}

fn edge_check(f: &Function, i: usize, k: usize, t: BlockId) -> (r: bool)
    requires
        flow_ready(*f),
        i < f.blocks@.len(),
        k < term_targets(f.blocks@[i as int]).len(),
        t == term_targets(f.blocks@[i as int])[k as int],
    ensures
        r == edge_covered(*f, i as int, k as int),
{
    let ghost b = f.blocks@[i as int];
    proof {
        assert(b.terminator is Some);
        assert(term_targets(b) == term_successors(b.terminator->0));
        lemma_find_block(f.blocks@, t);
    }
    let from = f.blocks[i].id;
    let tb = f.block(t).unwrap();
    let ghost ti = block_index(*f, t);
    assert(*tb == f.blocks@[ti]);
    let mut q: usize = 0;
    while q < tb.instructions.len()
        invariant
            q <= tb.instructions@.len(),
            *tb == f.blocks@[ti],
            ti == block_index(*f, t),
            t == term_targets(f.blocks@[i as int])[k as int],
            from == f.blocks@[i as int].id,
            forall|q2: int| 0 <= q2 < q ==> #[trigger] phi_covers(tb.instructions@[q2], from),
        decreases tb.instructions.len() - q,
    {
        match &tb.instructions[q].kind {
            InstKind::Phi(inc) => {
                if first_incoming_value(inc, from).is_none() {
                    assert(!phi_covers(f.blocks@[ti].instructions@[q as int], f.blocks@[i as int].id));
                    return false;
                }
            },
            _ => {},
        }
        q += 1;
    }
    true
}

/// Every phi has an entry for every edge into its block.
fn phis_check(f: &Function) -> (r: bool)
    requires
        flow_ready(*f),
    ensures
        r == phis_covered(*f),
{
    let mut i: usize = 0;
    while i < f.blocks.len()
        invariant
            flow_ready(*f),
            i <= f.blocks@.len(),
            forall|i2: int, k: int| 0 <= i2 < i && 0 <= k < term_targets(f.blocks@[i2]).len() ==> #[trigger] edge_covered(*f, i2, k),
        decreases f.blocks.len() - i,
    {
        let targets: Vec<BlockId> = match &f.blocks[i].terminator {
            Some(t) => t.successors(),
            None => Vec::new(),
        };
        assert(targets@ == term_targets(f.blocks@[i as int]));
        let mut k: usize = 0;
        while k < targets.len()
            invariant
                flow_ready(*f),
                i < f.blocks@.len(),
                k <= targets@.len(),
                targets@ == term_targets(f.blocks@[i as int]),
                forall|i2: int, k2: int| 0 <= i2 < i && 0 <= k2 < term_targets(f.blocks@[i2]).len() ==> #[trigger] edge_covered(*f, i2, k2),
                forall|k2: int| 0 <= k2 < k ==> #[trigger] edge_covered(*f, i as int, k2),
            decreases targets.len() - k,
        {
            if !edge_check(f, i, k, targets[k]) {
                proof {
                    let t = block_index(*f, term_targets(f.blocks@[i as int])[k as int]);
                    let q = choose|q: int| 0 <= q < f.blocks@[t].instructions@.len()
                        && !(#[trigger] phi_covers(f.blocks@[t].instructions@[q], f.blocks@[i as int].id));
                    assert(!phis_covered(*f));
                }
                return false;
            }
            k += 1;
        }
        i += 1;
    }
    proof {
        assert forall|i2: int, k: int, q: int| 0 <= i2 < f.blocks@.len() && 0 <= k < term_targets(f.blocks@[i2]).len()
            && 0 <= q < f.blocks@[block_index(*f, #[trigger] term_targets(f.blocks@[i2])[k])].instructions@.len()
            implies phi_covers(#[trigger] f.blocks@[block_index(*f, term_targets(f.blocks@[i2])[k])].instructions@[q], f.blocks@[i2].id) by {
            assert(edge_covered(*f, i2, k));
        }
    }
    true
}

/// Exactly whether `f` is ready for code generation.
fn func_check(f: &Function) -> (r: bool)
    ensures
        r == func_ready(*f),
{
    if !flow_check(f) || f.blocks.len() == 0 {
        return false;
    }
    let mut i: usize = 0;
    while i < f.blocks.len()
        invariant
            i <= f.blocks@.len(),
            forall|i2: int| 0 <= i2 < i ==> (#[trigger] f.blocks@[i2]).terminator is Some,
        decreases f.blocks.len() - i,
    {
        if f.blocks[i].terminator.is_none() {
            return false;
        }
        i += 1;
    }
    let ids = defined_ids(f);
    let mut j: usize = 0;
    while j < f.blocks.len()
        invariant
            j <= f.blocks@.len(),
            forall|u: u32| #[trigger] ids@.contains(u) == defined(*f, u),
            forall|j2: int| 0 <= j2 < j ==> reads_known(*f, #[trigger] f.blocks@[j2]),
        decreases f.blocks.len() - j,
    {
        if !block_reads_known(f, &ids, &f.blocks[j]) {
            proof {
                let v = choose|v: u32| #[trigger] mentions(f.blocks@[j as int], v) && !value_known(*f, v);
                assert(operand_value(*f, v));
                assert(mentioned(*f, v));
            }
            return false;
        }
        j += 1;
    }
    proof {
        assert forall|v: u32| #[trigger] mentioned(*f, v) implies v < f.params@.len() || defined(*f, v) by {
            if operand_value(*f, v) {
                let i2 = choose|i2: int| 0 <= i2 < f.blocks@.len() && #[trigger] mentions(f.blocks@[i2], v);
                assert(reads_known(*f, f.blocks@[i2]));
            }
        }
    }
    phis_check(f)
}

/// Whether every block `f` jumps to is a block of `g`.
fn targets_within(f: &Function, g: &Function) -> (r: bool)
    ensures
        r == forall|x: BlockId| #[trigger] is_target(*f, x) ==> find_block(g.blocks@, x) is Some,
{
    reveal(is_target);
    let mut b: usize = 0;
    while b < f.blocks.len()
        invariant
            b <= f.blocks@.len(),
            forall|b2: int, k: int| 0 <= b2 < b && 0 <= k < term_targets(f.blocks@[b2]).len()
                ==> find_block(g.blocks@, #[trigger] term_targets(f.blocks@[b2])[k]) is Some,
        decreases f.blocks.len() - b,
    {
        match &f.blocks[b].terminator {
            Some(t) => {
                let succ = t.successors();
                let mut k: usize = 0;
                while k < succ.len()
                    invariant
                        k <= succ@.len(),
                        b < f.blocks@.len(),
                        succ@ == term_targets(f.blocks@[b as int]),
                        forall|k2: int| 0 <= k2 < k ==> find_block(g.blocks@, #[trigger] succ@[k2]) is Some,
                    decreases succ.len() - k,
                {
                    if g.block(succ[k]).is_none() {
                        reveal(is_target);
                        assert(term_targets(f.blocks@[b as int])[k as int] == succ@[k as int]);
                        assert(is_target(*f, succ@[k as int]));
                        return false;
                    }
                    k += 1;
                }
                assert forall|k2: int| 0 <= k2 < term_targets(f.blocks@[b as int]).len()
                    implies find_block(g.blocks@, #[trigger] term_targets(f.blocks@[b as int])[k2]) is Some by {
                    assert(succ@[k2] == term_targets(f.blocks@[b as int])[k2]);
                }
            },
            None => {
                assert(term_targets(f.blocks@[b as int]).len() == 0);
            },
        }
        b += 1;
    }
    true
}

/// Exactly whether `module` meets what `compile_module` needs: every
/// function ready, and every block a function jumps to also a block of its
/// owner (the last function of its name).
pub fn is_codegen_ready(module: &Module) -> (r: bool)
    ensures
        r == codegen_ready(*module),
{
    let fs = &module.functions;
    let mut i: usize = 0;
    while i < fs.len()
        invariant
            i <= fs@.len(),
            fs@ == module.functions@,
            forall|i2: int| 0 <= i2 < i ==> func_ready(#[trigger] fs@[i2]),
            forall|i2: int, x: BlockId| 0 <= i2 < i && #[trigger] is_target(module.functions@[i2], x)
                ==> find_block(module.functions@[owner(*module, i2)].blocks@, x) is Some,
        decreases fs.len() - i,
    {
        if !func_check(&fs[i]) {
            assert(!func_ready(module.functions@[i as int]));
            return false;
        }
        let w = owner_index(module, i);
        if !targets_within(&fs[i], &fs[w]) {
            return false;
        }
        i += 1;
    }
    true
}

} // verus!
