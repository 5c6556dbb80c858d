//! Incremental SSA construction without dominance frontiers (Braun et al.,
//! "Simple and Efficient Construction of Static Single Assignment Form").
//! The parser drives this builder directly while reading tokens: a variable
//! read resolves against the definition reaching the current block; a block
//! whose predecessors are not all known yet gets a placeholder phi, filled
//! in when the block is sealed.

use vstd::prelude::*;
use crate::block::{BasicBlock, Terminator};
use crate::function::{Function, edges_into, preds_of};
use crate::inst::{InstKind, Instruction};
use crate::liveness::{inst_uses, term_uses};
use crate::module::str_eq;
use crate::types::Type;
use crate::value::{BlockId, ValueId};

verus! {

pub struct SsaBuilder {
    func: Function,
    next_value: u32,
    /// Per block (by index), the current value bound to each variable name.
    current_def: Vec<Vec<(String, ValueId)>>,
    sealed: Vec<bool>,
    /// Per block, the phis created for reads before the block was sealed,
    /// with the variable they stand for and their type.
    incomplete_phis: Vec<Vec<(String, ValueId, Type)>>,
    /// Per block, its predecessors so far, one entry per edge.
    preds: Vec<Vec<BlockId>>,
    /// The phis whose entries are being filled in.
    parked: Ghost<Set<ValueId>>,
}

/// Whether `defs` binds `var`.
pub open spec fn binds(defs: Seq<(String, ValueId)>, var: Seq<char>) -> bool {
    exists|i: int| 0 <= i < defs.len() && (#[trigger] defs[i]).0@ == var
}

/// The value `defs` binds `var` to: that of its first entry for `var`.
pub open spec fn binding(defs: Seq<(String, ValueId)>, var: Seq<char>) -> Option<ValueId>
    decreases defs.len(),
{
    if defs.len() == 0 {
        None
    } else {
        match binding(defs.drop_last(), var) {
            Some(v) => Some(v),
            None => if defs.last().0@ == var { Some(defs.last().1) } else { None },
        }
    }
}

/// A binding is found exactly where an entry for the variable is.
pub proof fn lemma_binding_binds(defs: Seq<(String, ValueId)>, var: Seq<char>)
    ensures
        binding(defs, var) is Some <==> binds(defs, var),
    decreases defs.len(),
{
    if defs.len() > 0 {
        lemma_binding_binds(defs.drop_last(), var);
        if binds(defs.drop_last(), var) {
            let i = choose|i: int| 0 <= i < defs.drop_last().len() && (#[trigger] defs.drop_last()[i]).0@ == var;
            assert(defs[i].0@ == var);
        }
        if binds(defs, var) && !binds(defs.drop_last(), var) {
            let i = choose|i: int| 0 <= i < defs.len() && (#[trigger] defs[i]).0@ == var;
            if i < defs.len() - 1 {
                assert(defs.drop_last()[i].0@ == var);
            }
        }
        if defs.last().0@ == var {
            assert(defs[defs.len() - 1].0@ == var);
        }
    }
}

/// A binding found in a prefix is the binding of the whole.
proof fn lemma_binding_prefix(defs: Seq<(String, ValueId)>, var: Seq<char>, k: int)
    requires
        0 <= k <= defs.len(),
        binding(defs.take(k), var) is Some,
    ensures
        binding(defs, var) == binding(defs.take(k), var),
    decreases defs.len() - k,
{
    if k < defs.len() {
        assert(defs.take(k + 1).drop_last() =~= defs.take(k));
        lemma_binding_prefix(defs, var, k + 1);
    } else {
        assert(defs.take(k) =~= defs);
    }
}

/// Entries with the same names, and the same values wherever the name is
/// `var`, bind `var` alike.
proof fn lemma_binding_same(a: Seq<(String, ValueId)>, b: Seq<(String, ValueId)>, var: Seq<char>)
    requires
        a.len() == b.len(),
        forall|i: int| 0 <= i < a.len() ==> (#[trigger] a[i]).0@ == b[i].0@,
        forall|i: int| 0 <= i < a.len() && a[i].0@ == var ==> (#[trigger] a[i]).1 == b[i].1,
    ensures
        binding(a, var) == binding(b, var),
    decreases a.len(),
{
    if a.len() > 0 {
        lemma_binding_same(a.drop_last(), b.drop_last(), var);
        assert(a.last() == a[a.len() - 1]);
        assert(b.last() == b[b.len() - 1]);
    }
}

/// The value the last parameter named `var` among `params` stands for.
pub open spec fn param_binding(params: Seq<(String, Type)>, var: Seq<char>) -> Option<ValueId>
    decreases params.len(),
{
    if params.len() == 0 {
        None
    } else if params.last().0@ == var {
        Some(ValueId((params.len() - 1) as u32))
    } else {
        param_binding(params.drop_last(), var)
    }
}

/// The number of blocks among the first `k` whose bindings lack `var`.
pub open spec fn unbound_count(cd: Seq<Vec<(String, ValueId)>>, var: Seq<char>, k: nat) -> nat
    decreases k,
{
    if k == 0 || k > cd.len() {
        0
    } else {
        unbound_count(cd, var, (k - 1) as nat) + if binds(cd[k - 1]@, var) { 0nat } else { 1nat }
    }
}

pub proof fn lemma_unbound_count_update(cd: Seq<Vec<(String, ValueId)>>, cd2: Seq<Vec<(String, ValueId)>>, var: Seq<char>, b: int, k: nat)
    requires
        cd.len() == cd2.len(),
        k <= cd.len(),
        0 <= b < cd.len(),
        forall|j: int| 0 <= j < cd.len() && j != b ==> cd2[j] == cd[j],
        binds(cd[b]@, var) ==> binds(cd2[b]@, var),
    ensures
        unbound_count(cd2, var, k) <= unbound_count(cd, var, k),
        (b < k && !binds(cd[b]@, var) && binds(cd2[b]@, var)) ==> unbound_count(cd2, var, k) < unbound_count(cd, var, k),
    decreases k,
{
    if k > 0 {
        lemma_unbound_count_update(cd, cd2, var, b, (k - 1) as nat);
    }
}

/// If `kind` is a phi, no two of its entries name the same block.
pub open spec fn kind_names_distinct(kind: InstKind) -> bool {
    match kind {
        InstKind::Phi(inc) => forall|a: int, b: int| 0 <= a < b < inc@.len() ==> inc@[a].0 != inc@[b].0,
        _ => true,
    }
}

/// If `inst` is a phi, no two of its entries name the same block.
pub open spec fn phi_names_distinct(inst: Instruction) -> bool {
    kind_names_distinct(inst.kind)
}

/// `v` is one of `f`'s parameters or the value of one of its instructions.
pub open spec fn defines(f: Function, v: ValueId) -> bool {
    (v.0 as int) < f.params@.len() || crate::codegen::defined(f, v.0)
}

/// Every value `kind` reads, phi entries included, is defined in `f`.
pub open spec fn reads_defined(f: Function, kind: InstKind) -> bool {
    &&& forall|k: int| 0 <= k < inst_uses(kind).len() ==> defines(f, #[trigger] inst_uses(kind)[k])
    &&& kind matches InstKind::Phi(inc) ==> forall|k: int| 0 <= k < inc@.len() ==> defines(f, (#[trigger] inc@[k]).1)
}

/// The value `t` reads, if any, is defined in `f`.
pub open spec fn term_reads_defined(f: Function, t: Option<Terminator>) -> bool {
    forall|k: int| 0 <= k < term_uses(t).len() ==> defines(f, #[trigger] term_uses(t)[k])
}

/// Every value read anywhere in `f` is defined in it.
pub open spec fn reads_all_defined(f: Function) -> bool {
    &&& forall|b: int, q: int| 0 <= b < f.blocks@.len() && 0 <= q < f.blocks@[b].instructions@.len()
        ==> reads_defined(f, (#[trigger] f.blocks@[b].instructions@[q]).kind)
    &&& forall|b: int| 0 <= b < f.blocks@.len() ==> term_reads_defined(f, (#[trigger] f.blocks@[b]).terminator)
}

/// Instructions only added, parameters unchanged: every value `f` defines,
/// `g` defines too.
pub proof fn lemma_defines_grow(f: Function, g: Function)
    requires
        g.params@ == f.params@,
        g.blocks@.len() >= f.blocks@.len(),
        forall|b: int| 0 <= b < f.blocks@.len() ==> (#[trigger] g.blocks@[b]).instructions@.len() >= f.blocks@[b].instructions@.len(),
        forall|b: int, i: int| 0 <= b < f.blocks@.len() && 0 <= i < f.blocks@[b].instructions@.len()
            ==> (#[trigger] g.blocks@[b].instructions@[i]).id == f.blocks@[b].instructions@[i].id,
    ensures
        forall|v: ValueId| defines(f, v) ==> #[trigger] defines(g, v),
{
    assert forall|v: ValueId| defines(f, v) implies #[trigger] defines(g, v) by {
        if !((v.0 as int) < f.params@.len()) {
            let (b, i) = choose|b: int, i: int| 0 <= b < f.blocks@.len() && 0 <= i < f.blocks@[b].instructions@.len()
                && (#[trigger] f.blocks@[b].instructions@[i]).id.0 == v.0;
            assert(g.blocks@[b].instructions@[i].id.0 == v.0);
        }
    }
}

/// The number of instructions in `bs`.
pub open spec fn inst_count(bs: Seq<BasicBlock>) -> nat
    decreases bs.len(),
{
    if bs.len() == 0 {
        0
    } else {
        inst_count(bs.drop_last()) + bs.last().instructions@.len()
    }
}

/// No instruction of `f` defines a parameter's value, and no two define the
/// same value.
pub open spec fn values_unique(f: Function) -> bool {
    &&& forall|b: int, q: int| 0 <= b < f.blocks@.len() && 0 <= q < f.blocks@[b].instructions@.len()
        ==> ((#[trigger] f.blocks@[b].instructions@[q]).id.0 as int) >= f.params@.len()
    &&& forall|b1: int, q1: int, b2: int, q2: int|
        0 <= b1 < f.blocks@.len() && 0 <= q1 < f.blocks@[b1].instructions@.len()
        && 0 <= b2 < f.blocks@.len() && 0 <= q2 < f.blocks@[b2].instructions@.len() && (b1 != b2 || q1 != q2)
        ==> (#[trigger] f.blocks@[b1].instructions@[q1]).id != (#[trigger] f.blocks@[b2].instructions@[q2]).id
}

/// Block `bi` gained `d` instructions and every other block kept its count.
pub proof fn lemma_inst_count_delta(bs: Seq<BasicBlock>, bs2: Seq<BasicBlock>, bi: int, d: nat)
    requires
        bs2.len() == bs.len(),
        0 <= bi < bs.len(),
        forall|b: int| 0 <= b < bs.len() && b != bi ==> (#[trigger] bs2[b]).instructions@.len() == bs[b].instructions@.len(),
        bs2[bi].instructions@.len() == bs[bi].instructions@.len() + d,
    ensures
        inst_count(bs2) == inst_count(bs) + d,
    decreases bs.len(),
{
    let n = bs.len() - 1;
    assert(bs2.drop_last().len() == bs.drop_last().len());
    if bi == n {
        lemma_inst_count_same(bs.drop_last(), bs2.drop_last());
    } else {
        lemma_inst_count_delta(bs.drop_last(), bs2.drop_last(), bi, d);
    }
}

/// Blocks with the same numbers of instructions hold as many in all.
pub proof fn lemma_inst_count_same(bs: Seq<BasicBlock>, bs2: Seq<BasicBlock>)
    requires
        bs2.len() == bs.len(),
        forall|b: int| 0 <= b < bs.len() ==> (#[trigger] bs2[b]).instructions@.len() == bs[b].instructions@.len(),
    ensures
        inst_count(bs2) == inst_count(bs),
    decreases bs.len(),
{
    if bs.len() > 0 {
        lemma_inst_count_same(bs.drop_last(), bs2.drop_last());
    }
}

/// Block `x` of `f` ends in a jump or branch to block `s`.
pub open spec fn has_edge(f: Function, x: int, s: int) -> bool {
    &&& f.blocks@[x].terminator is Some
    &&& crate::block::term_successors(f.blocks@[x].terminator->0).contains(BlockId(s as u32))
}

/// Block `s` of `f` holds no phi.
pub open spec fn no_phi(f: Function, s: int) -> bool {
    forall|q: int| 0 <= q < f.blocks@[s].instructions@.len() ==> !((#[trigger] f.blocks@[s].instructions@[q]).kind is Phi)
}

/// The blocks a phi's entries name, in order.
pub open spec fn names(inc: Seq<(BlockId, ValueId)>) -> Seq<BlockId> {
    Seq::new(inc.len(), |i: int| inc[i].0)
}

/// Some entry of `list` is for value `id`.
pub open spec fn listed(list: Seq<(String, ValueId, Type)>, id: ValueId) -> bool {
    exists|j: int| 0 <= j < list.len() && (#[trigger] list[j]).1 == id
}

/// In blocks numbered by position, `x` is among the predecessors of
/// `target` exactly when block `x` ends in an edge to it.
pub proof fn lemma_preds_of_member(bs: Seq<BasicBlock>, target: BlockId, x: BlockId)
    requires
        bs.len() <= u32::MAX,
        forall|i: int| 0 <= i < bs.len() ==> (#[trigger] bs[i]).id == BlockId(i as u32),
    ensures
        preds_of(bs, target).contains(x) <==> (x.0 < bs.len() && edges_into(bs[x.0 as int], target).len() > 0),
    decreases bs.len(),
{
    if bs.len() > 0 {
        let rest = bs.drop_last();
        assert forall|i: int| 0 <= i < rest.len() implies (#[trigger] rest[i]).id == BlockId(i as u32) by {
            assert(rest[i] == bs[i]);
        }
        lemma_preds_of_member(rest, target, x);
        let e = edges_into(bs.last(), target);
        assert(forall|i: int| 0 <= i < e.len() ==> #[trigger] e[i] == bs.last().id);
        assert(bs.last().id == BlockId((bs.len() - 1) as u32));
        let p = preds_of(bs, target);
        assert(p == preds_of(rest, target) + e);
        if p.contains(x) {
            let k = choose|k: int| 0 <= k < p.len() && p[k] == x;
            if k >= preds_of(rest, target).len() {
                assert(e[k - preds_of(rest, target).len()] == x);
            } else {
                assert(preds_of(rest, target)[k] == x);
            }
        }
        if x.0 < bs.len() && edges_into(bs[x.0 as int], target).len() > 0 {
            if x.0 == bs.len() - 1 {
                assert(p[preds_of(rest, target).len() as int] == e[0]);
            } else {
                assert(rest[x.0 as int] == bs[x.0 as int]);
                let k = choose|k: int| 0 <= k < preds_of(rest, target).len() && preds_of(rest, target)[k] == x;
                assert(p[k] == x);
            }
        }
    }
}

/// With no branch naming one block twice, blocks numbered by position list
/// each predecessor once.
pub proof fn lemma_preds_of_unique(bs: Seq<BasicBlock>, target: BlockId)
    requires
        bs.len() <= u32::MAX,
        forall|i: int| 0 <= i < bs.len() ==> (#[trigger] bs[i]).id == BlockId(i as u32),
        forall|i: int| 0 <= i < bs.len() ==> ((#[trigger] bs[i]).terminator matches Some(Terminator::Branch { then_block, else_block, .. })
            ==> then_block != else_block),
    ensures
        preds_of(bs, target).no_duplicates(),
        forall|k: int| 0 <= k < preds_of(bs, target).len() ==> (#[trigger] preds_of(bs, target)[k]).0 < bs.len(),
    decreases bs.len(),
{
    if bs.len() > 0 {
        let rest = bs.drop_last();
        assert forall|i: int| 0 <= i < rest.len() implies (#[trigger] rest[i]).id == BlockId(i as u32) by {
            assert(rest[i] == bs[i]);
        }
        assert forall|i: int| 0 <= i < rest.len() implies ((#[trigger] rest[i]).terminator matches Some(Terminator::Branch { then_block, else_block, .. })
            ==> then_block != else_block) by {
            assert(rest[i] == bs[i]);
        }
        lemma_preds_of_unique(rest, target);
        let e = edges_into(bs.last(), target);
        let r = preds_of(rest, target);
        assert(e.len() <= 1);
        assert(forall|i: int| 0 <= i < e.len() ==> #[trigger] e[i] == bs.last().id);
        assert(bs.last().id == BlockId((bs.len() - 1) as u32));
        let p = preds_of(bs, target);
        assert(p == r + e);
        assert forall|a: int, b: int| 0 <= a < b < p.len() implies p[a] != p[b] by {
            if b >= r.len() {
                if a >= r.len() {
                    assert(false);
                } else {
                    assert(p[a] == r[a]);
                    assert(r[a].0 < rest.len());
                }
            } else {
                assert(p[a] == r[a] && p[b] == r[b]);
            }
        }
        assert forall|k: int| 0 <= k < p.len() implies (#[trigger] p[k]).0 < bs.len() by {
            if k >= r.len() {
                assert(p[k] == e[k - r.len()]);
            } else {
                assert(p[k] == r[k]);
            }
        }
    }
}

/// A block ends in an edge to `t` exactly when its edges into `t` are some.
pub proof fn lemma_has_edge_edges(f: Function, x: int, t: int)
    requires
        0 <= x < f.blocks@.len(),
        0 <= t <= u32::MAX,
    ensures
        has_edge(f, x, t) <==> edges_into(f.blocks@[x], BlockId(t as u32)).len() > 0,
{
    let tb = BlockId(t as u32);
    match f.blocks@[x].terminator {
        Some(Terminator::Jump(j)) => {
            assert(crate::block::term_successors(Terminator::Jump(j))[0] == j);
        },
        Some(Terminator::Branch { cond, then_block, else_block }) => {
            let term = Terminator::Branch { cond, then_block, else_block };
            assert(crate::block::term_successors(term)[0] == then_block);
            assert(crate::block::term_successors(term)[1] == else_block);
            if crate::block::term_successors(term).contains(tb) {
                let k = choose|k: int| 0 <= k < crate::block::term_successors(term).len() && crate::block::term_successors(term)[k] == tb;
                assert(k == 0 || k == 1);
            }
        },
        _ => {},
    }
}

/// A phi of block `b` of `f` has one entry per predecessor of `b`, each
/// naming one of them.
pub open spec fn phi_matches_preds(f: Function, b: int, inst: Instruction) -> bool {
    inst.kind matches InstKind::Phi(inc) ==> {
        &&& inc@.len() == preds_of(f.blocks@, BlockId(b as u32)).len()
        &&& forall|e: int| 0 <= e < inc@.len() ==> preds_of(f.blocks@, BlockId(b as u32)).contains(#[trigger] inc@[e].0)
    }
}

/// A return carries a value exactly when the function has a return type.
pub open spec fn returns_fit(ret_ty: Option<Type>, t: Option<Terminator>) -> bool {
    t matches Some(Terminator::Return(v)) ==> (v is Some <==> ret_ty is Some)
}

/// Instructions rewritten in place, ids kept: as many instructions, and
/// still no value defined twice.
pub proof fn lemma_ids_same(f: Function, g: Function)
    requires
        g.params@ == f.params@,
        g.blocks@.len() == f.blocks@.len(),
        forall|b: int| 0 <= b < f.blocks@.len() ==> (#[trigger] g.blocks@[b]).instructions@.len() == f.blocks@[b].instructions@.len(),
        forall|b: int, q: int| 0 <= b < f.blocks@.len() && 0 <= q < f.blocks@[b].instructions@.len()
            ==> (#[trigger] g.blocks@[b].instructions@[q]).id == f.blocks@[b].instructions@[q].id,
    ensures
        inst_count(g.blocks@) == inst_count(f.blocks@),
        values_unique(f) ==> values_unique(g),
{
    lemma_inst_count_same(f.blocks@, g.blocks@);
    if values_unique(f) {
        assert forall|b: int, q: int| 0 <= b < g.blocks@.len() && 0 <= q < g.blocks@[b].instructions@.len()
            implies ((#[trigger] g.blocks@[b].instructions@[q]).id.0 as int) >= g.params@.len() by {
            assert(f.blocks@[b].instructions@[q].id == g.blocks@[b].instructions@[q].id);
        }
        assert forall|b1: int, q1: int, b2: int, q2: int|
            0 <= b1 < g.blocks@.len() && 0 <= q1 < g.blocks@[b1].instructions@.len()
            && 0 <= b2 < g.blocks@.len() && 0 <= q2 < g.blocks@[b2].instructions@.len() && (b1 != b2 || q1 != q2)
            implies (#[trigger] g.blocks@[b1].instructions@[q1]).id != (#[trigger] g.blocks@[b2].instructions@[q2]).id by {
            assert(f.blocks@[b1].instructions@[q1].id == g.blocks@[b1].instructions@[q1].id);
            assert(f.blocks@[b2].instructions@[q2].id == g.blocks@[b2].instructions@[q2].id);
            assert(f.blocks@[b1].instructions@[q1].id != f.blocks@[b2].instructions@[q2].id);
        }
    }
}

/// Reads defined in `f` stay defined in `g` when `g` defines all `f` does.
pub proof fn lemma_reads_kept(f: Function, g: Function)
    requires
        forall|v: ValueId| defines(f, v) ==> #[trigger] defines(g, v),
    ensures
        forall|k: InstKind| reads_defined(f, k) ==> #[trigger] reads_defined(g, k),
        forall|t: Option<Terminator>| term_reads_defined(f, t) ==> #[trigger] term_reads_defined(g, t),
{
    assert forall|k: InstKind| reads_defined(f, k) implies #[trigger] reads_defined(g, k) by {
        assert forall|i: int| 0 <= i < inst_uses(k).len() implies defines(g, #[trigger] inst_uses(k)[i]) by {
            assert(defines(f, inst_uses(k)[i]));
        }
        if let InstKind::Phi(inc) = k {
            assert forall|i: int| 0 <= i < inc@.len() implies defines(g, (#[trigger] inc@[i]).1) by {
                assert(defines(f, inc@[i].1));
            }
        }
    }
    assert forall|t: Option<Terminator>| term_reads_defined(f, t) implies #[trigger] term_reads_defined(g, t) by {
        assert forall|i: int| 0 <= i < term_uses(t).len() implies defines(g, #[trigger] term_uses(t)[i]) by {
            assert(defines(f, term_uses(t)[i]));
        }
    }
}

/// Block `b` holds an instruction defining `v`.
pub open spec fn defined_in(bs: Seq<BasicBlock>, b: int, v: ValueId) -> bool {
    exists|i: int| 0 <= i < bs[b].instructions@.len() && (#[trigger] bs[b].instructions@[i]).id == v
}

/// Every parked phi is an instruction of its block.
pub open spec fn phis_present(bs: Seq<BasicBlock>, inc: Seq<Vec<(String, ValueId, Type)>>) -> bool {
    forall|b: int, j: int| 0 <= b < inc.len() && 0 <= j < inc[b]@.len() ==> defined_in(bs, b, (#[trigger] inc[b]@[j]).1)
}

/// Appending instructions and rewriting their kinds keeps every value defined.
pub proof fn lemma_defined_in_kept(bs: Seq<BasicBlock>, bs2: Seq<BasicBlock>, b: int, v: ValueId)
    requires
        0 <= b < bs.len(),
        b < bs2.len(),
        bs2[b].instructions@.len() >= bs[b].instructions@.len(),
        forall|i: int| 0 <= i < bs[b].instructions@.len() ==> (#[trigger] bs2[b].instructions@[i]).id == bs[b].instructions@[i].id,
        defined_in(bs, b, v),
    ensures
        defined_in(bs2, b, v),
{
    let i = choose|i: int| 0 <= i < bs[b].instructions@.len() && (#[trigger] bs[b].instructions@[i]).id == v;
    assert(bs2[b].instructions@[i].id == v);
}

impl SsaBuilder {
    /// The builder's internal consistency.
    pub closed spec fn wf(&self) -> bool {
        let n = self.func.blocks@.len();
        &&& 1 <= n <= u32::MAX
        &&& forall|i: int| 0 <= i < n ==> (#[trigger] self.func.blocks@[i]).id == BlockId(i as u32)
        &&& self.func.entry == BlockId(0)
        &&& self.current_def@.len() == n
        &&& self.sealed@.len() == n
        &&& self.incomplete_phis@.len() == n
        &&& self.preds@.len() == n
        &&& self.sealed@[0]
        &&& forall|b: int| 0 <= b < n && #[trigger] self.sealed@[b] && self.preds@[b]@.len() == 1 ==> self.preds@[b]@[0].0 < b
        &&& forall|b: int, j: int| 0 <= b < n && 0 <= j < self.preds@[b]@.len() ==> (#[trigger] self.preds@[b]@[j]).0 < n
        &&& phis_present(self.func.blocks@, self.incomplete_phis@)
        &&& forall|b: int, k: int| 0 <= b < n && (#[trigger] self.func.blocks@[b]).terminator is Some
            && 0 <= k < crate::block::term_successors(self.func.blocks@[b].terminator->0).len()
            ==> (#[trigger] crate::block::term_successors(self.func.blocks@[b].terminator->0)[k]).0 < n
        &&& forall|b: int, x: int, y: int| 0 <= b < n && 0 <= x < y < self.preds@[b]@.len()
            ==> (#[trigger] self.preds@[b]@[x]) != (#[trigger] self.preds@[b]@[y])
        &&& forall|b: int, q: int| 0 <= b < n && 0 <= q < self.func.blocks@[b].instructions@.len()
            ==> phi_names_distinct(#[trigger] self.func.blocks@[b].instructions@[q])
        &&& reads_all_defined(self.func)
        &&& forall|b: int, j: int| 0 <= b < n && 0 <= j < self.current_def@[b]@.len()
            ==> defines(self.func, (#[trigger] self.current_def@[b]@[j]).1)
        &&& forall|b: int| 0 <= b < n ==> returns_fit(self.func.ret_ty, (#[trigger] self.func.blocks@[b]).terminator)
        &&& forall|x: int, t: int| 0 <= x < n && 0 <= t < n && #[trigger] has_edge(self.func, x, t)
            ==> self.preds@[t]@.contains(BlockId(x as u32))
        &&& forall|t: int, j: int| 0 <= t < n && 0 <= j < self.preds@[t]@.len()
            && !has_edge(self.func, (#[trigger] self.preds@[t]@[j]).0 as int, t)
            ==> self.sealed@[t] && self.preds@[t]@.len() == 1 && no_phi(self.func, t)
        &&& forall|x: int| 0 <= x < n ==> ((#[trigger] self.func.blocks@[x]).terminator matches Some(Terminator::Branch { then_block, else_block, .. })
            ==> then_block != else_block)
        &&& forall|b: int| 0 <= b < n && (#[trigger] self.incomplete_phis@[b])@.len() > 0 ==> !no_phi(self.func, b)
        &&& forall|b: int, j: int| 0 <= b < n && 0 <= j < self.incomplete_phis@[b]@.len()
            ==> binds(self.current_def@[b]@, (#[trigger] self.incomplete_phis@[b]@[j]).0@)
        &&& self.bounded() ==> {
            &&& forall|b: int, q: int| 0 <= b < n && 0 <= q < self.func.blocks@[b].instructions@.len()
                ==> self.phi_ok(b, #[trigger] self.func.blocks@[b].instructions@[q])
            &&& forall|v: ValueId| #[trigger] self.parked@.contains(v) ==> v.0 < self.next_value
            &&& forall|b: int, j: int| 0 <= b < n && 0 <= j < self.incomplete_phis@[b]@.len()
                ==> (#[trigger] self.incomplete_phis@[b]@[j]).1.0 < self.next_value
        }
        &&& self.func.params@.len() + inst_count(self.func.blocks@) <= u32::MAX ==> {
            &&& self.next_value as int == self.func.params@.len() + inst_count(self.func.blocks@)
            &&& forall|b: int, q: int| 0 <= b < n && 0 <= q < self.func.blocks@[b].instructions@.len()
                ==> (#[trigger] self.func.blocks@[b].instructions@[q]).id.0 < self.next_value
            &&& values_unique(self.func)
        }
    }

    /// Fewer values than `u32` numbers: value numbers have not wrapped.
    pub closed spec fn bounded(&self) -> bool {
        self.func.params@.len() + inst_count(self.func.blocks@) <= u32::MAX
    }

    /// A phi of block `b` names exactly its block's recorded predecessors
    /// (once the block is sealed), or awaits them.
    spec fn phi_ok(&self, b: int, inst: Instruction) -> bool {
        self.settled(b, inst) || self.parked@.contains(inst.id)
    }

    /// A phi of a sealed block `b` names its recorded predecessors; one of an
    /// unsealed block has no entries yet and is listed for sealing.
    spec fn settled(&self, b: int, inst: Instruction) -> bool {
        inst.kind matches InstKind::Phi(inc) ==> {
            ||| self.sealed@[b] && names(inc@) == self.preds@[b]@
            ||| !self.sealed@[b] && inc@.len() == 0 && listed(self.incomplete_phis@[b]@, inst.id)
        }
    }

    /// Only the function changed between `self` and `other`.
    pub closed spec fn same_tables(&self, other: &Self) -> bool {
        &&& other.current_def == self.current_def
        &&& other.sealed == self.sealed
        &&& other.incomplete_phis == self.incomplete_phis
        &&& other.preds == self.preds
    }

    /// The phis of block `b` awaiting its sealing.
    pub closed spec fn incomplete_at(&self, b: int) -> Seq<(String, ValueId, Type)> {
        self.incomplete_phis@[b]@
    }

    /// Blocks in which `var` was bound are left as they were.
    pub open spec fn bound_blocks_kept(&self, other: &Self, var: Seq<char>) -> bool {
        forall|b: int| 0 <= b < self.n_blocks() && self.bound_in(b, var)
            ==> #[trigger] other.func_view().blocks@[b] == self.func_view().blocks@[b] && other.incomplete_at(b) == self.incomplete_at(b)
    }

    /// The value number the next instruction gets.
    pub closed spec fn next_id(&self) -> u32 {
        self.next_value
    }

    /// The phis whose entries are being filled in.
    pub closed spec fn parked_set(&self) -> Set<ValueId> {
        self.parked@
    }

    /// Every value `self` defines, `other` defines too.
    pub open spec fn grows_defs(&self, other: &Self) -> bool {
        forall|v: ValueId| defines(self.func_view(), v) ==> #[trigger] defines(other.func_view(), v)
    }

    proof fn lemma_grow(a: &Self, b: &Self)
        requires
            a.keeps_ids(b),
            b.func.params == a.func.params,
        ensures
            a.grows_defs(b),
    {
        lemma_defines_grow(a.func, b.func);
    }

    /// The function built so far.
    pub closed spec fn func_view(&self) -> Function {
        self.func
    }

    pub open spec fn n_blocks(&self) -> nat {
        self.func_view().blocks@.len()
    }

    pub closed spec fn sealed_at(&self, b: int) -> bool {
        self.sealed@[b]
    }

    /// The predecessors of block `b` recorded so far.
    pub closed spec fn preds_at(&self, b: int) -> Seq<BlockId> {
        self.preds@[b]@
    }

    pub closed spec fn unbound(&self, var: Seq<char>) -> nat {
        unbound_count(self.current_def@, var, self.current_def@.len() as nat)
    }

    pub closed spec fn bound_in(&self, b: int, var: Seq<char>) -> bool {
        binds(self.current_def@[b]@, var)
    }

    /// The value `var` is bound to in block `b`, if any.
    pub closed spec fn value_of(&self, b: int, var: Seq<char>) -> Option<ValueId> {
        binding(self.current_def@[b]@, var)
    }

    /// Instruction `q` of block `b` is a phi of type `ty` defining `v`.
    pub open spec fn phi_at(&self, b: int, q: int, v: ValueId, ty: Type) -> bool {
        let insts = self.func_view().blocks@[b].instructions@;
        &&& 0 <= q < insts.len()
        &&& insts[q].id == v
        &&& insts[q].ty == ty
        &&& insts[q].kind is Phi
    }

    /// The phi at instruction `q` of block `b` has one entry per recorded
    /// predecessor, in order, each the value `var` is bound to there.
    pub open spec fn phi_reads(&self, b: int, q: int, var: Seq<char>) -> bool {
        self.func_view().blocks@[b].instructions@[q].kind matches InstKind::Phi(inc) && {
            &&& names(inc@) == self.preds_at(b)
            &&& forall|k: int| 0 <= k < inc@.len() ==> self.value_of((#[trigger] inc@[k]).0.0 as int, var) == Some(inc@[k].1)
        }
    }

    /// A variable is bound in a block exactly when it has a value there.
    pub proof fn lemma_value_of(&self, b: int, var: Seq<char>)
        ensures
            self.value_of(b, var) is Some <==> self.bound_in(b, var),
    {
        lemma_binding_binds(self.current_def@[b]@, var);
    }

    /// Every recorded predecessor of block `s` ends in an edge to it.
    pub open spec fn clean_at(&self, s: int) -> bool {
        forall|j: int| 0 <= j < self.preds_at(s).len() ==> #[trigger] has_edge(self.func_view(), self.preds_at(s)[j].0 as int, s)
    }

    /// A sealed block with one predecessor and no phi still has none in `other`.
    pub open spec fn phi_free_kept(&self, other: &Self) -> bool {
        forall|b: int| 0 <= b < self.n_blocks() && self.sealed_at(b) && self.preds_at(b).len() == 1 && no_phi(self.func_view(), b)
            ==> #[trigger] no_phi(other.func_view(), b)
    }

    /// What every operation but `terminate`, `new_block` and `seal_block` keeps.
    pub open spec fn same_shape(&self, other: &Self) -> bool {
        &&& other.n_blocks() == self.n_blocks()
        &&& forall|b: int| 0 <= b < self.n_blocks() ==> #[trigger] other.sealed_at(b) == self.sealed_at(b)
        &&& forall|b: int| 0 <= b < self.n_blocks() ==> #[trigger] other.preds_at(b) == self.preds_at(b)
        &&& forall|b: int| 0 <= b < self.n_blocks() ==> (#[trigger] other.func_view().blocks@[b]).terminator
            == self.func_view().blocks@[b].terminator
        &&& other.func_view().name == self.func_view().name
        &&& other.func_view().params == self.func_view().params
        &&& other.func_view().ret_ty == self.func_view().ret_ty
        &&& other.func_view().entry == self.func_view().entry
    }

    /// Every instruction of `other` is the one `self` has in its place, or a
    /// phi: the builder adds and fills in phis on its own, nothing else.
    pub open spec fn adds_only_phis(&self, other: &Self) -> bool {
        forall|b: int, q: int| 0 <= b < other.n_blocks() && 0 <= q < other.func_view().blocks@[b].instructions@.len()
            ==> (#[trigger] other.func_view().blocks@[b].instructions@[q]).kind is Phi
                || (b < self.n_blocks() && q < self.func_view().blocks@[b].instructions@.len()
                    && other.func_view().blocks@[b].instructions@[q] == self.func_view().blocks@[b].instructions@[q])
    }

    pub proof fn lemma_adds_only_phis_trans(a: &Self, b: &Self, c: &Self)
        requires
            a.adds_only_phis(b),
            b.adds_only_phis(c),
        ensures
            a.adds_only_phis(c),
    {
        assert forall|x: int, q: int| 0 <= x < c.n_blocks() && 0 <= q < c.func_view().blocks@[x].instructions@.len()
            implies (#[trigger] c.func_view().blocks@[x].instructions@[q]).kind is Phi
                || (x < a.n_blocks() && q < a.func_view().blocks@[x].instructions@.len()
                    && c.func_view().blocks@[x].instructions@[q] == a.func_view().blocks@[x].instructions@[q]) by {
            if !(c.func_view().blocks@[x].instructions@[q].kind is Phi) {
                assert(b.func_view().blocks@[x].instructions@[q] == c.func_view().blocks@[x].instructions@[q]);
            }
        }
    }

    /// Instructions already emitted keep their ids and order.
    pub closed spec fn keeps_ids(&self, other: &Self) -> bool {
        &&& other.func.blocks@.len() >= self.func.blocks@.len()
        &&& forall|b: int| 0 <= b < self.func.blocks@.len() ==> {
            &&& (#[trigger] other.func.blocks@[b]).instructions@.len() >= self.func.blocks@[b].instructions@.len()
            &&& forall|i: int| 0 <= i < self.func.blocks@[b].instructions@.len() ==> (#[trigger] other.func.blocks@[b].instructions@[i]).id
                == self.func.blocks@[b].instructions@[i].id
        }
    }
}


/// One copy of `from` per edge from a block ending in `t` to block `target`.
pub open spec fn term_edges(t: Terminator, from: BlockId, target: BlockId) -> Seq<BlockId> {
    match t {
        Terminator::Jump(x) => if x == target { seq![from] } else { seq![] },
        Terminator::Branch { then_block, else_block, .. } => (if then_block == target { seq![from] } else { seq![] })
            + (if else_block == target { seq![from] } else { seq![] }),
        Terminator::Return(_) => seq![],
    }
}

pub proof fn lemma_term_edges(t: Terminator, from: BlockId, target: BlockId)
    ensures
        (term_edges(t, from, target).len() > 0) == crate::block::term_successors(t).contains(target),
        forall|i: int| 0 <= i < term_edges(t, from, target).len() ==> #[trigger] term_edges(t, from, target)[i] == from,
{
    match t {
        Terminator::Jump(x) => {
            if x == target {
                assert(crate::block::term_successors(t)[0] == target);
            }
        },
        Terminator::Branch { then_block, else_block, .. } => {
            if then_block == target {
                assert(crate::block::term_successors(t)[0] == target);
            }
            if else_block == target {
                assert(crate::block::term_successors(t)[1] == target);
            }
        },
        Terminator::Return(_) => {},
    }
}

/// Binds `var` to `value` in `defs`, replacing an earlier binding of it.
fn bind(defs: &mut Vec<(String, ValueId)>, var: &str, value: ValueId)
    ensures
        binds(final(defs)@, var@),
        binding(final(defs)@, var@) == Some(value),
        forall|w: Seq<char>| w != var@ ==> #[trigger] binding(final(defs)@, w) == binding(old(defs)@, w),
        forall|w: Seq<char>| binds(old(defs)@, w) ==> binds(final(defs)@, w),
        forall|j: int| 0 <= j < final(defs)@.len() ==> (#[trigger] final(defs)@[j]).1 == value
            || exists|i: int| 0 <= i < old(defs)@.len() && old(defs)@[i] == final(defs)@[j],
{
    let mut i: usize = 0;
    while i < defs.len()
        invariant
            0 <= i <= defs@.len(),
            defs@ == old(defs)@,
            forall|j: int| 0 <= j < i ==> defs@[j].0@ != var@,
        decreases defs.len() - i,
    {
        if str_eq(defs[i].0.as_str(), var) {
            let ghost before = defs@;
            defs[i].1 = value;
            assert(defs@[i as int].0 == before[i as int].0);
            assert(binds(defs@, var@)) by { assert(defs@[i as int].0@ == var@); }
            assert forall|w: Seq<char>| binds(old(defs)@, w) implies binds(defs@, w) by {
                let j = choose|j: int| 0 <= j < old(defs)@.len() && (#[trigger] old(defs)@[j]).0@ == w;
                assert(defs@[j].0 == old(defs)@[j].0);
            }
            assert forall|j: int| 0 <= j < defs@.len() implies (#[trigger] defs@[j]).1 == value
                || exists|k: int| 0 <= k < old(defs)@.len() && old(defs)@[k] == defs@[j] by {
                if j != i {
                    assert(old(defs)@[j] == defs@[j]);
                }
            }
            proof {
                assert(defs@.take(i as int) =~= before.take(i as int));
                assert(defs@.take(i as int + 1).drop_last() =~= defs@.take(i as int));
                assert(binding(defs@.take(i as int), var@) is None) by {
                    lemma_binding_binds(defs@.take(i as int), var@);
                }
                assert(defs@.take(i as int + 1).last() == defs@[i as int]);
                lemma_binding_prefix(defs@, var@, i as int + 1);
                assert forall|w: Seq<char>| w != var@ implies #[trigger] binding(defs@, w) == binding(old(defs)@, w) by {
                    assert forall|j: int| 0 <= j < defs@.len() implies (#[trigger] defs@[j]).0@ == old(defs)@[j].0@ by {}
                    assert forall|j: int| 0 <= j < defs@.len() && defs@[j].0@ == w implies (#[trigger] defs@[j]).1 == old(defs)@[j].1 by {}
                    lemma_binding_same(defs@, old(defs)@, w);
                }
            }
            return;
        }
        i += 1;
    }
    defs.push((var.to_owned(), value));
    assert(defs@[defs@.len() - 1].0@ == var@);
    proof {
        assert(defs@.drop_last() =~= old(defs)@);
        assert(binding(old(defs)@, var@) is None) by {
            lemma_binding_binds(old(defs)@, var@);
        }
    }
    assert forall|w: Seq<char>| binds(old(defs)@, w) implies binds(defs@, w) by {
        let j = choose|j: int| 0 <= j < old(defs)@.len() && (#[trigger] old(defs)@[j]).0@ == w;
        assert(defs@[j] == old(defs)@[j]);
    }
    assert forall|j: int| 0 <= j < defs@.len() implies (#[trigger] defs@[j]).1 == value
        || exists|k: int| 0 <= k < old(defs)@.len() && old(defs)@[k] == defs@[j] by {
        if j < old(defs)@.len() {
            assert(old(defs)@[j] == defs@[j]);
        }
    }
}

/// The value bound to `var` in `defs`, if any.
fn lookup(defs: &Vec<(String, ValueId)>, var: &str) -> (r: Option<ValueId>)
    ensures
        r == binding(defs@, var@),
        r is Some <==> binds(defs@, var@),
        r matches Some(v) ==> exists|j: int| 0 <= j < defs@.len() && (#[trigger] defs@[j]).1 == v,
{
    proof { lemma_binding_binds(defs@, var@); }
    let mut i: usize = 0;
    while i < defs.len()
        invariant
            0 <= i <= defs@.len(),
            forall|j: int| 0 <= j < i ==> defs@[j].0@ != var@,
        decreases defs.len() - i,
    {
        if str_eq(defs[i].0.as_str(), var) {
            proof {
                lemma_binding_binds(defs@.take(i as int), var@);
                assert(defs@.take(i as int + 1).drop_last() =~= defs@.take(i as int));
                assert(defs@.take(i as int + 1).last() == defs@[i as int]);
                lemma_binding_prefix(defs@, var@, i as int + 1);
            }
            return Some(defs[i].1);
        }
        i += 1;
    }
    None
}

impl SsaBuilder {
    /// Starts building a function. The entry block (block 0) exists from the
    /// start and is sealed at once: nothing can jump back into it. Parameters
    /// are the values `0..params.len()`.
    pub fn new(name: String, params: Vec<(String, Type)>, ret_ty: Option<Type>) -> (b: Self)
        ensures
            b.wf(),
            b.n_blocks() == 1,
            b.func_view().name == name,
            b.func_view().params == params,
            b.func_view().ret_ty == ret_ty,
            b.func_view().entry == BlockId(0),
            b.func_view().blocks@[0].instructions@.len() == 0,
            b.func_view().blocks@[0].terminator is None,
            b.sealed_at(0),
            b.preds_at(0).len() == 0,
            b.parked_set() == Set::<ValueId>::empty(),
            params@.len() <= u32::MAX ==> b.next_id() as int == params@.len(),
            forall|w: Seq<char>| #[trigger] b.value_of(0, w) == param_binding(params@, w),
    {
        let next_value = params.len() as u32;
        let mut entry_defs: Vec<(String, ValueId)> = Vec::new();
        let mut i: usize = 0;
        while i < params.len()
            invariant
                i <= params@.len(),
                forall|j: int| 0 <= j < entry_defs@.len() ==> ((#[trigger] entry_defs@[j]).1.0 as int) < i,
                forall|w: Seq<char>| #[trigger] binding(entry_defs@, w) == param_binding(params@.take(i as int), w),
            decreases params.len() - i,
        {
            let ghost before = entry_defs@;
            bind(&mut entry_defs, params[i].0.as_str(), ValueId(i as u32));
            proof {
                assert(params@.take(i as int + 1).drop_last() =~= params@.take(i as int));
                assert(params@.take(i as int + 1).last() == params@[i as int]);
                assert forall|w: Seq<char>| #[trigger] binding(entry_defs@, w) == param_binding(params@.take(i as int + 1), w) by {
                    if w != params@[i as int].0@ {
                        assert(binding(entry_defs@, w) == binding(before, w));
                    }
                }
                assert forall|j: int| 0 <= j < entry_defs@.len() implies ((#[trigger] entry_defs@[j]).1.0 as int) < i + 1 by {
                    if entry_defs@[j].1 != ValueId(i as u32) {
                        let k = choose|k: int| 0 <= k < before.len() && before[k] == entry_defs@[j];
                        assert((before[k].1.0 as int) < i);
                    }
                }
            }
            i += 1;
        }
        proof {
            assert(params@.take(params@.len() as int) =~= params@);
        }
        let entry = BlockId(0);
        let mut blocks: Vec<BasicBlock> = Vec::new();
        blocks.push(BasicBlock::new(entry));
        let func = Function { name, params, ret_ty, blocks, entry };
        let mut current_def: Vec<Vec<(String, ValueId)>> = Vec::new();
        current_def.push(entry_defs);
        let mut sealed: Vec<bool> = Vec::new();
        sealed.push(true);
        let mut incomplete_phis: Vec<Vec<(String, ValueId, Type)>> = Vec::new();
        incomplete_phis.push(Vec::new());
        let mut preds: Vec<Vec<BlockId>> = Vec::new();
        preds.push(Vec::new());
        let b = SsaBuilder { func, next_value, current_def, sealed, incomplete_phis, preds, parked: Ghost(Set::empty()) };
        proof {
            assert(b.func.blocks@.drop_last() =~= Seq::<BasicBlock>::empty());
            assert(inst_count(Seq::<BasicBlock>::empty()) == 0);
            assert(b.func.blocks@.last().instructions@.len() == 0);
            assert(inst_count(b.func.blocks@) == 0);
        }
        b
    }

    pub fn entry(&self) -> (b: BlockId)
        ensures
            b == self.func_view().entry,
    {
        self.func.entry
    }

    /// True once `block` has a terminator.
    pub fn is_terminated(&self, block: BlockId) -> (r: bool)
        requires
            self.wf(),
        ensures
            r == (block.0 < self.n_blocks() && self.func_view().blocks@[block.0 as int].terminator is Some),
    {
        proof {
            crate::function::lemma_find_block(self.func.blocks@, block);
            if (block.0 as int) < self.func.blocks@.len() {
                assert(self.func.blocks@[block.0 as int].id == block);
            }
        }
        match self.func.block(block) {
            Some(b) => b.terminator.is_some(),
            None => false,
        }
    }

    /// Appends a new instruction to `block` and returns its value id.
    pub fn emit(&mut self, block: BlockId, ty: Type, kind: InstKind) -> (v: ValueId)
        requires
            old(self).wf(),
            block.0 < old(self).n_blocks(),
            kind_names_distinct(kind),
            reads_defined(old(self).func_view(), kind),
            kind is Phi ==> !old(self).sealed_at(block.0 as int) || old(self).preds_at(block.0 as int).len() != 1,
        ensures
            final(self).wf(),
            old(self).grows_defs(&*final(self)),
            old(self).phi_free_kept(&*final(self)),
            final(self).parked_set() == if kind is Phi { old(self).parked_set().insert(v) } else { old(self).parked_set() },
            v == ValueId(old(self).next_id()),
            final(self).bounded() ==> old(self).bounded(),
            old(self).same_tables(&*final(self)),
            defines(final(self).func_view(), v),
            old(self).same_shape(&*final(self)),
            old(self).keeps_ids(&*final(self)),
            final(self).func_view().blocks@[block.0 as int].instructions@ == old(self).func_view().blocks@[block.0 as int].instructions@.push(
                Instruction { id: v, ty, kind }),
            forall|b: int| 0 <= b < old(self).n_blocks() && b != block.0 ==> #[trigger] final(self).func_view().blocks@[b]
                == old(self).func_view().blocks@[b],
            forall|w: Seq<char>| #[trigger] final(self).unbound(w) == old(self).unbound(w),
            forall|b: int, w: Seq<char>| 0 <= b < old(self).n_blocks() ==> #[trigger] final(self).bound_in(b, w) == old(self).bound_in(b, w),
            kind is Phi ==> old(self).adds_only_phis(&*final(self)),
    {
        let id = ValueId(self.next_value);
        self.next_value = self.next_value.wrapping_add(1);
        let bi = block.0 as usize;
        let is_phi = matches!(kind, InstKind::Phi(_));
        self.func.blocks[bi].instructions.push(Instruction { id, ty, kind });
        if is_phi {
            self.parked = Ghost(self.parked@.insert(id));
        }
        proof {
            assert forall|x: int, t: int| 0 <= x < self.func.blocks@.len() && 0 <= t < self.func.blocks@.len()
                implies has_edge(self.func, x, t) == has_edge(old(self).func, x, t) by {
                assert(self.func.blocks@[x].terminator == old(self).func.blocks@[x].terminator);
            }
            assert forall|t: int| 0 <= t < self.func.blocks@.len() && t != bi && no_phi(old(self).func, t)
                implies #[trigger] no_phi(self.func, t) by {
                assert(self.func.blocks@[t] == old(self).func.blocks@[t]);
            }
            assert forall|b: int| 0 <= b < self.func.blocks@.len() && !no_phi(old(self).func, b) implies !#[trigger] no_phi(self.func, b) by {
                let q = choose|q: int| 0 <= q < old(self).func.blocks@[b].instructions@.len()
                    && (#[trigger] old(self).func.blocks@[b].instructions@[q]).kind is Phi;
                assert(self.func.blocks@[b].instructions@[q] == old(self).func.blocks@[b].instructions@[q]);
            }
            assert(no_phi(old(self).func, bi as int) && !(kind is Phi) ==> no_phi(self.func, bi as int)) by {
                if no_phi(old(self).func, bi as int) && !(kind is Phi) {
                    assert forall|q: int| 0 <= q < self.func.blocks@[bi as int].instructions@.len()
                        implies !((#[trigger] self.func.blocks@[bi as int].instructions@[q]).kind is Phi) by {
                        if q < old(self).func.blocks@[bi as int].instructions@.len() {
                            assert(self.func.blocks@[bi as int].instructions@[q] == old(self).func.blocks@[bi as int].instructions@[q]);
                        }
                    }
                }
            }
            assert forall|b: int, q: int| 0 <= b < self.func.blocks@.len() && 0 <= q < self.func.blocks@[b].instructions@.len()
                implies phi_names_distinct(#[trigger] self.func.blocks@[b].instructions@[q]) by {
                if b != bi || q < old(self).func.blocks@[b].instructions@.len() {
                    assert(self.func.blocks@[b].instructions@[q] == old(self).func.blocks@[b].instructions@[q]);
                }
            }
            assert forall|b: int, j: int| 0 <= b < self.incomplete_phis@.len() && 0 <= j < self.incomplete_phis@[b]@.len()
                implies defined_in(self.func.blocks@, b, (#[trigger] self.incomplete_phis@[b]@[j]).1) by {
                lemma_defined_in_kept(old(self).func.blocks@, self.func.blocks@, b, self.incomplete_phis@[b]@[j].1);
            }
            assert forall|b: int, i: int| 0 <= b < old(self).func.blocks@.len() && 0 <= i < old(self).func.blocks@[b].instructions@.len()
                implies (#[trigger] self.func.blocks@[b].instructions@[i]).id == old(self).func.blocks@[b].instructions@[i].id by {
                assert(self.func.blocks@[b].instructions@[i] == old(self).func.blocks@[b].instructions@[i]);
            }
            lemma_defines_grow(old(self).func, self.func);
            lemma_reads_kept(old(self).func, self.func);
            let last = self.func.blocks@[bi as int].instructions@.len() - 1;
            assert(self.func.blocks@[bi as int].instructions@[last].id.0 == id.0);
            assert(crate::codegen::defined(self.func, id.0));
            assert forall|b: int, q: int| 0 <= b < self.func.blocks@.len() && 0 <= q < self.func.blocks@[b].instructions@.len()
                implies reads_defined(self.func, (#[trigger] self.func.blocks@[b].instructions@[q]).kind) by {
                if b != bi || q < old(self).func.blocks@[b].instructions@.len() {
                    assert(self.func.blocks@[b].instructions@[q] == old(self).func.blocks@[b].instructions@[q]);
                    assert(reads_defined(old(self).func, old(self).func.blocks@[b].instructions@[q].kind));
                }
            }
            assert forall|b: int| 0 <= b < self.func.blocks@.len() implies term_reads_defined(self.func, (#[trigger] self.func.blocks@[b]).terminator) by {
                assert(self.func.blocks@[b].terminator == old(self).func.blocks@[b].terminator);
                assert(term_reads_defined(old(self).func, old(self).func.blocks@[b].terminator));
            }
            assert forall|b: int, j: int| 0 <= b < self.func.blocks@.len() && 0 <= j < self.current_def@[b]@.len()
                implies defines(self.func, (#[trigger] self.current_def@[b]@[j]).1) by {
                assert(defines(old(self).func, self.current_def@[b]@[j].1));
            }
            lemma_inst_count_delta(old(self).func.blocks@, self.func.blocks@, bi as int, 1);
            if self.func.params@.len() + inst_count(self.func.blocks@) <= u32::MAX {
                let n = self.func.blocks@.len();
                let f = self.func;
                assert(old(self).next_value as int == f.params@.len() + inst_count(old(self).func.blocks@));
                assert(self.next_value == old(self).next_value + 1);
                assert forall|b: int, q: int| 0 <= b < n && 0 <= q < f.blocks@[b].instructions@.len()
                    implies (#[trigger] f.blocks@[b].instructions@[q]).id.0 < self.next_value && (f.blocks@[b].instructions@[q].id.0 as int) >= f.params@.len() by {
                    if b != bi || q < old(self).func.blocks@[b].instructions@.len() {
                        assert(f.blocks@[b].instructions@[q] == old(self).func.blocks@[b].instructions@[q]);
                    }
                }
                assert forall|b1: int, q1: int, b2: int, q2: int|
                    0 <= b1 < n && 0 <= q1 < f.blocks@[b1].instructions@.len()
                    && 0 <= b2 < n && 0 <= q2 < f.blocks@[b2].instructions@.len() && (b1 != b2 || q1 != q2)
                    implies (#[trigger] f.blocks@[b1].instructions@[q1]).id != (#[trigger] f.blocks@[b2].instructions@[q2]).id by {
                    let new1 = b1 == bi && q1 == last;
                    let new2 = b2 == bi && q2 == last;
                    if !new1 {
                        assert(f.blocks@[b1].instructions@[q1] == old(self).func.blocks@[b1].instructions@[q1]);
                    }
                    if !new2 {
                        assert(f.blocks@[b2].instructions@[q2] == old(self).func.blocks@[b2].instructions@[q2]);
                    }
                }
            }
        }
        id
    }

    /// Emits a phi with already known incoming values.
    pub fn emit_phi(&mut self, block: BlockId, ty: Type, incoming: Vec<(BlockId, ValueId)>) -> (v: ValueId)
        requires
            old(self).wf(),
            block.0 < old(self).n_blocks(),
            forall|a: int, b: int| 0 <= a < b < incoming@.len() ==> incoming@[a].0 != incoming@[b].0,
            forall|k: int| 0 <= k < incoming@.len() ==> defines(old(self).func_view(), (#[trigger] incoming@[k]).1),
            !old(self).sealed_at(block.0 as int) || old(self).preds_at(block.0 as int).len() != 1,
            old(self).sealed_at(block.0 as int),
            names(incoming@) == old(self).preds_at(block.0 as int),
        ensures
            final(self).wf(),
            old(self).grows_defs(&*final(self)),
            old(self).phi_free_kept(&*final(self)),
            final(self).parked_set() == old(self).parked_set(),
            defines(final(self).func_view(), v),
            old(self).same_shape(&*final(self)),
            old(self).keeps_ids(&*final(self)),
            final(self).func_view().blocks@[block.0 as int].instructions@ == old(self).func_view().blocks@[block.0 as int].instructions@.push(
                Instruction { id: v, ty, kind: InstKind::Phi(incoming) }),
            forall|b: int| 0 <= b < old(self).n_blocks() && b != block.0 ==> #[trigger] final(self).func_view().blocks@[b]
                == old(self).func_view().blocks@[b],
            forall|w: Seq<char>| #[trigger] final(self).unbound(w) == old(self).unbound(w),
            forall|b: int, w: Seq<char>| 0 <= b < old(self).n_blocks() ==> #[trigger] final(self).bound_in(b, w) == old(self).bound_in(b, w),
            old(self).adds_only_phis(&*final(self)),
    {
        let ghost p0 = self.parked@;
        let ghost s0 = *self;
        let ghost inc = incoming;
        let v = self.emit(block, ty, InstKind::Phi(incoming));
        let ghost mid = *self;
        self.parked = Ghost(p0);
        proof {
            assert(self.func == mid.func && self.sealed == mid.sealed && self.preds == mid.preds && self.current_def == mid.current_def
                && self.incomplete_phis == mid.incomplete_phis && self.next_value == mid.next_value);
            assert(forall|w: Seq<char>| #[trigger] self.unbound(w) == mid.unbound(w));
            assert(forall|b: int, w: Seq<char>| #[trigger] self.bound_in(b, w) == mid.bound_in(b, w));
            assert(forall|b: int| #[trigger] self.sealed_at(b) == mid.sealed_at(b));
            assert(forall|b: int| #[trigger] self.preds_at(b) == mid.preds_at(b));
            if self.bounded() {
                assert(mid.bounded());
                assert(s0.bounded());
                let bi = block.0 as int;
                let last = self.func.blocks@[bi].instructions@.len() - 1;
                assert(self.func.blocks@[bi].instructions@[last].id == v);
                assert(values_unique(self.func));
                assert forall|b: int, j: int| 0 <= b < self.func.blocks@.len() && 0 <= j < self.incomplete_phis@[b]@.len()
                    implies (#[trigger] self.incomplete_phis@[b]@[j]).1 != v by {
                    assert(self.incomplete_phis@[b] == s0.incomplete_phis@[b]);
                }
                assert(!p0.contains(v));
                assert forall|b: int, q: int| 0 <= b < self.func.blocks@.len() && 0 <= q < self.func.blocks@[b].instructions@.len()
                    implies self.phi_ok(b, #[trigger] self.func.blocks@[b].instructions@[q]) by {
                    assert(mid.phi_ok(b, self.func.blocks@[b].instructions@[q]));
                    if !(b == bi && q == last) {
                        if self.func.blocks@[b].instructions@[q].kind is Phi {
                            if mid.parked@.contains(self.func.blocks@[b].instructions@[q].id) {
                                assert(self.func.blocks@[b].instructions@[q].id != v) by {
                                    assert(values_unique(self.func));
                                }
                            }
                        }
                    }
                }
            }
        }
        v
    }

    pub proof fn lemma_shape_trans(a: &Self, b: &Self, c: &Self)
        requires
            a.same_shape(b),
            b.same_shape(c),
            a.keeps_ids(b),
            b.keeps_ids(c),
        ensures
            a.same_shape(c),
            a.keeps_ids(c),
    {
        assert forall|x: int| 0 <= x < a.func.blocks@.len() implies {
            &&& (#[trigger] c.func.blocks@[x]).instructions@.len() >= a.func.blocks@[x].instructions@.len()
            &&& forall|i: int| 0 <= i < a.func.blocks@[x].instructions@.len() ==> (#[trigger] c.func.blocks@[x].instructions@[i]).id
                == a.func.blocks@[x].instructions@[i].id
        } by {
            assert(b.func.blocks@[x].instructions@.len() >= a.func.blocks@[x].instructions@.len());
            assert forall|i: int| 0 <= i < a.func.blocks@[x].instructions@.len() implies (#[trigger] c.func.blocks@[x].instructions@[i]).id
                == a.func.blocks@[x].instructions@[i].id by {
                assert(b.func.blocks@[x].instructions@[i].id == a.func.blocks@[x].instructions@[i].id);
            }
        }
    }

    /// Allocates a fresh, empty, unsealed block with no known predecessors.
    pub fn new_block(&mut self) -> (id: BlockId)
        requires
            old(self).wf(),
            old(self).n_blocks() < u32::MAX,
        ensures
            final(self).wf(),
            old(self).grows_defs(&*final(self)),
            old(self).phi_free_kept(&*final(self)),
            final(self).parked_set() == old(self).parked_set(),
            id == BlockId(old(self).n_blocks() as u32),
            final(self).n_blocks() == old(self).n_blocks() + 1,
            final(self).func_view().blocks@ == old(self).func_view().blocks@.push(BasicBlock {
                id,
                instructions: final(self).func_view().blocks@[id.0 as int].instructions,
                terminator: None,
            }),
            final(self).func_view().blocks@[id.0 as int].instructions@.len() == 0,
            !final(self).sealed_at(id.0 as int),
            final(self).preds_at(id.0 as int).len() == 0,
            forall|b: int| 0 <= b < old(self).n_blocks() ==> #[trigger] final(self).sealed_at(b) == old(self).sealed_at(b),
            forall|b: int| 0 <= b < old(self).n_blocks() ==> #[trigger] final(self).preds_at(b) == old(self).preds_at(b),
            final(self).func_view().name == old(self).func_view().name,
            final(self).func_view().params == old(self).func_view().params,
            final(self).func_view().ret_ty == old(self).func_view().ret_ty,
            final(self).func_view().entry == old(self).func_view().entry,
            old(self).keeps_ids(&*final(self)),
            old(self).adds_only_phis(&*final(self)),
    {
        let id = BlockId(self.func.blocks.len() as u32);
        self.func.blocks.push(BasicBlock::new(id));
        self.current_def.push(Vec::new());
        self.sealed.push(false);
        self.incomplete_phis.push(Vec::new());
        self.preds.push(Vec::new());
        proof {
            let n = self.func.blocks@.len();
            assert forall|b: int, j: int| 0 <= b < self.incomplete_phis@.len() && 0 <= j < self.incomplete_phis@[b]@.len()
                implies defined_in(self.func.blocks@, b, (#[trigger] self.incomplete_phis@[b]@[j]).1) by {
                assert(b < n - 1);
                lemma_defined_in_kept(old(self).func.blocks@, self.func.blocks@, b, self.incomplete_phis@[b]@[j].1);
            }
            assert forall|b: int, j: int| 0 <= b < n && 0 <= j < self.preds@[b]@.len() implies (#[trigger] self.preds@[b]@[j]).0 < n by {
                if b < n - 1 {
                    assert(self.preds@[b] == old(self).preds@[b]);
                }
            }
            assert forall|b: int, i: int| 0 <= b < old(self).func.blocks@.len() && 0 <= i < old(self).func.blocks@[b].instructions@.len()
                implies (#[trigger] self.func.blocks@[b].instructions@[i]).id == old(self).func.blocks@[b].instructions@[i].id by {
                assert(self.func.blocks@[b] == old(self).func.blocks@[b]);
            }
            lemma_defines_grow(old(self).func, self.func);
            lemma_reads_kept(old(self).func, self.func);
            assert forall|b: int, q: int| 0 <= b < self.func.blocks@.len() && 0 <= q < self.func.blocks@[b].instructions@.len()
                implies reads_defined(self.func, (#[trigger] self.func.blocks@[b].instructions@[q]).kind) by {
                assert(b < n - 1);
                assert(self.func.blocks@[b] == old(self).func.blocks@[b]);
                assert(reads_defined(old(self).func, old(self).func.blocks@[b].instructions@[q].kind));
            }
            assert forall|b: int| 0 <= b < self.func.blocks@.len() implies term_reads_defined(self.func, (#[trigger] self.func.blocks@[b]).terminator) by {
                if b < n - 1 {
                    assert(self.func.blocks@[b] == old(self).func.blocks@[b]);
                    assert(term_reads_defined(old(self).func, old(self).func.blocks@[b].terminator));
                }
            }
            assert forall|b: int, j: int| 0 <= b < self.func.blocks@.len() && 0 <= j < self.current_def@[b]@.len()
                implies defines(self.func, (#[trigger] self.current_def@[b]@[j]).1) by {
                assert(b < n - 1);
                assert(self.current_def@[b] == old(self).current_def@[b]);
                assert(defines(old(self).func, self.current_def@[b]@[j].1));
            }
            assert(self.func.blocks@.drop_last() =~= old(self).func.blocks@);
            assert(inst_count(self.func.blocks@) == inst_count(old(self).func.blocks@));
            assert forall|x: int, t: int| 0 <= x < n && 0 <= t < n && #[trigger] has_edge(self.func, x, t)
                implies self.preds@[t]@.contains(BlockId(x as u32)) by {
                assert(x < n - 1);
                assert(self.func.blocks@[x] == old(self).func.blocks@[x]);
                if t == n - 1 {
                    let k = choose|k: int| 0 <= k < crate::block::term_successors(self.func.blocks@[x].terminator->0).len()
                        && crate::block::term_successors(self.func.blocks@[x].terminator->0)[k] == BlockId(t as u32);
                    assert(crate::block::term_successors(old(self).func.blocks@[x].terminator->0)[k].0 < n - 1);
                }
                assert(has_edge(old(self).func, x, t));
                assert(self.preds@[t] == old(self).preds@[t]);
            }
            assert forall|t: int, j: int| 0 <= t < n && 0 <= j < self.preds@[t]@.len()
                && !has_edge(self.func, (#[trigger] self.preds@[t]@[j]).0 as int, t)
                implies self.sealed@[t] && self.preds@[t]@.len() == 1 && no_phi(self.func, t) by {
                assert(t < n - 1);
                assert(self.preds@[t] == old(self).preds@[t]);
                let x = self.preds@[t]@[j].0 as int;
                assert(x < n - 1);
                assert(self.func.blocks@[x] == old(self).func.blocks@[x]);
                assert(self.func.blocks@[t] == old(self).func.blocks@[t]);
            }
            if self.func.params@.len() + inst_count(self.func.blocks@) <= u32::MAX {
                let f = self.func;
                assert forall|b: int, q: int| 0 <= b < n && 0 <= q < f.blocks@[b].instructions@.len()
                    implies (#[trigger] f.blocks@[b].instructions@[q]).id.0 < self.next_value && (f.blocks@[b].instructions@[q].id.0 as int) >= f.params@.len() by {
                    assert(b < n - 1);
                    assert(f.blocks@[b] == old(self).func.blocks@[b]);
                }
                assert forall|b1: int, q1: int, b2: int, q2: int|
                    0 <= b1 < n && 0 <= q1 < f.blocks@[b1].instructions@.len()
                    && 0 <= b2 < n && 0 <= q2 < f.blocks@[b2].instructions@.len() && (b1 != b2 || q1 != q2)
                    implies (#[trigger] f.blocks@[b1].instructions@[q1]).id != (#[trigger] f.blocks@[b2].instructions@[q2]).id by {
                    assert(b1 < n - 1 && b2 < n - 1);
                    assert(f.blocks@[b1] == old(self).func.blocks@[b1]);
                    assert(f.blocks@[b2] == old(self).func.blocks@[b2]);
                }
            }
        }
        id
    }

    /// Sets `block`'s terminator and records the edges it creates as
    /// predecessors of its successors.
    pub fn terminate(&mut self, block: BlockId, term: Terminator)
        requires
            old(self).wf(),
            block.0 < old(self).n_blocks(),
            forall|i: int| 0 <= i < crate::block::term_successors(term).len() ==> {
                let s = #[trigger] crate::block::term_successors(term)[i];
                &&& s.0 < old(self).n_blocks()
                &&& !old(self).sealed_at(s.0 as int)
                &&& !old(self).preds_at(s.0 as int).contains(block)
            },
            term matches Terminator::Branch { then_block, else_block, .. } ==> then_block != else_block,
            term_reads_defined(old(self).func_view(), Some(term)),
            returns_fit(old(self).func_view().ret_ty, Some(term)),
            old(self).func_view().blocks@[block.0 as int].terminator matches Some(t0) ==> forall|i: int|
                0 <= i < crate::block::term_successors(t0).len() ==> {
                    let s = #[trigger] crate::block::term_successors(t0)[i];
                    &&& old(self).sealed_at(s.0 as int)
                    &&& old(self).preds_at(s.0 as int).len() == 1
                    &&& no_phi(old(self).func_view(), s.0 as int)
                },
        ensures
            final(self).wf(),
            old(self).grows_defs(&*final(self)),
            old(self).phi_free_kept(&*final(self)),
            final(self).parked_set() == old(self).parked_set(),
            final(self).n_blocks() == old(self).n_blocks(),
            final(self).func_view().blocks@[block.0 as int].terminator == Some(term),
            final(self).func_view().blocks@[block.0 as int].instructions == old(self).func_view().blocks@[block.0 as int].instructions,
            forall|b: int| 0 <= b < old(self).n_blocks() && b != block.0 ==> #[trigger] final(self).func_view().blocks@[b]
                == old(self).func_view().blocks@[b],
            forall|b: int| 0 <= b < old(self).n_blocks() ==> #[trigger] final(self).sealed_at(b) == old(self).sealed_at(b),
            forall|b: int| 0 <= b < old(self).n_blocks() ==> #[trigger] final(self).preds_at(b) == old(self).preds_at(b) + term_edges(
                term, block, BlockId(b as u32)),
            forall|b: int| 0 <= b < old(self).n_blocks() && term_edges(term, block, BlockId(b as u32)).len() == 0
                ==> #[trigger] final(self).preds_at(b) == old(self).preds_at(b),
            term matches Terminator::Jump(t) ==> final(self).preds_at(t.0 as int) == old(self).preds_at(t.0 as int).push(block),
            term matches Terminator::Branch { then_block, else_block, .. } ==> then_block != else_block ==>
                final(self).preds_at(then_block.0 as int) == old(self).preds_at(then_block.0 as int).push(block)
                && final(self).preds_at(else_block.0 as int) == old(self).preds_at(else_block.0 as int).push(block),
            final(self).func_view().name == old(self).func_view().name,
            final(self).func_view().params == old(self).func_view().params,
            final(self).func_view().ret_ty == old(self).func_view().ret_ty,
            final(self).func_view().entry == old(self).func_view().entry,
            old(self).keeps_ids(&*final(self)),
            forall|w: Seq<char>| #[trigger] final(self).unbound(w) == old(self).unbound(w),
            forall|b: int, w: Seq<char>| 0 <= b < old(self).n_blocks() ==> #[trigger] final(self).bound_in(b, w) == old(self).bound_in(b, w),
            old(self).adds_only_phis(&*final(self)),
    {
        let ghost n = self.func.blocks@.len();
        let ghost gterm = term;
        match &term {
            Terminator::Jump(t) => {
                assert(crate::block::term_successors(term)[0] == *t);
                self.preds[t.0 as usize].push(block);
            },
            Terminator::Branch { then_block, else_block, .. } => {
                assert(crate::block::term_successors(term)[0] == *then_block);
                assert(crate::block::term_successors(term)[1] == *else_block);
                self.preds[then_block.0 as usize].push(block);
                self.preds[else_block.0 as usize].push(block);
            },
            Terminator::Return(_) => {},
        }
        let bi = block.0 as usize;
        self.func.blocks[bi].terminator = Some(term);
        proof {
            assert forall|b: int| 0 <= b < n implies #[trigger] self.preds@[b]@ == old(self).preds@[b]@ + term_edges(
                term, block, BlockId(b as u32)) by {
                assert(self.func.blocks@[b].id == BlockId(b as u32));
                assert(old(self).preds@[b]@ + seq![] =~= old(self).preds@[b]@);
                match term {
                    Terminator::Branch { then_block, else_block, .. } => {
                        if then_block.0 == b && else_block.0 == b {
                            assert(old(self).preds@[b]@.push(block).push(block) =~= old(self).preds@[b]@ + (seq![block] + seq![block]));
                        } else if then_block.0 == b {
                            assert(old(self).preds@[b]@.push(block) =~= old(self).preds@[b]@ + (seq![block] + seq![]));
                        } else if else_block.0 == b {
                            assert(old(self).preds@[b]@.push(block) =~= old(self).preds@[b]@ + (seq![] + seq![block]));
                        } else {
                            assert(seq![] + seq![] =~= Seq::<BlockId>::empty());
                        }
                    },
                    Terminator::Jump(t) => {
                        if t.0 == b {
                            assert(old(self).preds@[b]@.push(block) =~= old(self).preds@[b]@ + seq![block]);
                        }
                    },
                    _ => {},
                }
            }
            assert forall|b: int| 0 <= b < n && term_edges(term, block, BlockId(b as u32)).len() == 0
                implies #[trigger] self.preds_at(b) == old(self).preds_at(b) by {
                assert(self.preds_at(b) =~= old(self).preds_at(b));
            }
            match gterm {
                Terminator::Jump(t) => {
                    assert(self.preds_at(t.0 as int) =~= old(self).preds_at(t.0 as int).push(block));
                },
                Terminator::Branch { then_block, else_block, .. } => {
                    if then_block != else_block {
                        assert(self.preds_at(then_block.0 as int) =~= old(self).preds_at(then_block.0 as int).push(block));
                        assert(self.preds_at(else_block.0 as int) =~= old(self).preds_at(else_block.0 as int).push(block));
                    }
                },
                _ => {},
            }
            assert forall|b: int, j: int| 0 <= b < self.incomplete_phis@.len() && 0 <= j < self.incomplete_phis@[b]@.len()
                implies defined_in(self.func.blocks@, b, (#[trigger] self.incomplete_phis@[b]@[j]).1) by {
                lemma_defined_in_kept(old(self).func.blocks@, self.func.blocks@, b, self.incomplete_phis@[b]@[j].1);
            }
            assert forall|b: int, j: int| 0 <= b < n && 0 <= j < self.preds@[b]@.len() implies (#[trigger] self.preds@[b]@[j]).0 < n by {
                assert(self.preds@[b]@ == old(self).preds@[b]@ + term_edges(term, block, BlockId(b as u32)));
                if j >= old(self).preds@[b]@.len() {
                    assert(self.preds@[b]@[j] == block);
                }
            }
            assert forall|b: int| 0 <= b < n && #[trigger] self.sealed@[b] && self.preds@[b]@.len() == 1 implies self.preds@[b]@[0].0 < b by {
                assert(self.preds@[b]@ == old(self).preds@[b]@ + term_edges(term, block, BlockId(b as u32)));
                if term_edges(term, block, BlockId(b as u32)).len() > 0 {
                    match term {
                        Terminator::Branch { then_block, else_block, .. } => {
                            assert(crate::block::term_successors(term)[0] == then_block);
                            assert(crate::block::term_successors(term)[1] == else_block);
                        },
                        Terminator::Jump(t) => {
                            assert(crate::block::term_successors(term)[0] == t);
                        },
                        _ => {},
                    }
                }
            }
            assert forall|b: int, i: int| 0 <= b < old(self).func.blocks@.len() && 0 <= i < old(self).func.blocks@[b].instructions@.len()
                implies (#[trigger] self.func.blocks@[b].instructions@[i]).id == old(self).func.blocks@[b].instructions@[i].id by {
                assert(self.func.blocks@[b].instructions == old(self).func.blocks@[b].instructions);
            }
            lemma_defines_grow(old(self).func, self.func);
            lemma_reads_kept(old(self).func, self.func);
            assert forall|b: int, q: int| 0 <= b < self.func.blocks@.len() && 0 <= q < self.func.blocks@[b].instructions@.len()
                implies reads_defined(self.func, (#[trigger] self.func.blocks@[b].instructions@[q]).kind) by {
                assert(self.func.blocks@[b].instructions == old(self).func.blocks@[b].instructions);
                assert(reads_defined(old(self).func, old(self).func.blocks@[b].instructions@[q].kind));
            }
            assert forall|b: int| 0 <= b < self.func.blocks@.len() implies term_reads_defined(self.func, (#[trigger] self.func.blocks@[b]).terminator) by {
                if b == bi {
                    assert(term_reads_defined(old(self).func, Some(gterm)));
                } else {
                    assert(self.func.blocks@[b] == old(self).func.blocks@[b]);
                    assert(term_reads_defined(old(self).func, old(self).func.blocks@[b].terminator));
                }
            }
            assert forall|b: int, j: int| 0 <= b < self.func.blocks@.len() && 0 <= j < self.current_def@[b]@.len()
                implies defines(self.func, (#[trigger] self.current_def@[b]@[j]).1) by {
                assert(defines(old(self).func, self.current_def@[b]@[j].1));
            }
            lemma_ids_same(old(self).func, self.func);
            assert forall|b: int, q: int| 0 <= b < self.func.blocks@.len() && 0 <= q < self.func.blocks@[b].instructions@.len()
                implies (#[trigger] self.func.blocks@[b].instructions@[q]).id == old(self).func.blocks@[b].instructions@[q].id by {
                assert(self.func.blocks@[b].instructions == old(self).func.blocks@[b].instructions);
            }
            assert(block == BlockId(bi as u32));
            assert forall|t: int| 0 <= t < n implies #[trigger] no_phi(self.func, t) == no_phi(old(self).func, t) by {
                assert(self.func.blocks@[t].instructions == old(self).func.blocks@[t].instructions);
            }
            assert forall|x: int, t: int| 0 <= x < n && 0 <= t < n && #[trigger] has_edge(self.func, x, t)
                implies self.preds@[t]@.contains(BlockId(x as u32)) by {
                lemma_term_edges(gterm, block, BlockId(t as u32));
                let e = term_edges(gterm, block, BlockId(t as u32));
                assert(self.preds@[t]@ == old(self).preds@[t]@ + e);
                if x == bi {
                    assert(e.len() > 0);
                    assert(self.preds@[t]@[old(self).preds@[t]@.len() as int] == e[0]);
                } else {
                    assert(self.func.blocks@[x] == old(self).func.blocks@[x]);
                    assert(has_edge(old(self).func, x, t));
                    let k = choose|k: int| 0 <= k < old(self).preds@[t]@.len() && old(self).preds@[t]@[k] == BlockId(x as u32);
                    assert(self.preds@[t]@[k] == BlockId(x as u32));
                }
            }
            assert forall|t: int, j: int| 0 <= t < n && 0 <= j < self.preds@[t]@.len()
                && !has_edge(self.func, (#[trigger] self.preds@[t]@[j]).0 as int, t)
                implies self.sealed@[t] && self.preds@[t]@.len() == 1 && no_phi(self.func, t) by {
                lemma_term_edges(gterm, block, BlockId(t as u32));
                let e = term_edges(gterm, block, BlockId(t as u32));
                assert(self.preds@[t]@ == old(self).preds@[t]@ + e);
                let ol = old(self).preds@[t]@.len();
                if j < ol {
                    let x = old(self).preds@[t]@[j].0 as int;
                    assert(self.preds@[t]@[j] == old(self).preds@[t]@[j]);
                    if has_edge(old(self).func, x, t) {
                        if x != bi {
                            assert(self.func.blocks@[x] == old(self).func.blocks@[x]);
                        }
                        assert(x == bi);
                        let t0 = old(self).func.blocks@[bi as int].terminator->0;
                        let k = choose|k: int| 0 <= k < crate::block::term_successors(t0).len()
                            && crate::block::term_successors(t0)[k] == BlockId(t as u32);
                        assert(crate::block::term_successors(t0)[k] == BlockId(t as u32));
                        assert(!crate::block::term_successors(gterm).contains(BlockId(t as u32)));
                        assert(e.len() == 0);
                    } else {
                        assert(old(self).sealed@[t] && old(self).preds@[t]@.len() == 1);
                        if e.len() > 0 {
                            let k = choose|k: int| 0 <= k < crate::block::term_successors(gterm).len()
                                && crate::block::term_successors(gterm)[k] == BlockId(t as u32);
                            assert(!old(self).sealed_at(crate::block::term_successors(gterm)[k].0 as int));
                        }
                        assert(e.len() == 0);
                    }
                } else {
                    assert(self.preds@[t]@[j] == e[j - ol]);
                    assert(e.len() > 0);
                    assert(has_edge(self.func, bi as int, t));
                }
            }
        }
    }

    /// Binds `var` to `value` in `block`.
    pub fn write_variable(&mut self, var: &str, block: BlockId, value: ValueId)
        requires
            old(self).wf(),
            block.0 < old(self).n_blocks(),
            defines(old(self).func_view(), value),
        ensures
            final(self).wf(),
            old(self).same_shape(&*final(self)),
            old(self).keeps_ids(&*final(self)),
            final(self).func_view() == old(self).func_view(),
            final(self).parked_set() == old(self).parked_set(),
            final(self).bounded() == old(self).bounded(),
            forall|b: int| #[trigger] final(self).incomplete_at(b) == old(self).incomplete_at(b),
            final(self).bound_in(block.0 as int, var@),
            forall|b: int, w: Seq<char>| 0 <= b < old(self).n_blocks() && old(self).bound_in(b, w) ==> #[trigger] final(self).bound_in(b, w),
            forall|b: int, w: Seq<char>| 0 <= b < old(self).n_blocks() && b != block.0 ==> #[trigger] final(self).bound_in(b, w) == old(self).bound_in(b, w),
            forall|w: Seq<char>| #[trigger] final(self).unbound(w) <= old(self).unbound(w),
            !old(self).bound_in(block.0 as int, var@) ==> final(self).unbound(var@) < old(self).unbound(var@),
            final(self).value_of(block.0 as int, var@) == Some(value),
            forall|b: int, w: Seq<char>| 0 <= b < old(self).n_blocks() && (b != block.0 || w != var@)
                ==> #[trigger] final(self).value_of(b, w) == old(self).value_of(b, w),
            old(self).adds_only_phis(&*final(self)),
    {
        let bi = block.0 as usize;
        bind(&mut self.current_def[bi], var, value);
        proof {
            assert forall|w: Seq<char>| #[trigger] self.unbound(w) <= old(self).unbound(w) by {
                lemma_unbound_count_update(old(self).current_def@, self.current_def@, w, bi as int, self.current_def@.len() as nat);
            }
            lemma_unbound_count_update(old(self).current_def@, self.current_def@, var@, bi as int, self.current_def@.len() as nat);
        }
    }

    /// Resolves `var`'s value as seen from `block`: a binding in the block
    /// itself, else (recursively) from its predecessors, inserting a phi
    /// where the value may come from more than one place or where the
    /// block's predecessors are not all known yet.
    pub fn read_variable(&mut self, var: &str, block: BlockId, ty: Type) -> (v: ValueId)
        requires
            old(self).wf(),
            block.0 < old(self).n_blocks(),
        ensures
            final(self).wf(),
            old(self).same_shape(&*final(self)),
            old(self).keeps_ids(&*final(self)),
            old(self).grows_defs(&*final(self)),
            old(self).phi_free_kept(&*final(self)),
            final(self).parked_set() == old(self).parked_set(),
            final(self).bounded() ==> old(self).bounded(),
            old(self).bound_blocks_kept(&*final(self), var@),
            defines(final(self).func_view(), v),
            forall|w: Seq<char>| #[trigger] final(self).unbound(w) <= old(self).unbound(w),
            forall|b: int, w: Seq<char>| 0 <= b < old(self).n_blocks() && old(self).bound_in(b, w) ==> #[trigger] final(self).bound_in(b, w),
            forall|b: int, w: Seq<char>| 0 <= b < old(self).n_blocks() && old(self).bound_in(b, w)
                ==> #[trigger] final(self).value_of(b, w) == old(self).value_of(b, w),
            final(self).value_of(block.0 as int, var@) == Some(v),
            old(self).bound_in(block.0 as int, var@) ==> *final(self) == *old(self),
            Self::read_cases(*old(self), *final(self), var@, block.0 as int, ty, v),
            old(self).adds_only_phis(&*final(self)),
        decreases old(self).unbound(var@), block.0, 2nat,
    {
        match lookup(&self.current_def[block.0 as usize], var) {
            Some(v) => v,
            None => self.read_variable_recursive(var, block, ty),
        }
    }

    /// How a read of `var` in block `b` that finds no binding there resolves
    /// to `v` (`s0` before the read, `s1` after): through the only
    /// predecessor of a sealed block, or else as a new phi at the end of
    /// `b`, listed for filling in when `b` is not sealed yet, and reading
    /// every predecessor when `b` is sealed with several.
    pub open spec fn read_cases(s0: Self, s1: Self, var: Seq<char>, b: int, ty: Type, v: ValueId) -> bool {
        let k0 = s0.func_view().blocks@[b].instructions@.len() as int;
        !s0.bound_in(b, var) ==> {
            &&& s0.sealed_at(b) && s0.preds_at(b).len() == 1 ==> s1.value_of(s0.preds_at(b)[0].0 as int, var) == Some(v)
            &&& !(s0.sealed_at(b) && s0.preds_at(b).len() == 1) ==> s1.phi_at(b, k0, v, ty)
            &&& !s0.sealed_at(b) ==> s1.incomplete_at(b).len() == s0.incomplete_at(b).len() + 1
                && s1.incomplete_at(b).drop_last() == s0.incomplete_at(b)
                && s1.incomplete_at(b).last().0@ == var && s1.incomplete_at(b).last().1 == v && s1.incomplete_at(b).last().2 == ty
            &&& s0.sealed_at(b) && s0.preds_at(b).len() > 1 && s1.bounded() ==> s1.phi_reads(b, k0, var)
        }
    }

    #[verifier::rlimit(100)]
    #[verifier::spinoff_prover]
    fn read_variable_recursive(&mut self, var: &str, block: BlockId, ty: Type) -> (v: ValueId)
        requires
            old(self).wf(),
            block.0 < old(self).n_blocks(),
            !old(self).bound_in(block.0 as int, var@),
        ensures
            final(self).wf(),
            old(self).same_shape(&*final(self)),
            old(self).keeps_ids(&*final(self)),
            old(self).grows_defs(&*final(self)),
            old(self).phi_free_kept(&*final(self)),
            final(self).parked_set() == old(self).parked_set(),
            final(self).bounded() ==> old(self).bounded(),
            old(self).bound_blocks_kept(&*final(self), var@),
            defines(final(self).func_view(), v),
            forall|w: Seq<char>| #[trigger] final(self).unbound(w) <= old(self).unbound(w),
            forall|b: int, w: Seq<char>| 0 <= b < old(self).n_blocks() && old(self).bound_in(b, w) ==> #[trigger] final(self).bound_in(b, w),
            forall|b: int, w: Seq<char>| 0 <= b < old(self).n_blocks() && old(self).bound_in(b, w)
                ==> #[trigger] final(self).value_of(b, w) == old(self).value_of(b, w),
            final(self).value_of(block.0 as int, var@) == Some(v),
            Self::read_cases(*old(self), *final(self), var@, block.0 as int, ty, v),
            old(self).adds_only_phis(&*final(self)),
        decreases old(self).unbound(var@), block.0, 1nat,
    {
        let bi = block.0 as usize;
        let ghost s0 = *self;
        let unsealed = !self.sealed[bi];
        let ghost k0 = s0.func.blocks@[bi as int].instructions@.len() as int;
        let value = if unsealed {
            self.emit(block, ty, InstKind::Phi(Vec::new()))
        } else {
            let n_preds = self.preds[bi].len();
            if n_preds == 0 {
                self.emit(block, ty, InstKind::Phi(Vec::new()))
            } else if n_preds == 1 {
                let only = self.preds[bi][0];
                self.read_variable(var, only, ty)
            } else {
                let phi = self.emit(block, ty, InstKind::Phi(Vec::new()));
                let ghost s_e = *self;
                self.write_variable(var, block, phi);
                proof {
                    Self::lemma_shape_trans(&s0, &s_e, &*self);
                    let k = self.func.blocks@[bi as int].instructions@.len() - 1;
                    assert(self.func.blocks@[bi as int].instructions@[k].id == phi);
                    assert(self.phi_at(bi as int, k0, phi, ty));
                    assert forall|b: int, w: Seq<char>| 0 <= b < s0.n_blocks() && s0.bound_in(b, w)
                        implies #[trigger] self.value_of(b, w) == s0.value_of(b, w) by {
                        assert(s_e.value_of(b, w) == s0.value_of(b, w));
                    }
                    self.lemma_value_of(bi as int, var@);
                }
                let ghost s_mid = *self;
                self.add_phi_operands(var, phi, block, ty);
                proof {
                    Self::lemma_shape_trans(&s0, &s_mid, &*self);
                    if self.bounded() {
                        assert(s_mid.func.blocks@[bi as int].instructions@[k0].id == phi);
                        assert(self.func.blocks@[bi as int].instructions@[k0].id == phi);
                        assert(self.func.blocks@[bi as int].instructions@[k0].kind matches InstKind::Phi(inc)
                            && names(inc@) == self.preds@[bi as int]@);
                        assert(self.phi_reads(bi as int, k0, var@));
                    }
                    assert(self.func.blocks@[bi as int].instructions@[k0].id == s_mid.func.blocks@[bi as int].instructions@[k0].id);
                    assert(self.phi_at(bi as int, k0, phi, ty));
                    assert forall|b: int, w: Seq<char>| 0 <= b < s0.n_blocks() && s0.bound_in(b, w)
                        implies #[trigger] self.value_of(b, w) == s0.value_of(b, w) by {
                        assert(s_mid.value_of(b, w) == s0.value_of(b, w));
                        assert(s_mid.bound_in(b, w));
                    }
                    assert(self.value_of(bi as int, var@) == Some(phi));
                }
                phi
            }
        };
        let ghost s1 = *self;
        proof {
            assert(s0.same_shape(&s1));
            assert(s0.keeps_ids(&s1));
            assert(forall|w: Seq<char>| #[trigger] s1.unbound(w) <= s0.unbound(w));
            assert(forall|b: int, w: Seq<char>| 0 <= b < s0.n_blocks() && s0.bound_in(b, w)
                ==> #[trigger] s1.value_of(b, w) == s0.value_of(b, w));
            assert(!(s0.sealed_at(bi as int) && s0.preds_at(bi as int).len() == 1) ==> s1.phi_at(bi as int, k0, value, ty));
            assert(s0.sealed_at(bi as int) && s0.preds_at(bi as int).len() == 1
                ==> s1.value_of(s0.preds_at(bi as int)[0].0 as int, var@) == Some(value)
                    && (s0.preds_at(bi as int)[0].0 as int) < bi);
            assert(!s0.sealed_at(bi as int) ==> s1.incomplete_at(bi as int) == s0.incomplete_at(bi as int));
            assert(s0.sealed_at(bi as int) && s0.preds_at(bi as int).len() > 1 ==> s1.value_of(bi as int, var@) == Some(value));
        }
        self.write_variable(var, block, value);
        proof {
            Self::lemma_shape_trans(&s0, &s1, &*self);
            assert forall|b: int, w: Seq<char>| 0 <= b < s0.n_blocks() && s0.bound_in(b, w)
                implies #[trigger] self.value_of(b, w) == s0.value_of(b, w) by {
                assert(s1.value_of(b, w) == s0.value_of(b, w));
            }
            if s0.sealed_at(bi as int) && s0.preds_at(bi as int).len() > 1 && s1.bounded() {
                assert(s1.phi_reads(bi as int, k0, var@));
                if let InstKind::Phi(inc) = s1.func.blocks@[bi as int].instructions@[k0].kind {
                    assert forall|k: int| 0 <= k < inc@.len() implies self.value_of((#[trigger] inc@[k]).0.0 as int, var@) == Some(inc@[k].1) by {
                        assert(s1.value_of(inc@[k].0.0 as int, var@) == Some(inc@[k].1));
                        assert(names(inc@)[k] == inc@[k].0);
                        assert(s1.preds@[bi as int]@[k] == inc@[k].0);
                        assert((inc@[k].0.0 as int) < s1.n_blocks());
                        if inc@[k].0.0 as int == bi as int {
                            assert(inc@[k].1 == value);
                        } else {
                            assert(self.value_of(inc@[k].0.0 as int, var@) == s1.value_of(inc@[k].0.0 as int, var@));
                        }
                    }
                }
                assert(self.phi_reads(bi as int, k0, var@));
            }
        }
        let ghost s2 = *self;
        if unsealed {
            let ghost before = self.incomplete_phis@;
            let ghost s_e = *self;
            self.incomplete_phis[bi].push((var.to_owned(), value, ty));
            proof {
                assert(self.incomplete_phis@[bi as int]@.drop_last() =~= before[bi as int]@);
                assert(self.incomplete_phis@[bi as int]@.last().1 == value);
                assert(self.incomplete_phis@[bi as int]@.last().2 == ty);
                assert(self.incomplete_phis@[bi as int]@.last().0@ == var@);
                assert(self.func == s_e.func && self.sealed == s_e.sealed && self.preds == s_e.preds && self.current_def == s_e.current_def);
                assert(forall|w: Seq<char>| #[trigger] self.unbound(w) == s_e.unbound(w));
                assert(forall|b: int, w: Seq<char>| #[trigger] self.bound_in(b, w) == s_e.bound_in(b, w));
                assert(forall|b: int| #[trigger] self.sealed_at(b) == s_e.sealed_at(b));
                assert(forall|b: int| #[trigger] self.preds_at(b) == s_e.preds_at(b));
                assert(s0.same_shape(&*self));
                assert(s0.keeps_ids(&*self));
                let last = self.func.blocks@[bi as int].instructions@.len() - 1;
                assert(self.func.blocks@[bi as int].instructions@[last].kind is Phi);
                assert(!no_phi(self.func, bi as int));
                assert forall|b: int| 0 <= b < self.func.blocks@.len() && (#[trigger] self.incomplete_phis@[b])@.len() > 0
                    implies !no_phi(self.func, b) by {
                    if b != bi {
                        assert(self.incomplete_phis@[b] == before[b]);
                    }
                }
                assert forall|b: int, j: int| 0 <= b < self.incomplete_phis@.len() && 0 <= j < self.incomplete_phis@[b]@.len()
                    implies defined_in(self.func.blocks@, b, (#[trigger] self.incomplete_phis@[b]@[j]).1) by {
                    if b == bi && j == self.incomplete_phis@[b]@.len() - 1 {
                        let k = self.func.blocks@[b].instructions@.len() - 1;
                        assert(self.func.blocks@[b].instructions@[k].id == value);
                    } else {
                        assert(self.incomplete_phis@[b]@[j] == before[b]@[j]);
                    }
                }
                assert forall|b: int, j: int| 0 <= b < self.incomplete_phis@.len() && 0 <= j < self.incomplete_phis@[b]@.len()
                    implies binds(self.current_def@[b]@, (#[trigger] self.incomplete_phis@[b]@[j]).0@) by {
                    if !(b == bi && j == self.incomplete_phis@[b]@.len() - 1) {
                        assert(self.incomplete_phis@[b]@[j] == before[b]@[j]);
                    }
                }
            }
        }
        let ghost s3 = *self;
        self.parked = Ghost(s0.parked@);
        proof {
            assert(self.func == s3.func && self.sealed == s3.sealed && self.preds == s3.preds && self.current_def == s3.current_def
                && self.incomplete_phis == s3.incomplete_phis && self.next_value == s3.next_value);
            assert(forall|w: Seq<char>| #[trigger] self.unbound(w) == s3.unbound(w));
            assert(forall|b: int, w: Seq<char>| #[trigger] self.bound_in(b, w) == s3.bound_in(b, w));
            assert(forall|b: int| #[trigger] self.sealed_at(b) == s3.sealed_at(b));
            assert(forall|b: int| #[trigger] self.preds_at(b) == s3.preds_at(b));
            assert(self.bounded() ==> {
                &&& forall|b: int, q: int| 0 <= b < self.func.blocks@.len() && 0 <= q < self.func.blocks@[b].instructions@.len()
                    ==> self.phi_ok(b, #[trigger] self.func.blocks@[b].instructions@[q])
                &&& forall|v: ValueId| #[trigger] self.parked@.contains(v) ==> v.0 < self.next_value
            }) by {
                if self.bounded() {
                    assert(s3.bounded());
                    assert(s0.bounded());
                    let fresh = unsealed || s0.preds@[bi as int]@.len() != 1;
                    if fresh {
                        assert(value == ValueId(s0.next_value));
                        assert(!s0.parked@.contains(value));
                        assert(s3.parked@ == s0.parked@.insert(value));
                    } else {
                        assert(s3.parked@ == s0.parked@);
                    }
                    let k0 = s0.func.blocks@[bi as int].instructions@.len() as int;
                    assert(fresh ==> self.func.blocks@[bi as int].instructions@[k0].id == value);
                    assert(self.sealed_at(bi as int) == s0.sealed_at(bi as int));
                    assert(self.preds_at(bi as int) == s0.preds_at(bi as int));
                    if fresh {
                        let inst0 = self.func.blocks@[bi as int].instructions@[k0];
                        if unsealed {
                            let j = self.incomplete_phis@[bi as int]@.len() - 1;
                            assert(self.incomplete_phis@[bi as int]@[j].1 == value);
                            assert(listed(self.incomplete_phis@[bi as int]@, value));
                            assert(inst0.kind matches InstKind::Phi(inc) && inc@.len() == 0);
                        } else if s0.preds@[bi as int]@.len() == 0 {
                            assert(inst0.kind matches InstKind::Phi(inc) && inc@.len() == 0);
                            if let InstKind::Phi(inc) = inst0.kind {
                                assert(names(inc@) =~= self.preds@[bi as int]@);
                            }
                        } else {
                            assert(inst0.kind matches InstKind::Phi(inc) && names(inc@) == self.preds@[bi as int]@);
                        }
                        assert(self.settled(bi as int, inst0));
                    }
                    assert(values_unique(self.func));
                    assert forall|b: int, q: int| 0 <= b < self.func.blocks@.len() && 0 <= q < self.func.blocks@[b].instructions@.len()
                        implies self.phi_ok(b, #[trigger] self.func.blocks@[b].instructions@[q]) by {
                        let inst = self.func.blocks@[b].instructions@[q];
                        assert(s2.phi_ok(b, inst));
                        if s2.settled(b, inst) {
                            if let InstKind::Phi(inc) = inst.kind {
                                if !s2.sealed@[b] {
                                    let j = choose|j: int| 0 <= j < s2.incomplete_phis@[b]@.len() && (#[trigger] s2.incomplete_phis@[b]@[j]).1 == inst.id;
                                    assert(self.incomplete_phis@[b]@[j] == s2.incomplete_phis@[b]@[j]);
                                }
                            }
                        }
                        if !self.settled(b, inst) {
                            assert(s2.parked@.contains(inst.id));
                            if !s0.parked@.contains(inst.id) {
                                assert(fresh && inst.id == value);
                                if b != bi || q != k0 {
                                    assert(self.func.blocks@[bi as int].instructions@[k0].id != inst.id);
                                }
                            }
                        }
                    }
                    assert forall|v: ValueId| #[trigger] self.parked@.contains(v) implies v.0 < self.next_value by {
                        assert(s0.parked@.contains(v));
                    }
                }
            }
        }
        proof {
            assert forall|b: int| 0 <= b < s0.n_blocks() && s0.bound_in(b, var@)
                implies #[trigger] self.func_view().blocks@[b] == s0.func_view().blocks@[b] && self.incomplete_at(b) == s0.incomplete_at(b) by {
                assert(b != bi);
                assert(s1.incomplete_at(b) == s0.incomplete_at(b));
                assert(s1.func_view().blocks@[b] == s0.func_view().blocks@[b]);
                assert(s2.incomplete_at(b) == s1.incomplete_at(b));
                assert(s2.func_view() == s1.func_view());
                assert(self.incomplete_phis@[b] == s2.incomplete_phis@[b]);
                assert(self.func == s2.func);
            }
            assert(self.current_def == s2.current_def);
            assert(self.func == s2.func);
            assert(self.preds == s2.preds);
            assert forall|b: int, w: Seq<char>| 0 <= b < s0.n_blocks() && s0.bound_in(b, w)
                implies #[trigger] self.value_of(b, w) == s0.value_of(b, w) by {
                assert(s2.value_of(b, w) == s0.value_of(b, w));
            }
            assert(self.value_of(bi as int, var@) == Some(value));
            if !s0.sealed_at(bi as int) {
                assert(s2.incomplete_at(bi as int) == s0.incomplete_at(bi as int));
                assert(self.incomplete_at(bi as int).drop_last() =~= s0.incomplete_at(bi as int));
            }
            if s0.sealed_at(bi as int) && s0.preds_at(bi as int).len() > 1 && self.bounded() {
                assert(s2.phi_reads(bi as int, k0, var@));
            }
        }
        value
    }

    fn add_phi_operands(&mut self, var: &str, phi: ValueId, block: BlockId, ty: Type)
        requires
            old(self).wf(),
            block.0 < old(self).n_blocks(),
            defined_in(old(self).func_view().blocks@, block.0 as int, phi),
            !old(self).sealed_at(block.0 as int) || old(self).preds_at(block.0 as int).len() != 1,
            old(self).bounded() ==> old(self).parked_set().contains(phi),
            old(self).bound_in(block.0 as int, var@),
        ensures
            final(self).wf(),
            forall|b: int| 0 <= b < old(self).n_blocks() && b != block.0 && old(self).bound_in(b, var@)
                ==> #[trigger] final(self).func_view().blocks@[b] == old(self).func_view().blocks@[b]
                    && final(self).incomplete_at(b) == old(self).incomplete_at(b),
            final(self).incomplete_at(block.0 as int) == old(self).incomplete_at(block.0 as int),
            final(self).func_view().blocks@[block.0 as int].instructions@.len() == old(self).func_view().blocks@[block.0 as int].instructions@.len(),
            forall|q: int| 0 <= q < old(self).func_view().blocks@[block.0 as int].instructions@.len()
                && (#[trigger] final(self).func_view().blocks@[block.0 as int].instructions@[q]).id != phi
                ==> final(self).func_view().blocks@[block.0 as int].instructions@[q] == old(self).func_view().blocks@[block.0 as int].instructions@[q],
            old(self).same_shape(&*final(self)),
            old(self).keeps_ids(&*final(self)),
            old(self).grows_defs(&*final(self)),
            old(self).phi_free_kept(&*final(self)),
            final(self).parked_set() == old(self).parked_set(),
            final(self).bounded() ==> old(self).bounded(),
            final(self).bounded() ==> forall|q: int| 0 <= q < final(self).func.blocks@[block.0 as int].instructions@.len()
                && (#[trigger] final(self).func.blocks@[block.0 as int].instructions@[q]).id == phi
                ==> (final(self).func.blocks@[block.0 as int].instructions@[q].kind matches InstKind::Phi(inc)
                    && names(inc@) == final(self).preds@[block.0 as int]@),
            forall|w: Seq<char>| #[trigger] final(self).unbound(w) <= old(self).unbound(w),
            forall|b: int, w: Seq<char>| 0 <= b < old(self).n_blocks() && old(self).bound_in(b, w) ==> #[trigger] final(self).bound_in(b, w),
            forall|b: int, w: Seq<char>| 0 <= b < old(self).n_blocks() && old(self).bound_in(b, w)
                ==> #[trigger] final(self).value_of(b, w) == old(self).value_of(b, w),
            forall|q: int| 0 <= q < old(self).func_view().blocks@[block.0 as int].instructions@.len()
                ==> (#[trigger] final(self).func_view().blocks@[block.0 as int].instructions@[q]).id
                    == old(self).func_view().blocks@[block.0 as int].instructions@[q].id
                    && final(self).func_view().blocks@[block.0 as int].instructions@[q].ty == old(self).func_view().blocks@[block.0 as int].instructions@[q].ty
                    && (old(self).func_view().blocks@[block.0 as int].instructions@[q].kind is Phi
                        ==> final(self).func_view().blocks@[block.0 as int].instructions@[q].kind is Phi),
            final(self).bounded() ==> forall|q: int| 0 <= q < final(self).func.blocks@[block.0 as int].instructions@.len()
                && (#[trigger] final(self).func.blocks@[block.0 as int].instructions@[q]).id == phi
                ==> final(self).phi_reads(block.0 as int, q, var@),
            old(self).adds_only_phis(&*final(self)),
        decreases old(self).unbound(var@) + 1, block.0, 0nat,
    {
        let bi = block.0 as usize;
        let n_preds = self.preds[bi].len();
        let mut incoming: Vec<(BlockId, ValueId)> = Vec::new();
        let ghost start = *self;
        let mut i: usize = 0;
        while i < n_preds
            invariant
                self.wf(),
                bi == block.0,
                block.0 < start.n_blocks(),
                start.same_shape(&*self),
                start.keeps_ids(&*self),
                n_preds == start.preds_at(bi as int).len(),
                start == *old(self),
                forall|w: Seq<char>| #[trigger] self.unbound(w) <= start.unbound(w),
                forall|b: int, w: Seq<char>| 0 <= b < start.n_blocks() && start.bound_in(b, w) ==> #[trigger] self.bound_in(b, w),
                defined_in(self.func.blocks@, bi as int, phi),
                i <= n_preds,
                incoming@.len() == i,
                forall|k: int| 0 <= k < i ==> (#[trigger] incoming@[k]).0 == start.preds_at(bi as int)[k],
                start.grows_defs(&*self),
                start.phi_free_kept(&*self),
                !start.sealed_at(bi as int) || start.preds_at(bi as int).len() != 1,
                self.parked@ == start.parked@,
                self.bounded() ==> start.bounded(),
                start.bound_blocks_kept(&*self, var@),
                start.bound_in(bi as int, var@),
                forall|k: int| 0 <= k < i ==> defines(self.func_view(), (#[trigger] incoming@[k]).1),
                forall|b: int, w: Seq<char>| 0 <= b < start.n_blocks() && start.bound_in(b, w)
                    ==> #[trigger] self.value_of(b, w) == start.value_of(b, w),
                forall|k: int| 0 <= k < i ==> self.value_of((#[trigger] incoming@[k]).0.0 as int, var@) == Some(incoming@[k].1),
                forall|k: int| 0 <= k < i ==> ((#[trigger] incoming@[k]).0.0 as int) < start.n_blocks(),
                start.adds_only_phis(&*self),
            decreases n_preds - i,
        {
            assert(self.preds_at(bi as int) == start.preds_at(bi as int));
            let pred = self.preds[bi][i];
            let ghost mid = *self;
            let ghost inc0 = incoming@;
            let v = self.read_variable(var, pred, ty);
            proof {
                Self::lemma_adds_only_phis_trans(&start, &mid, &*self);
                lemma_defined_in_kept(mid.func.blocks@, self.func.blocks@, bi as int, phi);
                assert forall|k: int| 0 <= k < i implies defines(self.func_view(), (#[trigger] incoming@[k]).1) by {
                    assert(defines(mid.func_view(), incoming@[k].1));
                }
                assert forall|k: int| 0 <= k < i implies self.value_of((#[trigger] incoming@[k]).0.0 as int, var@) == Some(incoming@[k].1) by {
                    mid.lemma_value_of(incoming@[k].0.0 as int, var@);
                }
                assert(pred.0 < start.n_blocks());
            }
            incoming.push((pred, v));
            proof {
                assert forall|k: int| 0 <= k < i + 1 implies self.value_of((#[trigger] incoming@[k]).0.0 as int, var@) == Some(incoming@[k].1) by {
                    if k < i {
                        assert(incoming@[k] == inc0[k]);
                    }
                }
                assert forall|k: int| 0 <= k < i + 1 implies ((#[trigger] incoming@[k]).0.0 as int) < start.n_blocks() by {
                    if k < i {
                        assert(incoming@[k] == inc0[k]);
                    }
                }
            }
            i += 1;
        }
        let mut j: usize = 0;
        let ninst = self.func.blocks[bi].instructions.len();
        while j < ninst
            invariant
                self.wf(),
                bi == block.0,
                block.0 < start.n_blocks(),
                ninst == self.func.blocks@[bi as int].instructions@.len(),
                start.same_shape(&*self),
                start.keeps_ids(&*self),
                start == *old(self),
                forall|w: Seq<char>| #[trigger] self.unbound(w) <= start.unbound(w),
                forall|b: int, w: Seq<char>| 0 <= b < start.n_blocks() && start.bound_in(b, w) ==> #[trigger] self.bound_in(b, w),
                0 <= j <= ninst,
                forall|k: int| 0 <= k < j ==> self.func.blocks@[bi as int].instructions@[k].id != phi,
                defined_in(self.func.blocks@, bi as int, phi),
                n_preds == start.preds_at(bi as int).len(),
                incoming@.len() == n_preds,
                forall|k: int| 0 <= k < n_preds ==> (#[trigger] incoming@[k]).0 == start.preds_at(bi as int)[k],
                start.grows_defs(&*self),
                start.phi_free_kept(&*self),
                !start.sealed_at(bi as int) || start.preds_at(bi as int).len() != 1,
                self.parked@ == start.parked@,
                self.bounded() ==> start.bounded(),
                start.bound_blocks_kept(&*self, var@),
                start.bound_in(bi as int, var@),
                forall|k: int| 0 <= k < n_preds ==> defines(self.func_view(), (#[trigger] incoming@[k]).1),
                forall|b: int, w: Seq<char>| 0 <= b < start.n_blocks() && start.bound_in(b, w)
                    ==> #[trigger] self.value_of(b, w) == start.value_of(b, w),
                forall|k: int| 0 <= k < n_preds ==> self.value_of((#[trigger] incoming@[k]).0.0 as int, var@) == Some(incoming@[k].1),
                self.func.blocks@[bi as int] == start.func.blocks@[bi as int],
                start.adds_only_phis(&*self),
            ensures
                j < ninst ==> self.func.blocks@[bi as int].instructions@[j as int].id == phi,
            decreases ninst - j,
        {
            if self.func.blocks[bi].instructions[j].id == phi {
                break;
            }
            j += 1;
        }
        if j < ninst {
            let ghost before = *self;
            let ghost inc = incoming;
            self.func.blocks[bi].instructions[j].kind = InstKind::Phi(incoming);
            proof {
                assert(before.adds_only_phis(&*self)) by {
                    assert forall|x: int, q: int| 0 <= x < self.n_blocks() && 0 <= q < self.func_view().blocks@[x].instructions@.len()
                        implies (#[trigger] self.func_view().blocks@[x].instructions@[q]).kind is Phi
                            || (x < before.n_blocks() && q < before.func_view().blocks@[x].instructions@.len()
                                && self.func_view().blocks@[x].instructions@[q] == before.func_view().blocks@[x].instructions@[q]) by {
                        if !(x == bi && q == j) {
                            assert(self.func.blocks@[x].instructions@[q] == before.func.blocks@[x].instructions@[q]);
                        }
                    }
                }
                Self::lemma_adds_only_phis_trans(&start, &before, &*self);
                assert(before.preds_at(bi as int) == start.preds_at(bi as int));
                assert(self.preds@[bi as int]@ == start.preds_at(bi as int));
                assert forall|b: int, q: int| 0 <= b < self.func.blocks@.len() && 0 <= q < self.func.blocks@[b].instructions@.len()
                    implies phi_names_distinct(#[trigger] self.func.blocks@[b].instructions@[q]) by {
                    if b == bi && q == j {
                        assert(self.func.blocks@[b].instructions@[q].kind == InstKind::Phi(inc));
                        assert forall|x: int, y: int| 0 <= x < y < inc@.len() implies inc@[x].0 != inc@[y].0 by {
                            assert(inc@[x].0 == self.preds@[bi as int]@[x]);
                            assert(inc@[y].0 == self.preds@[bi as int]@[y]);
                        }
                    } else {
                        assert(self.func.blocks@[b].instructions@[q] == before.func.blocks@[b].instructions@[q]);
                    }
                }
                assert forall|b: int, k: int| 0 <= b < self.incomplete_phis@.len() && 0 <= k < self.incomplete_phis@[b]@.len()
                    implies defined_in(self.func.blocks@, b, (#[trigger] self.incomplete_phis@[b]@[k]).1) by {
                    lemma_defined_in_kept(before.func.blocks@, self.func.blocks@, b, self.incomplete_phis@[b]@[k].1);
                }
                assert(forall|b: int| 0 <= b < self.func.blocks@.len() ==> (#[trigger] self.func.blocks@[b]).id == before.func.blocks@[b].id);
                assert(forall|b: int| 0 <= b < self.func.blocks@.len() ==> (#[trigger] self.func.blocks@[b]).terminator == before.func.blocks@[b].terminator);
                assert(before.same_shape(&*self));
                assert forall|x: int| 0 <= x < before.func.blocks@.len() implies {
                    &&& (#[trigger] self.func.blocks@[x]).instructions@.len() >= before.func.blocks@[x].instructions@.len()
                    &&& forall|i: int| 0 <= i < before.func.blocks@[x].instructions@.len() ==> (#[trigger] self.func.blocks@[x].instructions@[i]).id
                        == before.func.blocks@[x].instructions@[i].id
                } by {}
                assert(before.keeps_ids(&*self));
                Self::lemma_shape_trans(&start, &before, &*self);
                assert(self.current_def == before.current_def);
                assert forall|b: int, i: int| 0 <= b < before.func.blocks@.len() && 0 <= i < before.func.blocks@[b].instructions@.len()
                    implies (#[trigger] self.func.blocks@[b].instructions@[i]).id == before.func.blocks@[b].instructions@[i].id by {}
                lemma_defines_grow(before.func, self.func);
                lemma_reads_kept(before.func, self.func);
                assert forall|b: int, q: int| 0 <= b < self.func.blocks@.len() && 0 <= q < self.func.blocks@[b].instructions@.len()
                    implies reads_defined(self.func, (#[trigger] self.func.blocks@[b].instructions@[q]).kind) by {
                    if b == bi && q == j {
                        assert(self.func.blocks@[b].instructions@[q].kind == InstKind::Phi(inc));
                        assert forall|k: int| 0 <= k < inc@.len() implies defines(self.func, (#[trigger] inc@[k]).1) by {
                            assert(defines(before.func, inc@[k].1));
                        }
                    } else {
                        assert(self.func.blocks@[b].instructions@[q] == before.func.blocks@[b].instructions@[q]);
                        assert(reads_defined(before.func, before.func.blocks@[b].instructions@[q].kind));
                    }
                }
                assert forall|b: int| 0 <= b < self.func.blocks@.len() implies term_reads_defined(self.func, (#[trigger] self.func.blocks@[b]).terminator) by {
                    assert(term_reads_defined(before.func, before.func.blocks@[b].terminator));
                }
                assert forall|b: int, k: int| 0 <= b < self.func.blocks@.len() && 0 <= k < self.current_def@[b]@.len()
                    implies defines(self.func, (#[trigger] self.current_def@[b]@[k]).1) by {
                    assert(defines(before.func, self.current_def@[b]@[k].1));
                }
                lemma_ids_same(before.func, self.func);
                if self.bounded() {
                    assert(before.bounded());
                    assert(start.bounded());
                    assert(self.parked@.contains(phi));
                    assert(values_unique(self.func));
                    assert(self.func.blocks@[bi as int].instructions@[j as int].id == phi);
                    assert forall|b: int, q: int| 0 <= b < self.func.blocks@.len() && 0 <= q < self.func.blocks@[b].instructions@.len()
                        implies self.phi_ok(b, #[trigger] self.func.blocks@[b].instructions@[q]) by {
                        if !(b == bi && q == j) {
                            assert(self.func.blocks@[b].instructions@[q] == before.func.blocks@[b].instructions@[q]);
                            assert(before.phi_ok(b, before.func.blocks@[b].instructions@[q]));
                        }
                    }
                    assert(names(inc@) =~= self.preds@[bi as int]@);
                    assert forall|q: int| 0 <= q < self.func.blocks@[bi as int].instructions@.len()
                        && (#[trigger] self.func.blocks@[bi as int].instructions@[q]).id == phi
                        implies (self.func.blocks@[bi as int].instructions@[q].kind matches InstKind::Phi(inc2)
                            && names(inc2@) == self.preds@[bi as int]@) by {
                        if q != j {
                            assert(self.func.blocks@[bi as int].instructions@[q].id != self.func.blocks@[bi as int].instructions@[j as int].id);
                        }
                    }
                    assert(self.current_def == before.current_def);
                    assert forall|q: int| 0 <= q < self.func.blocks@[bi as int].instructions@.len()
                        && (#[trigger] self.func.blocks@[bi as int].instructions@[q]).id == phi
                        implies self.phi_reads(bi as int, q, var@) by {
                        if q != j {
                            assert(self.func.blocks@[bi as int].instructions@[q].id != self.func.blocks@[bi as int].instructions@[j as int].id);
                        }
                        assert forall|k: int| 0 <= k < inc@.len() implies self.value_of((#[trigger] inc@[k]).0.0 as int, var@) == Some(inc@[k].1) by {
                            assert(before.value_of(inc@[k].0.0 as int, var@) == Some(inc@[k].1));
                        }
                    }
                }
                assert forall|q: int| 0 <= q < start.func_view().blocks@[bi as int].instructions@.len()
                    implies (#[trigger] self.func_view().blocks@[bi as int].instructions@[q]).id
                        == start.func_view().blocks@[bi as int].instructions@[q].id
                        && self.func_view().blocks@[bi as int].instructions@[q].ty == start.func_view().blocks@[bi as int].instructions@[q].ty
                        && (start.func_view().blocks@[bi as int].instructions@[q].kind is Phi
                            ==> self.func_view().blocks@[bi as int].instructions@[q].kind is Phi) by {
                    assert(before.func.blocks@[bi as int] == start.func.blocks@[bi as int]);
                    if q != j {
                        assert(self.func.blocks@[bi as int].instructions@[q] == before.func.blocks@[bi as int].instructions@[q]);
                    }
                }
                assert(!before.sealed_at(bi as int) || before.preds_at(bi as int).len() != 1) by {
                    assert(before.sealed_at(bi as int) == start.sealed_at(bi as int));
                    assert(before.preds_at(bi as int) == start.preds_at(bi as int));
                }
                assert forall|x: int, t: int| 0 <= x < self.func.blocks@.len() && 0 <= t < self.func.blocks@.len()
                    implies #[trigger] has_edge(self.func, x, t) == has_edge(before.func, x, t) by {
                    assert(self.func.blocks@[x].terminator == before.func.blocks@[x].terminator);
                }
                assert forall|t: int| 0 <= t < self.func.blocks@.len() && t != bi
                    implies #[trigger] no_phi(self.func, t) == no_phi(before.func, t) by {
                    assert(self.func.blocks@[t] == before.func.blocks@[t]);
                }
                assert forall|b: int| 0 <= b < start.n_blocks() && start.sealed_at(b) && start.preds_at(b).len() == 1
                    && no_phi(start.func_view(), b) implies #[trigger] no_phi(self.func_view(), b) by {
                    assert(no_phi(before.func_view(), b));
                    if b == bi {
                        assert(before.sealed_at(bi as int) == start.sealed_at(bi as int));
                        assert(before.preds_at(bi as int) == start.preds_at(bi as int));
                    }
                }
                assert(forall|w: Seq<char>| #[trigger] self.unbound(w) == before.unbound(w));
                assert(forall|b: int, w: Seq<char>| #[trigger] self.bound_in(b, w) == before.bound_in(b, w));
                assert(forall|b: int, w: Seq<char>| #[trigger] self.value_of(b, w) == before.value_of(b, w));
            }
        } else {
            proof {
                let k = choose|k: int| 0 <= k < self.func.blocks@[bi as int].instructions@.len() && (#[trigger] self.func.blocks@[bi as int].instructions@[k]).id == phi;
                assert(false);
            }
        }
    }

    /// Marks `block`'s predecessor set as final and fills in every phi parked
    /// there while it was not.
    pub fn seal_block(&mut self, block: BlockId)
        requires
            old(self).wf(),
            block.0 < old(self).n_blocks(),
            !old(self).sealed_at(block.0 as int),
            old(self).preds_at(block.0 as int).len() == 1 ==> old(self).preds_at(block.0 as int)[0].0 < block.0,
            old(self).parked_set() == Set::<ValueId>::empty(),
        ensures
            final(self).wf(),
            final(self).parked_set() == Set::<ValueId>::empty(),
            final(self).n_blocks() == old(self).n_blocks(),
            final(self).sealed_at(block.0 as int),
            forall|b: int| 0 <= b < old(self).n_blocks() && b != block.0 ==> #[trigger] final(self).sealed_at(b) == old(self).sealed_at(b),
            forall|b: int| 0 <= b < old(self).n_blocks() ==> #[trigger] final(self).preds_at(b) == old(self).preds_at(b),
            forall|b: int| 0 <= b < old(self).n_blocks() ==> (#[trigger] final(self).func_view().blocks@[b]).terminator
                == old(self).func_view().blocks@[b].terminator,
            final(self).func_view().name == old(self).func_view().name,
            final(self).func_view().params == old(self).func_view().params,
            final(self).func_view().ret_ty == old(self).func_view().ret_ty,
            final(self).func_view().entry == old(self).func_view().entry,
            old(self).keeps_ids(&*final(self)),
            old(self).grows_defs(&*final(self)),
            old(self).phi_free_kept(&*final(self)),
            no_phi(old(self).func_view(), block.0 as int) ==> final(self).func_view() == old(self).func_view(),
            old(self).adds_only_phis(&*final(self)),
    {
        let bi = block.0 as usize;
        let mut pending: Vec<(String, ValueId, Type)> = Vec::new();
        std::mem::swap(&mut pending, &mut self.incomplete_phis[bi]);
        let ghost ids = Set::new(|v: ValueId| listed(pending@, v));
        self.parked = Ghost(ids);
        let ghost start = *self;
        proof {
            assert(pending@ == old(self).incomplete_phis@[bi as int]@);
            assert forall|b: int, j: int| 0 <= b < self.incomplete_phis@.len() && 0 <= j < self.incomplete_phis@[b]@.len()
                implies defined_in(self.func.blocks@, b, (#[trigger] self.incomplete_phis@[b]@[j]).1) by {
                assert(b != bi);
                assert(self.incomplete_phis@[b] == old(self).incomplete_phis@[b]);
            }
            assert forall|b: int, j: int| 0 <= b < self.incomplete_phis@.len() && 0 <= j < self.incomplete_phis@[b]@.len()
                implies binds(self.current_def@[b]@, (#[trigger] self.incomplete_phis@[b]@[j]).0@) by {
                assert(b != bi);
                assert(self.incomplete_phis@[b] == old(self).incomplete_phis@[b]);
            }
            assert forall|b: int| 0 <= b < self.func.blocks@.len() && (#[trigger] self.incomplete_phis@[b])@.len() > 0
                implies !no_phi(self.func, b) by {
                assert(b != bi);
                assert(self.incomplete_phis@[b] == old(self).incomplete_phis@[b]);
            }
            if self.bounded() {
                assert(old(self).bounded());
                assert forall|b: int, q: int| 0 <= b < self.func.blocks@.len() && 0 <= q < self.func.blocks@[b].instructions@.len()
                    implies self.phi_ok(b, #[trigger] self.func.blocks@[b].instructions@[q]) by {
                    let inst = self.func.blocks@[b].instructions@[q];
                    assert(old(self).phi_ok(b, inst));
                    if b != bi {
                        assert(self.incomplete_phis@[b] == old(self).incomplete_phis@[b]);
                    } else if inst.kind is Phi {
                        assert(listed(pending@, inst.id));
                        assert(ids.contains(inst.id));
                    }
                }
                assert forall|v: ValueId| #[trigger] self.parked@.contains(v) implies v.0 < self.next_value by {
                    let j = choose|j: int| 0 <= j < pending@.len() && (#[trigger] pending@[j]).1 == v;
                    assert(old(self).incomplete_phis@[bi as int]@[j].1 == v);
                }
                assert forall|b: int, j: int| 0 <= b < self.func.blocks@.len() && 0 <= j < self.incomplete_phis@[b]@.len()
                    implies (#[trigger] self.incomplete_phis@[b]@[j]).1.0 < self.next_value by {
                    assert(self.incomplete_phis@[b] == old(self).incomplete_phis@[b]);
                }
            }
        }
        let mut i: usize = 0;
        while i < pending.len()
            invariant
                self.wf(),
                bi == block.0,
                block.0 < old(self).n_blocks(),
                start.same_shape(&*self),
                start.keeps_ids(&*self),
                forall|b: int| 0 <= b < old(self).n_blocks() ==> #[trigger] start.sealed_at(b) == old(self).sealed_at(b),
                forall|b: int| 0 <= b < old(self).n_blocks() ==> #[trigger] start.preds_at(b) == old(self).preds_at(b),
                start.func_view().name == old(self).func_view().name,
                start.func_view().params == old(self).func_view().params,
                start.func_view().ret_ty == old(self).func_view().ret_ty,
                start.func_view().entry == old(self).func_view().entry,
                start.n_blocks() == old(self).n_blocks(),
                forall|b: int| 0 <= b < old(self).n_blocks() ==> (#[trigger] start.func_view().blocks@[b]).terminator
                    == old(self).func_view().blocks@[b].terminator,
                old(self).keeps_ids(&start),
                forall|j: int| 0 <= j < pending@.len() ==> defined_in(self.func.blocks@, bi as int, (#[trigger] pending@[j]).1),
                old(self).grows_defs(&*self),
                old(self).phi_free_kept(&*self),
                !old(self).sealed_at(bi as int),
                no_phi(old(self).func_view(), bi as int) ==> self.func == old(self).func,
                no_phi(old(self).func_view(), bi as int) ==> pending@.len() == 0,
                pending@ == old(self).incomplete_phis@[bi as int]@,
                i <= pending@.len(),
                old(self).adds_only_phis(&*self),
                self.parked@ == ids,
                ids == Set::new(|v: ValueId| listed(pending@, v)),
                self.incomplete_phis@[bi as int]@.len() == 0,
                self.bounded() ==> start.bounded(),
                start.wf(),
                start.parked@ == ids,
                forall|j: int| 0 <= j < pending@.len() ==> self.bound_in(bi as int, (#[trigger] pending@[j]).0@),
                self.func.blocks@[bi as int].instructions@.len() == start.func.blocks@[bi as int].instructions@.len(),
                forall|q: int| 0 <= q < self.func.blocks@[bi as int].instructions@.len()
                    && !listed(pending@.take(i as int), (#[trigger] self.func.blocks@[bi as int].instructions@[q]).id)
                    ==> self.func.blocks@[bi as int].instructions@[q] == start.func.blocks@[bi as int].instructions@[q],
                self.bounded() ==> forall|q: int| 0 <= q < self.func.blocks@[bi as int].instructions@.len()
                    && listed(pending@.take(i as int), (#[trigger] self.func.blocks@[bi as int].instructions@[q]).id)
                    ==> (self.func.blocks@[bi as int].instructions@[q].kind matches InstKind::Phi(inc)
                        && names(inc@) == self.preds@[bi as int]@),
            decreases pending.len() - i,
        {
            let ghost mid = *self;
            let (var, phi, ty) = (&pending[i].0, pending[i].1, pending[i].2);
            assert(self.sealed_at(bi as int) == start.sealed_at(bi as int));
            assert(start.sealed_at(bi as int) == old(self).sealed_at(bi as int));
            assert(self.bound_in(bi as int, pending@[i as int].0@));
            assert(ids.contains(phi)) by {
                assert(pending@[i as int].1 == phi);
            }
            self.add_phi_operands(var.as_str(), phi, block, ty);
            proof {
                Self::lemma_adds_only_phis_trans(&*old(self), &mid, &*self);
                assert forall|j: int| 0 <= j < pending@.len() implies defined_in(self.func.blocks@, bi as int, (#[trigger] pending@[j]).1) by {
                    lemma_defined_in_kept(mid.func.blocks@, self.func.blocks@, bi as int, pending@[j].1);
                }
                assert forall|j: int| 0 <= j < pending@.len() implies self.bound_in(bi as int, (#[trigger] pending@[j]).0@) by {
                    assert(mid.bound_in(bi as int, pending@[j].0@));
                }
                assert(self.incomplete_at(bi as int) == mid.incomplete_at(bi as int));
                let tk = pending@.take(i + 1);
                assert(tk == pending@.take(i as int).push(pending@[i as int]));
                assert forall|q: int| 0 <= q < self.func.blocks@[bi as int].instructions@.len()
                    && !listed(tk, (#[trigger] self.func.blocks@[bi as int].instructions@[q]).id)
                    implies self.func.blocks@[bi as int].instructions@[q] == start.func.blocks@[bi as int].instructions@[q] by {
                    let id = self.func.blocks@[bi as int].instructions@[q].id;
                    assert(id != phi) by {
                        if id == phi {
                            assert(tk[i as int].1 == id);
                        }
                    }
                    assert(self.func.blocks@[bi as int].instructions@[q] == mid.func.blocks@[bi as int].instructions@[q]);
                    assert(!listed(pending@.take(i as int), id)) by {
                        if listed(pending@.take(i as int), id) {
                            let j = choose|j: int| 0 <= j < pending@.take(i as int).len() && (#[trigger] pending@.take(i as int)[j]).1 == id;
                            assert(tk[j].1 == id);
                        }
                    }
                }
                if self.bounded() {
                    assert(mid.bounded());
                    assert(self.preds@[bi as int]@ == mid.preds@[bi as int]@) by {
                        assert(self.preds_at(bi as int) == start.preds_at(bi as int));
                        assert(mid.preds_at(bi as int) == start.preds_at(bi as int));
                    }
                    assert forall|q: int| 0 <= q < self.func.blocks@[bi as int].instructions@.len()
                        && listed(tk, (#[trigger] self.func.blocks@[bi as int].instructions@[q]).id)
                        implies (self.func.blocks@[bi as int].instructions@[q].kind matches InstKind::Phi(inc)
                            && names(inc@) == self.preds@[bi as int]@) by {
                        let id = self.func.blocks@[bi as int].instructions@[q].id;
                        if id != phi {
                            assert(self.func.blocks@[bi as int].instructions@[q] == mid.func.blocks@[bi as int].instructions@[q]);
                            let j = choose|j: int| 0 <= j < tk.len() && (#[trigger] tk[j]).1 == id;
                            assert(j < i);
                            assert(pending@.take(i as int)[j].1 == id);
                            assert(listed(pending@.take(i as int), id));
                        }
                    }
                }
            }
            i += 1;
        }
        let ghost before = *self;
        self.sealed[bi] = true;
        self.parked = Ghost(Set::empty());
        proof {
            assert(self.preds@ == before.preds@);
            assert(forall|b: int| 0 <= b < self.sealed@.len() && b != bi ==> self.sealed@[b] == before.sealed@[b]);
            assert(self.preds@[bi as int]@ == old(self).preds@[bi as int]@) by {
                assert(start.preds_at(bi as int) == before.preds_at(bi as int));
            }
            assert(forall|b: int| 0 <= b < self.sealed@.len() && b != bi ==> #[trigger] self.sealed_at(b) == before.sealed_at(b));
            assert(forall|b: int| 0 <= b < self.sealed@.len() ==> #[trigger] before.sealed_at(b) == start.sealed_at(b));
            assert forall|b: int| 0 <= b < old(self).n_blocks() implies #[trigger] self.preds_at(b) == old(self).preds_at(b) by {
                assert(before.preds_at(b) == start.preds_at(b));
                assert(start.preds_at(b) == old(self).preds_at(b));
            }
            assert(pending@.take(pending@.len() as int) == pending@);
            if self.bounded() {
                assert(before.bounded());
                assert(start.bounded());
                assert(values_unique(self.func));
                assert forall|b: int, q: int| 0 <= b < self.func.blocks@.len() && 0 <= q < self.func.blocks@[b].instructions@.len()
                    implies self.phi_ok(b, #[trigger] self.func.blocks@[b].instructions@[q]) by {
                    let inst = self.func.blocks@[b].instructions@[q];
                    assert(self.func == before.func);
                    if b == bi {
                        if listed(pending@, inst.id) {
                            assert(listed(pending@.take(i as int), inst.id));
                        } else {
                            assert(!listed(pending@.take(i as int), inst.id));
                            assert(inst == start.func.blocks@[bi as int].instructions@[q]);
                            assert(start.phi_ok(b, inst));
                            assert(!start.parked@.contains(inst.id));
                            assert(!listed(start.incomplete_phis@[bi as int]@, inst.id));
                        }
                    } else {
                        assert(before.phi_ok(b, inst));
                        if before.parked@.contains(inst.id) {
                            let j = choose|j: int| 0 <= j < pending@.len() && (#[trigger] pending@[j]).1 == inst.id;
                            assert(defined_in(self.func.blocks@, bi as int, pending@[j].1));
                            let q2 = choose|q2: int| 0 <= q2 < self.func.blocks@[bi as int].instructions@.len()
                                && (#[trigger] self.func.blocks@[bi as int].instructions@[q2]).id == pending@[j].1;
                            assert(self.func.blocks@[bi as int].instructions@[q2].id == inst.id);
                        }
                        assert(self.settled(b, inst) == before.settled(b, inst));
                    }
                }
            }
        }
    }

    /// A consistent builder's function has its blocks numbered by position,
    /// starting with the entry block 0, every jump or branch goes to one of
    /// its blocks, no phi names a block twice, every value read is defined,
    /// and, while there are fewer values than `u32` numbers, no value is
    /// defined twice.
    pub proof fn lemma_wf_shape(&self)
        requires
            self.wf(),
        ensures
            1 <= self.n_blocks() <= u32::MAX,
            self.func_view().blocks@.len() == self.n_blocks(),
            forall|i: int| 0 <= i < self.n_blocks() ==> (#[trigger] self.func_view().blocks@[i]).id == BlockId(i as u32),
            self.func_view().entry == BlockId(0),
            forall|b: int, k: int| 0 <= b < self.n_blocks() && (#[trigger] self.func_view().blocks@[b]).terminator is Some
                && 0 <= k < crate::block::term_successors(self.func_view().blocks@[b].terminator->0).len()
                ==> (#[trigger] crate::block::term_successors(self.func_view().blocks@[b].terminator->0)[k]).0 < self.n_blocks(),
            forall|b: int, q: int| 0 <= b < self.n_blocks() && 0 <= q < self.func_view().blocks@[b].instructions@.len()
                ==> phi_names_distinct(#[trigger] self.func_view().blocks@[b].instructions@[q]),
            reads_all_defined(self.func_view()),
            forall|b: int| 0 <= b < self.n_blocks() ==> returns_fit(self.func_view().ret_ty, (#[trigger] self.func_view().blocks@[b]).terminator),
            self.func_view().params@.len() + inst_count(self.func_view().blocks@) <= u32::MAX ==> values_unique(self.func_view()),
    {
    }

    /// Once every block is sealed and no phi awaits its entries, and while
    /// value numbers have not wrapped, every phi has one entry per
    /// predecessor of its block, each naming one of them.
    pub proof fn lemma_phis_match_preds(&self)
        requires
            self.wf(),
            self.parked_set() == Set::<ValueId>::empty(),
            forall|b: int| 0 <= b < self.n_blocks() ==> #[trigger] self.sealed_at(b),
        ensures
            self.func_view().params@.len() + inst_count(self.func_view().blocks@) <= u32::MAX ==> forall|b: int, q: int|
                0 <= b < self.n_blocks() && 0 <= q < self.func_view().blocks@[b].instructions@.len()
                ==> phi_matches_preds(self.func_view(), b, #[trigger] self.func_view().blocks@[b].instructions@[q]),
    {
        if self.bounded() {
            let f = self.func;
            let n = f.blocks@.len();
            assert forall|b: int, q: int| 0 <= b < n && 0 <= q < f.blocks@[b].instructions@.len()
                implies phi_matches_preds(f, b, #[trigger] f.blocks@[b].instructions@[q]) by {
                let inst = f.blocks@[b].instructions@[q];
                if let InstKind::Phi(inc) = inst.kind {
                    assert(self.phi_ok(b, inst));
                    assert(self.sealed_at(b));
                    assert(!self.parked@.contains(inst.id));
                    assert(names(inc@) == self.preds@[b]@);
                    assert(!no_phi(f, b));
                    let pr = self.preds@[b]@;
                    let t = BlockId(b as u32);
                    let sq = preds_of(f.blocks@, t);
                    lemma_preds_of_unique(f.blocks@, t);
                    assert forall|j: int| 0 <= j < pr.len() implies has_edge(f, (#[trigger] pr[j]).0 as int, b) by {
                        if !has_edge(f, pr[j].0 as int, b) {
                            assert(no_phi(f, b));
                        }
                    }
                    assert forall|y: BlockId| pr.contains(y) <==> sq.contains(y) by {
                        lemma_preds_of_member(f.blocks@, t, y);
                        if pr.contains(y) {
                            let j = choose|j: int| 0 <= j < pr.len() && pr[j] == y;
                            assert(has_edge(f, pr[j].0 as int, b));
                            lemma_has_edge_edges(f, y.0 as int, b);
                        }
                        if sq.contains(y) {
                            lemma_has_edge_edges(f, y.0 as int, b);
                            assert(has_edge(f, y.0 as int, b));
                            assert(BlockId(y.0 as u32) == y);
                        }
                    }
                    assert(pr.no_duplicates()) by {
                        assert forall|a: int, c: int| 0 <= a < c < pr.len() implies pr[a] != pr[c] by {
                            assert(self.preds@[b]@[a] != self.preds@[b]@[c]);
                        }
                    }
                    assert(pr.to_set() =~= sq.to_set());
                    pr.unique_seq_to_set();
                    sq.unique_seq_to_set();
                    assert(inc@.len() == pr.len());
                    assert forall|e: int| 0 <= e < inc@.len() implies sq.contains(#[trigger] inc@[e].0) by {
                        assert(names(inc@)[e] == inc@[e].0);
                        assert(pr.contains(pr[e]));
                    }
                }
            }
        }
    }

    /// The function built.
    pub fn finish(self) -> (f: Function)
        ensures
            f == self.func_view(),
    {
        self.func
    }
}

} // verus!
