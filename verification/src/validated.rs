//! What validation guarantees to code generation: a module that validates
//! meets everything `compile_module` needs, once its function names are
//! distinct and no phi names a predecessor twice — the two things the
//! validator itself does not check.

use vstd::prelude::*;
use crate::block::{BasicBlock, Terminator};
use crate::codegen::{codegen_ready, defined, func_ready, is_target, owner};
use crate::validate::lemma_last_named;
use crate::function::{Function, edges_into, find_block, lemma_find_block, preds_of};
use crate::inst::{InstKind, Instruction};
use crate::liveness::{block_index, first_incoming, flow_ready, inst_uses, mentions, operand_value, phi_values, term_targets,
    term_uses};
use crate::lower::{mentioned, phi_covers};
use crate::module::Module;
use crate::ready::{first_pos, lemma_first_incoming, lemma_phi_values};
use crate::ssa_builder::phi_names_distinct;
use crate::parser::parsed_shape;
use crate::types::Type;
use crate::validate::{args_error, block_error, blocks_error, collect_from, duplicate_block, functions_error, incoming_error,
    inst_error, insts_error, known_block, operand_error, param_defs, spec_definitions, spec_validate_function,
    spec_validate_module, target_error, term_error};
use crate::value::{BlockId, ValueId};

verus! {

proof fn lemma_functions_ok(fs: Seq<Function>, k: nat)
    requires
        functions_error(fs, k) is None,
    ensures
        forall|j: int| k <= j < fs.len() ==> #[trigger] spec_validate_function(fs[j]) is Ok,
    decreases fs.len() - k,
{
    if k < fs.len() {
        lemma_functions_ok(fs, k + 1);
    }
}

proof fn lemma_blocks_ok(f: Function, defs: Map<u32, Type>, k: nat)
    requires
        blocks_error(f, defs, k) is None,
    ensures
        forall|j: int| k <= j < f.blocks@.len() ==> #[trigger] block_error(f, defs, f.blocks@[j]) is None,
    decreases f.blocks@.len() - k,
{
    if k < f.blocks@.len() {
        lemma_blocks_ok(f, defs, k + 1);
    }
}

proof fn lemma_insts_ok(f: Function, defs: Map<u32, Type>, blk: BasicBlock, k: nat)
    requires
        insts_error(f, defs, blk, k) is None,
    ensures
        forall|j: int| k <= j < blk.instructions@.len() ==> #[trigger] inst_error(f, blk.id, defs, blk.instructions@[j]) is None,
    decreases blk.instructions@.len() - k,
{
    if k < blk.instructions@.len() {
        lemma_insts_ok(f, defs, blk, k + 1);
    }
}

proof fn lemma_args_ok(f: Function, b: BlockId, defs: Map<u32, Type>, args: Seq<ValueId>, k: nat)
    requires
        args_error(f, b, defs, args, k) is None,
    ensures
        forall|j: int| k <= j < args.len() ==> defs.contains_key((#[trigger] args[j]).0),
    decreases args.len() - k,
{
    if k < args.len() {
        lemma_args_ok(f, b, defs, args, k + 1);
    }
}

proof fn lemma_incoming_ok(f: Function, b: BlockId, defs: Map<u32, Type>, preds: Seq<BlockId>, inst: Instruction,
    inc: Seq<(BlockId, ValueId)>, k: nat)
    requires
        incoming_error(f, b, defs, preds, inst, inc, k) is None,
    ensures
        forall|j: int| k <= j < inc.len() ==> preds.contains((#[trigger] inc[j]).0) && defs.contains_key(inc[j].1.0),
    decreases inc.len() - k,
{
    if k < inc.len() {
        lemma_incoming_ok(f, b, defs, preds, inst, inc, k + 1);
    }
}

/// Every value number the definitions hold is a starting one or the id of
/// some instruction.
proof fn lemma_collected(bs: Seq<BasicBlock>, bi: nat, ii: nat, defs: Map<u32, Type>)
    requires
        collect_from(bs, bi, ii, defs) is Ok,
    ensures
        forall|v: u32| #[trigger] (collect_from(bs, bi, ii, defs)->Ok_0).contains_key(v) ==> defs.contains_key(v)
            || exists|b: int, i: int| 0 <= b < bs.len() && 0 <= i < bs[b].instructions@.len() && (#[trigger] bs[b].instructions@[i]).id.0 == v,
    decreases bs.len() - bi, (if bi < bs.len() { bs[bi as int].instructions@.len() - ii } else { 0 }),
{
    if bi < bs.len() {
        if ii >= bs[bi as int].instructions@.len() {
            lemma_collected(bs, bi + 1, 0, defs);
        } else {
            let inst = bs[bi as int].instructions@[ii as int];
            let d2 = defs.insert(inst.id.0, inst.ty);
            lemma_collected(bs, bi, ii + 1, d2);
            assert forall|v: u32| #[trigger] (collect_from(bs, bi, ii, defs)->Ok_0).contains_key(v) implies defs.contains_key(v)
                || exists|b: int, i: int| 0 <= b < bs.len() && 0 <= i < bs[b].instructions@.len() && (#[trigger] bs[b].instructions@[i]).id.0 == v by {
                if v == inst.id.0 && !defs.contains_key(v) {
                    assert(bs[bi as int].instructions@[ii as int].id.0 == v);
                }
            }
        }
    }
}

/// Where block `i` jumps or branches to `t`, block `i` is one of `t`'s predecessors.
proof fn lemma_edge_pred(bs: Seq<BasicBlock>, i: int, t: BlockId)
    requires
        0 <= i < bs.len(),
        term_targets(bs[i]).contains(t),
    ensures
        preds_of(bs, t).contains(bs[i].id),
    decreases bs.len(),
{
    let rest = bs.drop_last();
    if i == bs.len() - 1 {
        let e = edges_into(bs.last(), t);
        assert(e.contains(bs[i].id)) by {
            match bs[i].terminator {
                Some(Terminator::Jump(x)) => {
                    assert(term_targets(bs[i]) =~= seq![x]);
                    assert(e[0] == bs[i].id);
                },
                Some(Terminator::Branch { then_block, else_block, .. }) => {
                    assert(term_targets(bs[i]) =~= seq![then_block, else_block]);
                    if then_block == t {
                        assert(e[0] == bs[i].id);
                    } else {
                        assert(e[0] == bs[i].id);
                    }
                },
                _ => {
                    assert(term_targets(bs[i]) =~= Seq::<BlockId>::empty());
                },
            }
        }
        let k = choose|k: int| 0 <= k < e.len() && e[k] == bs[i].id;
        assert(preds_of(bs, t)[preds_of(rest, t).len() + k] == bs[i].id);
    } else {
        assert(rest[i] == bs[i]);
        lemma_edge_pred(rest, i, t);
        let k = choose|k: int| 0 <= k < preds_of(rest, t).len() && preds_of(rest, t)[k] == bs[i].id;
        assert(preds_of(bs, t)[k] == bs[i].id);
    }
}

/// A phi that names each predecessor at most once, as many entries as
/// predecessors, each of them a predecessor, names every predecessor.
proof fn lemma_names_cover(names: Seq<BlockId>, preds: Seq<BlockId>, x: BlockId)
    requires
        names.no_duplicates(),
        names.len() == preds.len(),
        forall|j: int| 0 <= j < names.len() ==> preds.contains(#[trigger] names[j]),
        preds.contains(x),
    ensures
        names.contains(x),
{
    broadcast use vstd::seq_lib::seq_to_set_is_finite;
    let sn = names.to_set();
    let sp = preds.to_set();
    names.unique_seq_to_set();
    preds.lemma_cardinality_of_set();
    assert(sn.subset_of(sp)) by {
        assert forall|y: BlockId| sn.contains(y) implies sp.contains(y) by {
            let j = choose|j: int| 0 <= j < names.len() && names[j] == y;
            assert(preds.contains(names[j]));
        }
    }
    vstd::set_lib::lemma_len_subset(sn, sp);
    vstd::set_lib::lemma_subset_equality(sn, sp);
    assert(sp.contains(x));
    assert(sn.contains(x));
}

/// No phi of `f` names a block twice.
pub open spec fn phis_distinct(f: Function) -> bool {
    forall|i: int, q: int| 0 <= i < f.blocks@.len() && 0 <= q < f.blocks@[i].instructions@.len()
        ==> #[trigger] phi_names_distinct(f.blocks@[i].instructions@[q])
}


/// A phi of a validated block names only predecessors, one entry per edge.
pub open spec fn phi_fits_preds(f: Function, b: BlockId, inst: Instruction) -> bool {
    match inst.kind {
        InstKind::Phi(inc) => inc@.len() == preds_of(f.blocks@, b).len()
            && forall|e: int| 0 <= e < inc@.len() ==> preds_of(f.blocks@, b).contains(#[trigger] inc@[e].0),
        _ => true,
    }
}

proof fn lemma_inst_facts(f: Function, defs: Map<u32, Type>, b: BlockId, inst: Instruction)
    requires
        inst_error(f, b, defs, inst) is None,
    ensures
        forall|x: ValueId| #[trigger] inst_uses(inst.kind).contains(x) ==> defs.contains_key(x.0),
        phi_fits_preds(f, b, inst),
        inst.kind matches InstKind::Phi(inc) ==> forall|e: int| 0 <= e < inc@.len() ==> defs.contains_key((#[trigger] inc@[e]).1.0),
{
    match inst.kind {
        InstKind::Bin(op, l, r) => {
            assert(inst_uses(inst.kind) =~= seq![l, r]);
        },
        InstKind::Un(op, a) => {
            assert(inst_uses(inst.kind) =~= seq![a]);
        },
        InstKind::Call { args, .. } => {
            lemma_args_ok(f, b, defs, args@, 0);
            assert forall|x: ValueId| #[trigger] inst_uses(inst.kind).contains(x) implies defs.contains_key(x.0) by {
                let j = choose|j: int| 0 <= j < args@.len() && args@[j] == x;
                assert(defs.contains_key(args@[j].0));
            }
        },
        InstKind::Phi(inc) => {
            assert(inst_uses(inst.kind) =~= Seq::<ValueId>::empty());
            lemma_incoming_ok(f, b, defs, preds_of(f.blocks@, b), inst, inc@, 0);
        },
        _ => {
            assert(inst_uses(inst.kind) =~= Seq::<ValueId>::empty());
        },
    }
}

proof fn lemma_block_facts(f: Function, defs: Map<u32, Type>, blk: BasicBlock)
    requires
        block_error(f, defs, blk) is None,
    ensures
        blk.terminator is Some,
        forall|v: u32| #[trigger] mentions(blk, v) ==> defs.contains_key(v),
        forall|k: int| 0 <= k < term_targets(blk).len() ==> known_block(f, #[trigger] term_targets(blk)[k]),
        forall|q: int| 0 <= q < blk.instructions@.len() ==> phi_fits_preds(f, blk.id, #[trigger] blk.instructions@[q]),
{
    let insts = blk.instructions@;
    lemma_insts_ok(f, defs, blk, 0);
    assert(term_error(f, defs, blk) is None);
    assert forall|q: int| 0 <= q < insts.len() implies phi_fits_preds(f, blk.id, #[trigger] insts[q]) by {
        lemma_inst_facts(f, defs, blk.id, insts[q]);
    }
    match blk.terminator {
        Some(Terminator::Jump(t)) => {
            assert(term_targets(blk) =~= seq![t]);
        },
        Some(Terminator::Branch { cond, then_block, else_block }) => {
            assert(term_targets(blk) =~= seq![then_block, else_block]);
        },
        _ => {
            assert(term_targets(blk) =~= Seq::<BlockId>::empty());
        },
    }
    assert forall|v: u32| #[trigger] mentions(blk, v) implies defs.contains_key(v) by {
        if exists|k: int| 0 <= k < insts.len() && #[trigger] inst_uses(insts[k].kind).contains(ValueId(v)) {
            let k = choose|k: int| 0 <= k < insts.len() && #[trigger] inst_uses(insts[k].kind).contains(ValueId(v));
            lemma_inst_facts(f, defs, blk.id, insts[k]);
        } else if term_uses(blk.terminator).contains(ValueId(v)) {
            match blk.terminator {
                Some(Terminator::Branch { cond, .. }) => { assert(term_uses(blk.terminator) =~= seq![cond]); },
                Some(Terminator::Return(Some(x))) => { assert(term_uses(blk.terminator) =~= seq![x]); },
                _ => { assert(term_uses(blk.terminator) =~= Seq::<ValueId>::empty()); },
            }
        } else {
            let from = choose|from: BlockId| #[trigger] phi_values(insts, from).contains(v);
            lemma_phi_values(insts, from, v);
            let k = choose|k: int| 0 <= k < insts.len() && (#[trigger] insts[k]).kind is Phi
                && first_incoming(insts[k].kind->Phi_0@, from) == Some(ValueId(v));
            let inc = insts[k].kind->Phi_0@;
            lemma_first_incoming(inc, from);
            let p = first_pos(inc, from);
            lemma_inst_facts(f, defs, blk.id, insts[k]);
            assert(inc[p] == (from, ValueId(v)));
            assert(defs.contains_key(inc[p].1.0));
        }
    }
}

proof fn lemma_phi_covers(f: Function, i: int, k: int, q: int)
    requires
        flow_ready(f),
        phis_distinct(f),
        0 <= i < f.blocks@.len(),
        0 <= k < term_targets(f.blocks@[i]).len(),
        0 <= q < f.blocks@[block_index(f, term_targets(f.blocks@[i])[k])].instructions@.len(),
        phi_fits_preds(f, term_targets(f.blocks@[i])[k], f.blocks@[block_index(f, term_targets(f.blocks@[i])[k])].instructions@[q]),
    ensures
        phi_covers(f.blocks@[block_index(f, term_targets(f.blocks@[i])[k])].instructions@[q], f.blocks@[i].id),
{
    let t = term_targets(f.blocks@[i])[k];
    assert(f.blocks@[i].terminator is Some);
    assert(crate::block::term_successors(f.blocks@[i].terminator->0)[k] == t);
    assert(find_block(f.blocks@, t) is Some);
    lemma_find_block(f.blocks@, t);
    let ti = block_index(f, t);
    assert(0 <= ti < f.blocks@.len());
    let inst = f.blocks@[ti].instructions@[q];
    match inst.kind {
        InstKind::Phi(inc) => {
            assert(phi_names_distinct(f.blocks@[ti].instructions@[q]));
            let names = inc@.map_values(|e: (BlockId, ValueId)| e.0);
            let preds = preds_of(f.blocks@, t);
            assert(term_targets(f.blocks@[i]).contains(t));
            lemma_edge_pred(f.blocks@, i, t);
            assert forall|j: int| 0 <= j < names.len() implies preds.contains(#[trigger] names[j]) by {
                assert(names[j] == inc@[j].0);
            }
            assert(names.no_duplicates()) by {
                assert forall|a: int, b: int| 0 <= a < names.len() && 0 <= b < names.len() && a != b implies names[a] != names[b] by {
                    if a < b {
                        assert(inc@[a].0 != inc@[b].0);
                    } else {
                        assert(inc@[b].0 != inc@[a].0);
                    }
                }
            }
            lemma_names_cover(names, preds, f.blocks@[i].id);
            let e = choose|e: int| 0 <= e < names.len() && names[e] == f.blocks@[i].id;
            lemma_first_incoming(inc@, f.blocks@[i].id);
            assert(inc@[e].0 == f.blocks@[i].id);
        },
        _ => {},
    }
}

/// Every function that validates, with at most `u32::MAX` blocks and no phi
/// naming a block twice, is ready for code generation.
pub proof fn lemma_validated_function_ready(f: Function)
    requires
        spec_validate_function(f) is Ok,
        f.blocks@.len() <= u32::MAX,
        phis_distinct(f),
    ensures
        func_ready(f),
{
    lemma_find_block(f.blocks@, f.entry);
    let defs = spec_definitions(f)->Ok_0;
    lemma_blocks_ok(f, defs, 0);
    lemma_collected(f.blocks@, 0, 0, param_defs(f.params@));
    assert forall|j: int| 0 <= j < f.blocks@.len() implies #[trigger] f.blocks@[j].terminator is Some
        && (forall|v: u32| #[trigger] mentions(f.blocks@[j], v) ==> defs.contains_key(v))
        && (forall|k: int| 0 <= k < term_targets(f.blocks@[j]).len() ==> known_block(f, #[trigger] term_targets(f.blocks@[j])[k]))
        && (forall|q: int| 0 <= q < f.blocks@[j].instructions@.len() ==> phi_fits_preds(f, f.blocks@[j].id, #[trigger] f.blocks@[j].instructions@[q])) by {
        lemma_block_facts(f, defs, f.blocks@[j]);
    }
    assert forall|i: int, k: int| 0 <= i < f.blocks@.len() && (#[trigger] f.blocks@[i]).terminator is Some
        && 0 <= k < crate::block::term_successors(f.blocks@[i].terminator->0).len()
        implies find_block(f.blocks@, #[trigger] crate::block::term_successors(f.blocks@[i].terminator->0)[k]) is Some by {
        let t = crate::block::term_successors(f.blocks@[i].terminator->0)[k];
        assert(term_targets(f.blocks@[i])[k] == t);
        assert(known_block(f, t));
        lemma_find_block(f.blocks@, t);
        let w = choose|w: int| 0 <= w < f.blocks@.len() && f.blocks@[w].id == t;
    }
    assert(flow_ready(f));
    assert forall|v: u32| #[trigger] mentioned(f, v) implies v < f.params@.len() || defined(f, v) by {
        if operand_value(f, v) {
            let i = choose|i: int| 0 <= i < f.blocks@.len() && #[trigger] mentions(f.blocks@[i], v);
            assert(defs.contains_key(v));
            if param_defs(f.params@).contains_key(v) {
            } else {
                let (b, i2) = choose|b: int, i2: int| 0 <= b < f.blocks@.len() && 0 <= i2 < f.blocks@[b].instructions@.len()
                    && (#[trigger] f.blocks@[b].instructions@[i2]).id.0 == v;
                assert(defined(f, v));
            }
        }
    }
    assert forall|i: int, k: int, q: int| 0 <= i < f.blocks@.len() && 0 <= k < term_targets(f.blocks@[i]).len()
        && 0 <= q < f.blocks@[block_index(f, #[trigger] term_targets(f.blocks@[i])[k])].instructions@.len()
        implies phi_covers(#[trigger] f.blocks@[block_index(f, term_targets(f.blocks@[i])[k])].instructions@[q], f.blocks@[i].id) by {
        let t = term_targets(f.blocks@[i])[k];
        assert(known_block(f, t));
        lemma_find_block(f.blocks@, t);
        let w = choose|w: int| 0 <= w < f.blocks@.len() && f.blocks@[w].id == t;
        let ti = block_index(f, t);
        assert(0 <= ti < f.blocks@.len());
        assert(f.blocks@[ti].id == t);
        assert(f.blocks@[ti].terminator is Some);
        assert(phi_fits_preds(f, f.blocks@[ti].id, f.blocks@[ti].instructions@[q]));
        lemma_phi_covers(f, i, k, q);
    }
}

/// A module that validates is ready for code generation, provided its
/// function names are distinct, no function has more than `u32::MAX`
/// blocks, and no phi names a block twice.
pub proof fn lemma_validated_module_ready(m: Module)
    requires
        spec_validate_module(m) is Ok,
        forall|i: int| 0 <= i < m.functions@.len() ==> (#[trigger] m.functions@[i]).blocks@.len() <= u32::MAX,
        forall|i: int| 0 <= i < m.functions@.len() ==> phis_distinct(#[trigger] m.functions@[i]),
        forall|a: int, b: int| 0 <= a < b < m.functions@.len() ==> (#[trigger] m.functions@[a]).name@ != (#[trigger] m.functions@[b]).name@,
    ensures
        codegen_ready(m),
{
    lemma_functions_ok(m.functions@, 0);
    assert forall|i: int| 0 <= i < m.functions@.len() implies func_ready(#[trigger] m.functions@[i]) by {
        lemma_validated_function_ready(m.functions@[i]);
    }
    assert forall|i: int, x: BlockId| 0 <= i < m.functions@.len() && #[trigger] is_target(m.functions@[i], x)
        implies find_block(m.functions@[owner(m, i)].blocks@, x) is Some by {
        reveal(is_target);
        let f = m.functions@[i];
        lemma_last_named(m.functions@, f.name@);
        let w = owner(m, i);
        if w != i {
            if w < i {
                assert(m.functions@[w].name@ != m.functions@[i].name@);
            }
        }
        assert(func_ready(f));
        let (b, k) = choose|b: int, k: int| 0 <= b < f.blocks@.len() && 0 <= k < term_targets(f.blocks@[b]).len()
            && #[trigger] term_targets(f.blocks@[b])[k] == x;
        assert(f.blocks@[b].terminator is Some);
        assert(term_targets(f.blocks@[b]) == crate::block::term_successors(f.blocks@[b].terminator->0));
    }
}

/// A module shaped as the parser returns it (every function as `parse`
/// promises, no two functions sharing a name) that passes validation is
/// ready for code generation.
pub proof fn lemma_parsed_validated_ready(m: Module)
    requires
        forall|i: int| 0 <= i < m.functions@.len() ==> parsed_shape(#[trigger] m.functions@[i]),
        forall|a: int, b: int| 0 <= a < b < m.functions@.len() ==> (#[trigger] m.functions@[a]).name@ != (#[trigger] m.functions@[b]).name@,
        spec_validate_module(m) is Ok,
    ensures
        codegen_ready(m),
{
    assert forall|i: int| 0 <= i < m.functions@.len() implies phis_distinct(#[trigger] m.functions@[i]) by {
        let f = m.functions@[i];
        assert(parsed_shape(f));
        assert forall|b: int, q: int| 0 <= b < f.blocks@.len() && 0 <= q < f.blocks@[b].instructions@.len()
            implies #[trigger] phi_names_distinct(f.blocks@[b].instructions@[q]) by {}
    }
    lemma_validated_module_ready(m);
}

} // verus!
