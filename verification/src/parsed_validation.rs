//! How far the parser's output is from valid IR: validation of a parsed
//! function, or of a parsed module, can only report a type mismatch. Every
//! other defect (a block without a terminator or an empty one, an unknown
//! entry or target block, a block or value defined twice, a value read but
//! never defined, a phi whose entries do not match its block's
//! predecessors, a return with or without a value against the function's
//! type, a call to an unknown function, with the wrong number of arguments
//! or to a function without a return type) the parser rules out by
//! construction.

use vstd::prelude::*;
use crate::block::{BasicBlock, Terminator};
use crate::function::Function;
use crate::inst::InstKind;
use crate::liveness::{inst_uses, term_uses};
use crate::parser::{lemma_parsed_blocks_validate, parsed_shape, calls_resolve, call_resolves};
use crate::module::{Module, find_function, lemma_find_function};
use crate::ssa_builder::{defines, inst_count, reads_defined, returns_fit, term_reads_defined, values_unique};
use crate::types::Type;
use crate::validate::{IrError, args_error, call_args_error, block_calls_error, function_calls_error, module_calls_error,
    functions_error, spec_validate_module, defs_for, last_named, lemma_last_named, block_error, blocks_error, collect_from, incoming_error, inst_error, insts_error,
    known_block, operand_error, param_defs, spec_definitions, spec_validate_function, target_error, term_error};
use crate::value::{BlockId, ValueId};

verus! {

/// The defects validation may still find in a parsed function.
pub open spec fn residual_error(e: IrError) -> bool {
    e is TypeMismatch
}

/// Position (`b2`, `q2`) comes at or after (`b`, `q`) in block order.
pub open spec fn at_or_after(b: int, q: int, b2: int, q2: int) -> bool {
    b2 > b || (b2 == b && q2 >= q)
}

/// Collecting definitions from (`bi`, `ii`) on succeeds when no id met from
/// there on is already in `defs` or met twice, and then holds `defs` and
/// every id met.
proof fn lemma_collect_ok(bs: Seq<BasicBlock>, bi: nat, ii: nat, defs: Map<u32, Type>)
    requires
        bi <= bs.len(),
        bi < bs.len() ==> ii <= bs[bi as int].instructions@.len(),
        forall|b: int, q: int| 0 <= b < bs.len() && 0 <= q < bs[b].instructions@.len() && at_or_after(bi as int, ii as int, b, q)
            ==> !defs.contains_key((#[trigger] bs[b].instructions@[q]).id.0),
        forall|b1: int, q1: int, b2: int, q2: int|
            0 <= b1 < bs.len() && 0 <= q1 < bs[b1].instructions@.len()
            && 0 <= b2 < bs.len() && 0 <= q2 < bs[b2].instructions@.len() && (b1 != b2 || q1 != q2)
            ==> (#[trigger] bs[b1].instructions@[q1]).id != (#[trigger] bs[b2].instructions@[q2]).id,
    ensures
        collect_from(bs, bi, ii, defs) is Ok,
        forall|k: u32| defs.contains_key(k) ==> #[trigger] (collect_from(bs, bi, ii, defs)->Ok_0).contains_key(k),
        forall|b: int, q: int| 0 <= b < bs.len() && 0 <= q < bs[b].instructions@.len() && at_or_after(bi as int, ii as int, b, q)
            ==> (collect_from(bs, bi, ii, defs)->Ok_0).contains_key((#[trigger] bs[b].instructions@[q]).id.0),
    decreases bs.len() - bi, (if bi < bs.len() { bs[bi as int].instructions@.len() - ii } else { 0 }),
{
    if bi >= bs.len() {
    } else if ii >= bs[bi as int].instructions@.len() {
        lemma_collect_ok(bs, bi + 1, 0, defs);
    } else {
        let inst = bs[bi as int].instructions@[ii as int];
        let defs2 = defs.insert(inst.id.0, inst.ty);
        assert forall|b: int, q: int| 0 <= b < bs.len() && 0 <= q < bs[b].instructions@.len() && at_or_after(bi as int, (ii + 1) as int, b, q)
            implies !defs2.contains_key((#[trigger] bs[b].instructions@[q]).id.0) by {
            assert(bs[b].instructions@[q].id != bs[bi as int].instructions@[ii as int].id);
        }
        lemma_collect_ok(bs, bi, ii + 1, defs2);
    }
}

/// Validation of a parsed function with fewer than `u32::MAX` values finds
/// nothing but a type mismatch.
pub proof fn lemma_parsed_function_errors(f: Function)
    requires
        parsed_shape(f),
        f.params@.len() + inst_count(f.blocks@) <= u32::MAX,
    ensures
        spec_validate_function(f) matches Err(e) ==> residual_error(e),
{
    lemma_parsed_blocks_validate(f);
    lemma_parsed_definitions(f);
    let defs = spec_definitions(f)->Ok_0;
    lemma_blocks_residual(f, defs, 0);
}

/// Collecting the definitions of a parsed function succeeds and finds every
/// value it defines.
proof fn lemma_parsed_definitions(f: Function)
    requires
        parsed_shape(f),
        f.params@.len() + inst_count(f.blocks@) <= u32::MAX,
    ensures
        spec_definitions(f) is Ok,
        checkable(f, spec_definitions(f)->Ok_0),
{
    assert(values_unique(f));
    let p = param_defs(f.params@);
    lemma_collect_ok(f.blocks@, 0, 0, p);
    let defs = spec_definitions(f)->Ok_0;
    assert forall|v: ValueId| defines(f, v) implies #[trigger] defs.contains_key(v.0) by {
        if (v.0 as int) < f.params@.len() {
            assert(p.contains_key(v.0));
        } else {
            let (b, q) = choose|b: int, q: int| 0 <= b < f.blocks@.len() && 0 <= q < f.blocks@[b].instructions@.len()
                && (#[trigger] f.blocks@[b].instructions@[q]).id.0 == v.0;
            assert(at_or_after(0, 0, b, q));
        }
    }
}

/// What the block checks need of a parsed function and its definitions.
pub open spec fn checkable(f: Function, defs: Map<u32, Type>) -> bool {
    &&& parsed_shape(f)
    &&& f.params@.len() + inst_count(f.blocks@) <= u32::MAX
    &&& forall|v: ValueId| defines(f, v) ==> #[trigger] defs.contains_key(v.0)
}

proof fn lemma_operand_residual(f: Function, b: BlockId, defs: Map<u32, Type>, v: ValueId, t: Type)
    requires
        checkable(f, defs),
        defines(f, v),
    ensures
        operand_error(f, b, defs, v, t) matches Some(e) ==> e is TypeMismatch,
{
    assert(defs.contains_key(v.0));
}

proof fn lemma_args_residual(f: Function, b: BlockId, defs: Map<u32, Type>, args: Seq<ValueId>, k: nat)
    requires
        checkable(f, defs),
        forall|i: int| 0 <= i < args.len() ==> defines(f, #[trigger] args[i]),
    ensures
        args_error(f, b, defs, args, k) is None,
    decreases args.len() - k,
{
    if k < args.len() {
        assert(defs.contains_key(args[k as int].0));
        lemma_args_residual(f, b, defs, args, k + 1);
    }
}

proof fn lemma_incoming_residual(f: Function, b: BlockId, defs: Map<u32, Type>, preds: Seq<BlockId>,
    inst: crate::inst::Instruction, incoming: Seq<(BlockId, ValueId)>, k: nat)
    requires
        checkable(f, defs),
        forall|i: int| 0 <= i < incoming.len() ==> defines(f, (#[trigger] incoming[i]).1),
        forall|i: int| 0 <= i < incoming.len() ==> preds.contains((#[trigger] incoming[i]).0),
    ensures
        incoming_error(f, b, defs, preds, inst, incoming, k) matches Some(e) ==> residual_error(e),
    decreases incoming.len() - k,
{
    if k < incoming.len() {
        lemma_operand_residual(f, b, defs, incoming[k as int].1, inst.ty);
        lemma_incoming_residual(f, b, defs, preds, inst, incoming, k + 1);
    }
}

proof fn lemma_insts_residual(f: Function, defs: Map<u32, Type>, bi: int, k: nat)
    requires
        checkable(f, defs),
        0 <= bi < f.blocks@.len(),
    ensures
        insts_error(f, defs, f.blocks@[bi], k) matches Some(e) ==> residual_error(e),
    decreases f.blocks@[bi].instructions@.len() - k,
{
    let blk = f.blocks@[bi];
    if k < blk.instructions@.len() {
        let inst = blk.instructions@[k as int];
        assert(reads_defined(f, inst.kind));
        match inst.kind {
            InstKind::Bin(op, l, r) => {
                assert(inst_uses(inst.kind)[0] == l);
                assert(inst_uses(inst.kind)[1] == r);
                lemma_operand_residual(f, blk.id, defs, l, crate::inst::bin_operand_type(op));
                lemma_operand_residual(f, blk.id, defs, r, crate::inst::bin_operand_type(op));
            },
            InstKind::Un(op, a) => {
                assert(inst_uses(inst.kind)[0] == a);
                lemma_operand_residual(f, blk.id, defs, a, crate::inst::un_type(op));
            },
            InstKind::Call { args, .. } => {
                assert forall|i: int| 0 <= i < args@.len() implies defines(f, #[trigger] args@[i]) by {
                    assert(inst_uses(inst.kind)[i] == args@[i]);
                }
                lemma_args_residual(f, blk.id, defs, args@, 0);
            },
            InstKind::Phi(inc) => {
                assert(crate::ssa_builder::phi_matches_preds(f, bi, inst));
                assert(blk.id == BlockId(bi as u32));
                lemma_incoming_residual(f, blk.id, defs, crate::function::preds_of(f.blocks@, blk.id), inst, inc@, 0);
            },
            _ => {},
        }
        lemma_insts_residual(f, defs, bi, k + 1);
    }
}

proof fn lemma_target_known(f: Function, b: BlockId, t: BlockId)
    requires
        parsed_shape(f),
        t.0 < f.blocks@.len(),
    ensures
        target_error(f, b, t) is None,
{
    assert(f.blocks@[t.0 as int].id == t);
    assert(known_block(f, t));
}

proof fn lemma_term_residual(f: Function, defs: Map<u32, Type>, bi: int)
    requires
        checkable(f, defs),
        0 <= bi < f.blocks@.len(),
    ensures
        term_error(f, defs, f.blocks@[bi]) matches Some(e) ==> residual_error(e),
{
    let blk = f.blocks@[bi];
    assert(term_reads_defined(f, blk.terminator));
    assert(returns_fit(f.ret_ty, blk.terminator));
    match blk.terminator {
        Some(Terminator::Jump(t)) => {
            assert(crate::block::term_successors(blk.terminator->0)[0] == t);
            lemma_target_known(f, blk.id, t);
        },
        Some(Terminator::Branch { cond, then_block, else_block }) => {
            assert(term_uses(blk.terminator)[0] == cond);
            lemma_operand_residual(f, blk.id, defs, cond, Type::Bool);
            assert(crate::block::term_successors(blk.terminator->0)[0] == then_block);
            assert(crate::block::term_successors(blk.terminator->0)[1] == else_block);
            lemma_target_known(f, blk.id, then_block);
            lemma_target_known(f, blk.id, else_block);
        },
        Some(Terminator::Return(Some(x))) => {
            assert(term_uses(blk.terminator)[0] == x);
            lemma_operand_residual(f, blk.id, defs, x, f.ret_ty->0);
        },
        _ => {},
    }
}

proof fn lemma_blocks_residual(f: Function, defs: Map<u32, Type>, k: nat)
    requires
        checkable(f, defs),
    ensures
        blocks_error(f, defs, k) matches Some(e) ==> residual_error(e),
    decreases f.blocks@.len() - k,
{
    if k < f.blocks@.len() {
        lemma_insts_residual(f, defs, k as int, 0);
        lemma_term_residual(f, defs, k as int);
        lemma_blocks_residual(f, defs, k + 1);
    }
}

/// Validation of a parsed module, each of whose functions has fewer than
/// `u32::MAX` values, finds nothing but a type mismatch: no unknown
/// callee, no call with the wrong number of arguments, no call to a
/// function without a return type, and none of the defects the functions
/// are free of on their own.
pub proof fn lemma_parsed_module_errors(m: Module)
    requires
        forall|i: int| 0 <= i < m.functions@.len() ==> parsed_shape(#[trigger] m.functions@[i]),
        forall|i: int| 0 <= i < m.functions@.len()
            ==> (#[trigger] m.functions@[i]).params@.len() + inst_count(m.functions@[i].blocks@) <= u32::MAX,
        forall|a: int, b: int| 0 <= a < b < m.functions@.len() ==> (#[trigger] m.functions@[a]).name@ != (#[trigger] m.functions@[b]).name@,
        calls_resolve(m),
    ensures
        spec_validate_module(m) matches Err(e) ==> residual_error(e),
{
    lemma_functions_residual(m.functions@, 0);
    lemma_module_calls_residual(m, 0);
}

proof fn lemma_functions_residual(fs: Seq<Function>, k: nat)
    requires
        forall|i: int| 0 <= i < fs.len() ==> parsed_shape(#[trigger] fs[i]),
        forall|i: int| 0 <= i < fs.len() ==> (#[trigger] fs[i]).params@.len() + inst_count(fs[i].blocks@) <= u32::MAX,
    ensures
        functions_error(fs, k) matches Some(e) ==> residual_error(e),
    decreases fs.len() - k,
{
    if k < fs.len() {
        lemma_parsed_function_errors(fs[k as int]);
        lemma_functions_residual(fs, k + 1);
    }
}

proof fn lemma_module_calls_residual(m: Module, k: nat)
    requires
        forall|i: int| 0 <= i < m.functions@.len() ==> parsed_shape(#[trigger] m.functions@[i]),
        forall|i: int| 0 <= i < m.functions@.len()
            ==> (#[trigger] m.functions@[i]).params@.len() + inst_count(m.functions@[i].blocks@) <= u32::MAX,
        forall|a: int, b: int| 0 <= a < b < m.functions@.len() ==> (#[trigger] m.functions@[a]).name@ != (#[trigger] m.functions@[b]).name@,
        calls_resolve(m),
    ensures
        module_calls_error(m, k) matches Some(e) ==> residual_error(e),
    decreases m.functions@.len() - k,
{
    if k < m.functions@.len() {
        let f = m.functions@[k as int];
        lemma_last_named(m.functions@, f.name@);
        let j = last_named(m.functions@, f.name@)->0;
        if j != k {
            if j < k {
                assert(m.functions@[j].name@ != m.functions@[k as int].name@);
            }
        }
        assert(j == k);
        lemma_parsed_definitions(f);
        let defs = spec_definitions(f)->Ok_0;
        assert(defs_for(m.functions@, f.name@) == defs);
        lemma_function_calls_residual(m, k as int, defs, 0);
        lemma_module_calls_residual(m, k + 1);
    }
}

proof fn lemma_function_calls_residual(m: Module, fi: int, defs: Map<u32, Type>, k: nat)
    requires
        0 <= fi < m.functions@.len(),
        forall|i: int| 0 <= i < m.functions@.len() ==> parsed_shape(#[trigger] m.functions@[i]),
        checkable(m.functions@[fi], defs),
        calls_resolve(m),
    ensures
        function_calls_error(m, m.functions@[fi], defs, k) matches Some(e) ==> residual_error(e),
    decreases m.functions@[fi].blocks@.len() - k,
{
    let f = m.functions@[fi];
    if k < f.blocks@.len() {
        lemma_block_calls_residual(m, fi, defs, k as int, 0);
        lemma_function_calls_residual(m, fi, defs, k + 1);
    }
}

proof fn lemma_block_calls_residual(m: Module, fi: int, defs: Map<u32, Type>, bi: int, k: nat)
    requires
        0 <= fi < m.functions@.len(),
        0 <= bi < m.functions@[fi].blocks@.len(),
        forall|i: int| 0 <= i < m.functions@.len() ==> parsed_shape(#[trigger] m.functions@[i]),
        checkable(m.functions@[fi], defs),
        calls_resolve(m),
    ensures
        block_calls_error(m, m.functions@[fi], defs, m.functions@[fi].blocks@[bi], k) matches Some(e) ==> residual_error(e),
    decreases m.functions@[fi].blocks@[bi].instructions@.len() - k,
{
    let f = m.functions@[fi];
    let blk = f.blocks@[bi];
    if k < blk.instructions@.len() {
        let inst = blk.instructions@[k as int];
        assert(call_resolves(m, m.functions@[fi].blocks@[bi].instructions@[k as int]));
        if let InstKind::Call { func: callee, args } = inst.kind {
            let ci = find_function(m.functions@, callee@)->0;
            lemma_find_function(m.functions@, callee@);
            assert(parsed_shape(m.functions@[ci]));
            assert(reads_defined(f, inst.kind));
            assert forall|i: int| 0 <= i < args@.len() implies defines(f, #[trigger] args@[i]) by {
                assert(inst_uses(inst.kind)[i] == args@[i]);
            }
            lemma_call_args_residual(f, blk.id, defs, args@, m.functions@[ci].params@, 0);
        }
        lemma_block_calls_residual(m, fi, defs, bi, k + 1);
    }
}

proof fn lemma_call_args_residual(f: Function, b: BlockId, defs: Map<u32, Type>, args: Seq<ValueId>, params: Seq<(String, Type)>, k: nat)
    requires
        checkable(f, defs),
        forall|i: int| 0 <= i < args.len() ==> defines(f, #[trigger] args[i]),
    ensures
        call_args_error(f, b, defs, args, params, k) matches Some(e) ==> residual_error(e),
    decreases args.len() - k,
{
    if k < args.len() {
        lemma_operand_residual(f, b, defs, args[k as int], params[k as int].1);
        lemma_call_args_residual(f, b, defs, args, params, k + 1);
    }
}

} // verus!
