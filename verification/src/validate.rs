//! Structural and type validation of the typed SSA IR. Every operand must be
//! defined somewhere in its function (dominance is not checked), every phi
//! must name exactly its block's predecessors, every call must match its
//! callee's signature. The first defect found, in a fixed order, is reported.

use vstd::prelude::*;
use std::collections::{HashMap, HashSet};
use crate::block::{BasicBlock, Terminator};
use crate::function::{Function, find_block, preds_of, preds_map_ok};
use crate::inst::{InstKind, Instruction, bin_operand_type, bin_result_type, un_type};
use crate::module::{Module, find_function, lemma_find_function};
use crate::types::Type;
use crate::value::{BlockId, ValueId};
use crate::inst::{BinOp, UnOp};
use crate::interp::{RtValue, Outcome, spec_eval_bin, spec_eval_un};

verus! {

broadcast use vstd::std_specs::hash::group_hash_axioms;

#[derive(Debug, Clone, PartialEq, Eq)]
pub enum IrError {
    EmptyBlock { func: String, block: BlockId },
    MissingTerminator { func: String, block: BlockId },
    DuplicateValue { func: String, value: ValueId },
    DuplicateBlock { func: String, block: BlockId },
    UnknownEntryBlock { func: String, block: BlockId },
    UnknownBlock { func: String, block: BlockId, target: BlockId },
    UndefinedValue { func: String, block: BlockId, value: ValueId },
    TypeMismatch { func: String, block: BlockId, value: ValueId, expected: Type, actual: Type },
    PhiArityMismatch { func: String, block: BlockId, value: ValueId, expected: usize, given: usize },
    PhiUnknownPredecessor { func: String, block: BlockId, value: ValueId, named: BlockId },
    UnexpectedReturnValue { func: String, block: BlockId },
    MissingReturnValue { func: String, block: BlockId, expected: Type },
    UnknownCallee { func: String, block: BlockId, callee: String },
    CallArityMismatch { func: String, block: BlockId, callee: String, expected: usize, given: usize },
    CallToVoidFunctionUsedAsValue { func: String, block: BlockId, callee: String },
}

// ---- Definitions ----

/// Parameters are the values `0..params.len()`, with their declared types.
pub open spec fn param_defs(params: Seq<(String, Type)>) -> Map<u32, Type> {
    Map::new(|k: u32| (k as int) < params.len(), |k: u32| params[k as int].1)
}

/// Adds every instruction from block `bi`, instruction `ii` on to `defs`,
/// failing with the first value id that is already defined.
pub open spec fn collect_from(bs: Seq<BasicBlock>, bi: nat, ii: nat, defs: Map<u32, Type>) -> Result<
    Map<u32, Type>,
    ValueId,
>
    decreases bs.len() - bi, (if bi < bs.len() { bs[bi as int].instructions@.len() - ii } else { 0 }),
{
    if bi >= bs.len() {
        Ok(defs)
    } else if ii >= bs[bi as int].instructions@.len() {
        collect_from(bs, bi + 1, 0, defs)
    } else {
        let inst = bs[bi as int].instructions@[ii as int];
        if defs.contains_key(inst.id.0) {
            Err(inst.id)
        } else {
            collect_from(bs, bi, ii + 1, defs.insert(inst.id.0, inst.ty))
        }
    }
}

/// Every value `f` defines with its type, or the first duplicate definition.
pub open spec fn spec_definitions(f: Function) -> Result<Map<u32, Type>, ValueId> {
    collect_from(f.blocks@, 0, 0, param_defs(f.params@))
}

// ---- Per-instruction and per-terminator checks ----

pub open spec fn operand_error(f: Function, b: BlockId, defs: Map<u32, Type>, v: ValueId, expected: Type) -> Option<IrError> {
    if !defs.contains_key(v.0) {
        Some(IrError::UndefinedValue { func: f.name, block: b, value: v })
    } else if defs[v.0] != expected {
        Some(IrError::TypeMismatch { func: f.name, block: b, value: v, expected, actual: defs[v.0] })
    } else {
        None
    }
}

pub open spec fn args_error(f: Function, b: BlockId, defs: Map<u32, Type>, args: Seq<ValueId>, k: nat) -> Option<IrError>
    decreases args.len() - k,
{
    if k >= args.len() {
        None
    } else if !defs.contains_key(args[k as int].0) {
        Some(IrError::UndefinedValue { func: f.name, block: b, value: args[k as int] })
    } else {
        args_error(f, b, defs, args, k + 1)
    }
}

pub open spec fn incoming_error(
    f: Function,
    b: BlockId,
    defs: Map<u32, Type>,
    preds: Seq<BlockId>,
    inst: Instruction,
    incoming: Seq<(BlockId, ValueId)>,
    k: nat,
) -> Option<IrError>
    decreases incoming.len() - k,
{
    if k >= incoming.len() {
        None
    } else if !preds.contains(incoming[k as int].0) {
        Some(IrError::PhiUnknownPredecessor { func: f.name, block: b, value: inst.id, named: incoming[k as int].0 })
    } else {
        match operand_error(f, b, defs, incoming[k as int].1, inst.ty) {
            Some(e) => Some(e),
            None => incoming_error(f, b, defs, preds, inst, incoming, k + 1),
        }
    }
}

pub open spec fn result_type_error(f: Function, b: BlockId, inst: Instruction, expected: Type) -> Option<IrError> {
    if inst.ty != expected {
        Some(IrError::TypeMismatch { func: f.name, block: b, value: inst.id, expected, actual: inst.ty })
    } else {
        None
    }
}

/// The first defect of one instruction of block `b`.
pub open spec fn inst_error(f: Function, b: BlockId, defs: Map<u32, Type>, inst: Instruction) -> Option<IrError> {
    match inst.kind {
        InstKind::ConstI64(_) => result_type_error(f, b, inst, Type::I64),
        InstKind::ConstBool(_) => result_type_error(f, b, inst, Type::Bool),
        InstKind::Bin(op, lhs, rhs) => match operand_error(f, b, defs, lhs, bin_operand_type(op)) {
            Some(e) => Some(e),
            None => match operand_error(f, b, defs, rhs, bin_operand_type(op)) {
                Some(e) => Some(e),
                None => result_type_error(f, b, inst, bin_result_type(op)),
            },
        },
        InstKind::Un(op, a) => match operand_error(f, b, defs, a, un_type(op)) {
            Some(e) => Some(e),
            None => result_type_error(f, b, inst, un_type(op)),
        },
        InstKind::Call { args, .. } => args_error(f, b, defs, args@, 0),
        InstKind::Phi(incoming) => {
            let preds = preds_of(f.blocks@, b);
            if incoming@.len() != preds.len() {
                Some(IrError::PhiArityMismatch {
                    func: f.name,
                    block: b,
                    value: inst.id,
                    expected: preds.len() as usize,
                    given: incoming@.len() as usize,
                })
            } else {
                incoming_error(f, b, defs, preds, inst, incoming@, 0)
            }
        },
    }
}

pub open spec fn insts_error(f: Function, defs: Map<u32, Type>, blk: BasicBlock, k: nat) -> Option<IrError>
    decreases blk.instructions@.len() - k,
{
    if k >= blk.instructions@.len() {
        None
    } else {
        match inst_error(f, blk.id, defs, blk.instructions@[k as int]) {
            Some(e) => Some(e),
            None => insts_error(f, defs, blk, k + 1),
        }
    }
}

pub open spec fn known_block(f: Function, id: BlockId) -> bool {
    exists|j: int| 0 <= j < f.blocks@.len() && f.blocks@[j].id == id
}

pub open spec fn target_error(f: Function, b: BlockId, target: BlockId) -> Option<IrError> {
    if known_block(f, target) {
        None
    } else {
        Some(IrError::UnknownBlock { func: f.name, block: b, target })
    }
}

pub open spec fn term_error(f: Function, defs: Map<u32, Type>, blk: BasicBlock) -> Option<IrError> {
    match blk.terminator {
        None => Some(IrError::MissingTerminator { func: f.name, block: blk.id }),
        Some(Terminator::Jump(t)) => target_error(f, blk.id, t),
        Some(Terminator::Branch { cond, then_block, else_block }) => match operand_error(f, blk.id, defs, cond, Type::Bool) {
            Some(e) => Some(e),
            None => match target_error(f, blk.id, then_block) {
                Some(e) => Some(e),
                None => target_error(f, blk.id, else_block),
            },
        },
        Some(Terminator::Return(v)) => match (f.ret_ty, v) {
            (None, Some(_)) => Some(IrError::UnexpectedReturnValue { func: f.name, block: blk.id }),
            (Some(t), None) => Some(IrError::MissingReturnValue { func: f.name, block: blk.id, expected: t }),
            (Some(t), Some(x)) => operand_error(f, blk.id, defs, x, t),
            (None, None) => None,
        },
    }
}

pub open spec fn block_error(f: Function, defs: Map<u32, Type>, blk: BasicBlock) -> Option<IrError> {
    if blk.instructions@.len() == 0 && blk.terminator is None {
        Some(IrError::EmptyBlock { func: f.name, block: blk.id })
    } else {
        match insts_error(f, defs, blk, 0) {
            Some(e) => Some(e),
            None => term_error(f, defs, blk),
        }
    }
}

pub open spec fn blocks_error(f: Function, defs: Map<u32, Type>, k: nat) -> Option<IrError>
    decreases f.blocks@.len() - k,
{
    if k >= f.blocks@.len() {
        None
    } else {
        match block_error(f, defs, f.blocks@[k as int]) {
            Some(e) => Some(e),
            None => blocks_error(f, defs, k + 1),
        }
    }
}

/// The first block (from index `k` on) whose id an earlier block already has.
pub open spec fn duplicate_block(bs: Seq<BasicBlock>, k: nat) -> Option<BlockId>
    decreases bs.len() - k,
{
    if k >= bs.len() {
        None
    } else if exists|j: int| 0 <= j < k && bs[j].id == bs[k as int].id {
        Some(bs[k as int].id)
    } else {
        duplicate_block(bs, k + 1)
    }
}

/// The verdict on one function in isolation (calls are checked against
/// their callees only at module scope).
pub open spec fn spec_validate_function(f: Function) -> Result<(), IrError> {
    if find_block(f.blocks@, f.entry) is None {
        Err(IrError::UnknownEntryBlock { func: f.name, block: f.entry })
    } else if duplicate_block(f.blocks@, 0) is Some {
        Err(IrError::DuplicateBlock { func: f.name, block: duplicate_block(f.blocks@, 0)->0 })
    } else {
        match spec_definitions(f) {
            Err(v) => Err(IrError::DuplicateValue { func: f.name, value: v }),
            Ok(defs) => match blocks_error(f, defs, 0) {
                Some(e) => Err(e),
                None => Ok(()),
            },
        }
    }
}


/// Value `v` is defined in `f` with type `t`: it is a parameter of that
/// type, or an instruction of one of `f`'s blocks defines it with that type.
pub open spec fn defined_as(f: Function, v: ValueId, t: Type) -> bool {
    ||| (v.0 as int) < f.params@.len() && f.params@[v.0 as int].1 == t
    ||| exists|i: int, k: int| 0 <= i < f.blocks@.len() && 0 <= k < f.blocks@[i].instructions@.len()
        && (#[trigger] f.blocks@[i].instructions@[k]).id == v && f.blocks@[i].instructions@[k].ty == t
}

proof fn lemma_collect_from_sound(f: Function, bi: nat, ii: nat, defs: Map<u32, Type>)
    requires
        forall|key: u32| #[trigger] defs.contains_key(key) ==> defined_as(f, ValueId(key), defs[key]),
    ensures
        collect_from(f.blocks@, bi, ii, defs) matches Ok(d) ==> forall|key: u32| #[trigger] d.contains_key(key)
            ==> defined_as(f, ValueId(key), d[key]),
    decreases f.blocks@.len() - bi, (if bi < f.blocks@.len() { f.blocks@[bi as int].instructions@.len() - ii } else { 0 }),
{
    let bs = f.blocks@;
    if bi >= bs.len() {
    } else if ii >= bs[bi as int].instructions@.len() {
        lemma_collect_from_sound(f, bi + 1, 0, defs);
    } else {
        let inst = bs[bi as int].instructions@[ii as int];
        if !defs.contains_key(inst.id.0) {
            let d2 = defs.insert(inst.id.0, inst.ty);
            assert forall|key: u32| #[trigger] d2.contains_key(key) implies defined_as(f, ValueId(key), d2[key]) by {
                if key == inst.id.0 {
                    assert(f.blocks@[bi as int].instructions@[ii as int].id == ValueId(key));
                } else {
                    assert(defs.contains_key(key));
                }
            }
            lemma_collect_from_sound(f, bi, ii + 1, d2);
        }
    }
}

proof fn lemma_blocks_error_none(f: Function, defs: Map<u32, Type>, k: nat, i: int)
    requires
        blocks_error(f, defs, k) is None,
        k <= i < f.blocks@.len(),
    ensures
        block_error(f, defs, f.blocks@[i]) is None,
    decreases i - k,
{
    if k < i {
        lemma_blocks_error_none(f, defs, k + 1, i);
    }
}

/// A function that validates returns only values of its declared return
/// type, branches only on booleans and transfers control only to its own
/// blocks: each `ret v` returns a value `f` defines with type `f.ret_ty`, a
/// bare `ret` stands only in a function without a return type, each branch
/// condition is a value `f` defines as a boolean, every jump and branch
/// target is the id of one of `f`'s blocks, and so is the entry.
pub proof fn lemma_validated_terminators_typed(f: Function)
    requires
        spec_validate_function(f) is Ok,
    ensures
        forall|i: int| 0 <= i < f.blocks@.len() ==> match (#[trigger] f.blocks@[i]).terminator {
            Some(Terminator::Return(Some(v))) => f.ret_ty matches Some(t) && defined_as(f, v, t),
            Some(Terminator::Return(None)) => f.ret_ty is None,
            Some(Terminator::Branch { cond, then_block, else_block }) => defined_as(f, cond, Type::Bool)
                && (exists|j: int| 0 <= j < f.blocks@.len() && f.blocks@[j].id == then_block)
                && (exists|j: int| 0 <= j < f.blocks@.len() && f.blocks@[j].id == else_block),
            Some(Terminator::Jump(t)) => exists|j: int| 0 <= j < f.blocks@.len() && f.blocks@[j].id == t,
            None => true,
        },
        exists|j: int| 0 <= j < f.blocks@.len() && f.blocks@[j].id == f.entry,
{
    crate::function::lemma_find_block(f.blocks@, f.entry);
    let defs = spec_definitions(f)->Ok_0;
    assert forall|key: u32| #[trigger] param_defs(f.params@).contains_key(key)
        implies defined_as(f, ValueId(key), param_defs(f.params@)[key]) by {}
    lemma_collect_from_sound(f, 0, 0, param_defs(f.params@));
    assert forall|i: int| 0 <= i < f.blocks@.len() implies match (#[trigger] f.blocks@[i]).terminator {
        Some(Terminator::Return(Some(v))) => f.ret_ty matches Some(t) && defined_as(f, v, t),
        Some(Terminator::Return(None)) => f.ret_ty is None,
        Some(Terminator::Branch { cond, then_block, else_block }) => defined_as(f, cond, Type::Bool)
            && (exists|j: int| 0 <= j < f.blocks@.len() && f.blocks@[j].id == then_block)
            && (exists|j: int| 0 <= j < f.blocks@.len() && f.blocks@[j].id == else_block),
        Some(Terminator::Jump(t)) => exists|j: int| 0 <= j < f.blocks@.len() && f.blocks@[j].id == t,
        None => true,
    } by {
        lemma_blocks_error_none(f, defs, 0, i);
        let blk = f.blocks@[i];
        if blk.instructions@.len() == 0 && blk.terminator is None {
        } else {
            assert(insts_error(f, defs, blk, 0) is None);
            assert(term_error(f, defs, blk) is None);
            match blk.terminator {
                Some(Terminator::Return(Some(v))) => {
                    assert(defs.contains_key(v.0));
                },
                Some(Terminator::Branch { cond, .. }) => {
                    assert(defs.contains_key(cond.0));
                },
                _ => {},
            }
        }
    }
}

/// Run-time value `v` is of type `t`.
pub open spec fn has_type(v: RtValue, t: Type) -> bool {
    match v {
        RtValue::I64(_) => t == Type::I64,
        RtValue::Bool(_) => t == Type::Bool,
    }
}

/// Binary operation `op` on any operands of types `tl` and `tr` neither
/// gets stuck nor gives a value of another type than `t`.
pub open spec fn bin_sound(op: BinOp, tl: Type, tr: Type, t: Type) -> bool {
    forall|l: RtValue, r: RtValue| has_type(l, tl) && has_type(r, tr) ==> #[trigger] spec_eval_bin(op, l, r)
        != Err::<RtValue, Outcome>(Outcome::Stuck) && (spec_eval_bin(op, l, r) matches Ok(w) ==> has_type(w, t))
}

/// Unary operation `op` on any operand of type `ta` gives a value of type `t`.
pub open spec fn un_sound(op: UnOp, ta: Type, t: Type) -> bool {
    forall|a: RtValue| has_type(a, ta) ==> (#[trigger] spec_eval_un(op, a) matches Ok(w) && has_type(w, t))
}

/// What validation promises of one instruction of `f`: a constant has the
/// type of its literal, an operation reads values `f` defines, of types on
/// which it neither gets stuck nor gives a value of another type than the
/// instruction declares, and a phi takes only values of its own type.
pub open spec fn inst_typed(f: Function, inst: Instruction) -> bool {
    match inst.kind {
        InstKind::ConstI64(_) => inst.ty == Type::I64,
        InstKind::ConstBool(_) => inst.ty == Type::Bool,
        InstKind::Bin(op, x, y) => exists|tx: Type, ty: Type| #[trigger] defined_as(f, x, tx) && #[trigger] defined_as(f, y, ty)
            && bin_sound(op, tx, ty, inst.ty),
        InstKind::Un(op, x) => exists|tx: Type| #[trigger] defined_as(f, x, tx) && un_sound(op, tx, inst.ty),
        InstKind::Phi(inc) => forall|k: int| 0 <= k < inc@.len() ==> defined_as(f, (#[trigger] inc@[k]).1, inst.ty),
        _ => true,
    }
}

proof fn lemma_incoming_error_none(f: Function, b: BlockId, defs: Map<u32, Type>, preds: Seq<BlockId>, inst: Instruction,
    incoming: Seq<(BlockId, ValueId)>, k: nat, q: int)
    requires
        incoming_error(f, b, defs, preds, inst, incoming, k) is None,
        k <= q < incoming.len(),
    ensures
        defs.contains_key(incoming[q].1.0) && defs[incoming[q].1.0] == inst.ty,
    decreases q - k,
{
    if k < q {
        lemma_incoming_error_none(f, b, defs, preds, inst, incoming, k + 1, q);
    }
}

proof fn lemma_insts_error_none(f: Function, defs: Map<u32, Type>, blk: BasicBlock, k: nat, q: int)
    requires
        insts_error(f, defs, blk, k) is None,
        k <= q < blk.instructions@.len(),
    ensures
        inst_error(f, blk.id, defs, blk.instructions@[q]) is None,
    decreases q - k,
{
    if k < q {
        lemma_insts_error_none(f, defs, blk, k + 1, q);
    }
}

/// Every instruction of a function that validates is well typed: constants
/// have the type of their literal, each operation reads values the
/// function defines, of types on which it neither gets stuck nor gives a
/// value of another type than the instruction declares, and each phi takes
/// only values of its own type.
pub proof fn lemma_validated_instructions_typed(f: Function)
    requires
        spec_validate_function(f) is Ok,
    ensures
        forall|i: int, q: int| 0 <= i < f.blocks@.len() && 0 <= q < f.blocks@[i].instructions@.len()
            ==> inst_typed(f, #[trigger] f.blocks@[i].instructions@[q]),
{
    let defs = spec_definitions(f)->Ok_0;
    assert forall|key: u32| #[trigger] param_defs(f.params@).contains_key(key)
        implies defined_as(f, ValueId(key), param_defs(f.params@)[key]) by {}
    lemma_collect_from_sound(f, 0, 0, param_defs(f.params@));
    assert forall|i: int, q: int| 0 <= i < f.blocks@.len() && 0 <= q < f.blocks@[i].instructions@.len()
        implies inst_typed(f, #[trigger] f.blocks@[i].instructions@[q]) by {
        lemma_blocks_error_none(f, defs, 0, i);
        let blk = f.blocks@[i];
        assert(!(blk.instructions@.len() == 0 && blk.terminator is None));
        assert(insts_error(f, defs, blk, 0) is None);
        lemma_insts_error_none(f, defs, blk, 0, q);
        let inst = blk.instructions@[q];
        match inst.kind {
            InstKind::Bin(op, x, y) => {
                assert(defs.contains_key(x.0) && defs.contains_key(y.0));
                assert(defined_as(f, x, defs[x.0]) && defined_as(f, y, defs[y.0]));
                assert(bin_sound(op, defs[x.0], defs[y.0], inst.ty));
            },
            InstKind::Un(op, x) => {
                assert(defs.contains_key(x.0));
                assert(defined_as(f, x, defs[x.0]));
                assert(un_sound(op, defs[x.0], inst.ty));
            },
            InstKind::Phi(inc) => {
                assert forall|k: int| 0 <= k < inc@.len() implies defined_as(f, (#[trigger] inc@[k]).1, inst.ty) by {
                    lemma_incoming_error_none(f, blk.id, defs, preds_of(f.blocks@, blk.id), inst, inc@, 0, k);
                }
            },
            _ => {},
        }
    }
}

pub open spec fn as_result(o: Option<IrError>) -> Result<(), IrError> {
    match o {
        Some(e) => Err(e),
        None => Ok(()),
    }
}

/// Every value `func` defines, with its declared type: the parameters
/// (values `0..params.len()`), then every instruction in block order.
fn collect_definitions(func: &Function) -> (r: Result<HashMap<u32, Type>, IrError>)
    requires
        func.params@.len() <= u32::MAX,
    ensures
        match spec_definitions(*func) {
            Ok(d) => r matches Ok(m) && m@ == d,
            Err(v) => r == Err::<HashMap<u32, Type>, _>(IrError::DuplicateValue { func: func.name, value: v }),
        },
{
    let mut defs: HashMap<u32, Type> = HashMap::new();
    let mut i: usize = 0;
    while i < func.params.len()
        invariant
            func.params@.len() <= u32::MAX,
            0 <= i <= func.params@.len(),
            defs@ =~= Map::new(|k: u32| (k as int) < i, |k: u32| func.params@[k as int].1),
        decreases func.params.len() - i,
    {
        defs.insert(i as u32, func.params[i].1);
        i += 1;
    }
    assert(defs@ =~= param_defs(func.params@));
    let mut bi: usize = 0;
    while bi < func.blocks.len()
        invariant
            0 <= bi <= func.blocks@.len(),
            spec_definitions(*func) == collect_from(func.blocks@, bi as nat, 0, defs@),
        decreases func.blocks.len() - bi,
    {
        let insts = &func.blocks[bi].instructions;
        let mut ii: usize = 0;
        while ii < insts.len()
            invariant
                0 <= bi < func.blocks@.len(),
                insts == func.blocks@[bi as int].instructions,
                0 <= ii <= insts@.len(),
                spec_definitions(*func) == collect_from(func.blocks@, bi as nat, ii as nat, defs@),
            decreases insts.len() - ii,
        {
            let inst = &insts[ii];
            if defs.contains_key(&inst.id.0) {
                return Err(IrError::DuplicateValue { func: func.name.clone(), value: inst.id });
            }
            defs.insert(inst.id.0, inst.ty);
            ii += 1;
        }
        bi += 1;
    }
    Ok(defs)
}

fn check_operand(func: &Function, block: BlockId, defs: &HashMap<u32, Type>, operand: ValueId, expected: Type) -> (r: Result<(), IrError>)
    ensures
        r == as_result(operand_error(*func, block, defs@, operand, expected)),
{
    match defs.get(&operand.0) {
        None => Err(IrError::UndefinedValue { func: func.name.clone(), block, value: operand }),
        Some(actual) => {
            if *actual != expected {
                Err(IrError::TypeMismatch { func: func.name.clone(), block, value: operand, expected, actual: *actual })
            } else {
                Ok(())
            }
        },
    }
}

fn check_args(func: &Function, block: BlockId, defs: &HashMap<u32, Type>, args: &Vec<ValueId>) -> (r: Result<(), IrError>)
    ensures
        r == as_result(args_error(*func, block, defs@, args@, 0)),
{
    let mut k: usize = 0;
    while k < args.len()
        invariant
            0 <= k <= args@.len(),
            args_error(*func, block, defs@, args@, 0) == args_error(*func, block, defs@, args@, k as nat),
        decreases args.len() - k,
    {
        if !defs.contains_key(&args[k].0) {
            return Err(IrError::UndefinedValue { func: func.name.clone(), block, value: args[k] });
        }
        k += 1;
    }
    Ok(())
}

fn contains_block(v: &Vec<BlockId>, b: BlockId) -> (r: bool)
    ensures
        r == v@.contains(b),
{
    let mut i: usize = 0;
    while i < v.len()
        invariant
            0 <= i <= v@.len(),
            forall|j: int| 0 <= j < i ==> v@[j] != b,
        decreases v.len() - i,
    {
        if v[i] == b {
            assert(v@[i as int] == b);
            return true;
        }
        i += 1;
    }
    false
}

fn check_incoming(
    func: &Function,
    block: BlockId,
    defs: &HashMap<u32, Type>,
    preds: &Vec<BlockId>,
    inst: &Instruction,
    incoming: &Vec<(BlockId, ValueId)>,
) -> (r: Result<(), IrError>)
    ensures
        r == as_result(incoming_error(*func, block, defs@, preds@, *inst, incoming@, 0)),
{
    let mut k: usize = 0;
    while k < incoming.len()
        invariant
            0 <= k <= incoming@.len(),
            incoming_error(*func, block, defs@, preds@, *inst, incoming@, 0) == incoming_error(
                *func, block, defs@, preds@, *inst, incoming@, k as nat),
        decreases incoming.len() - k,
    {
        let (from, value) = incoming[k];
        if !contains_block(preds, from) {
            return Err(IrError::PhiUnknownPredecessor { func: func.name.clone(), block, value: inst.id, named: from });
        }
        match check_operand(func, block, defs, value, inst.ty) {
            Err(e) => { return Err(e); },
            Ok(()) => {},
        }
        k += 1;
    }
    Ok(())
}

fn check_result_type(func: &Function, block: BlockId, inst: &Instruction, expected: Type) -> (r: Result<(), IrError>)
    ensures
        r == as_result(result_type_error(*func, block, *inst, expected)),
{
    if inst.ty != expected {
        Err(IrError::TypeMismatch { func: func.name.clone(), block, value: inst.id, expected, actual: inst.ty })
    } else {
        Ok(())
    }
}

fn check_inst(func: &Function, block: BlockId, defs: &HashMap<u32, Type>, preds: &HashMap<u32, Vec<BlockId>>, inst: &Instruction) -> (r: Result<(), IrError>)
    requires
        preds_map_ok(preds@, func.blocks@),
    ensures
        r == as_result(inst_error(*func, block, defs@, *inst)),
{
    match &inst.kind {
        InstKind::ConstI64(_) => check_result_type(func, block, inst, Type::I64),
        InstKind::ConstBool(_) => check_result_type(func, block, inst, Type::Bool),
        InstKind::Bin(op, lhs, rhs) => {
            match check_operand(func, block, defs, *lhs, op.operand_type()) {
                Err(e) => { return Err(e); },
                Ok(()) => {},
            }
            match check_operand(func, block, defs, *rhs, op.operand_type()) {
                Err(e) => { return Err(e); },
                Ok(()) => {},
            }
            check_result_type(func, block, inst, op.result_type())
        },
        InstKind::Un(op, a) => {
            match check_operand(func, block, defs, *a, op.operand_type()) {
                Err(e) => { return Err(e); },
                Ok(()) => {},
            }
            check_result_type(func, block, inst, op.result_type())
        },
        InstKind::Call { args, .. } => check_args(func, block, defs, args),
        InstKind::Phi(incoming) => {
            let empty: Vec<BlockId> = Vec::new();
            let bp: &Vec<BlockId> = match preds.get(&block.0) {
                Some(v) => v,
                None => &empty,
            };
            assert(bp@ == preds_of(func.blocks@, block)) by {
                if !preds@.contains_key(block.0) {
                    assert(preds_of(func.blocks@, BlockId(block.0)).len() == 0);
                    assert(bp@ =~= preds_of(func.blocks@, block));
                }
            }
            if incoming.len() != bp.len() {
                return Err(IrError::PhiArityMismatch {
                    func: func.name.clone(),
                    block,
                    value: inst.id,
                    expected: bp.len(),
                    given: incoming.len(),
                });
            }
            check_incoming(func, block, defs, bp, inst, incoming)
        },
    }
}

fn check_target(func: &Function, block: BlockId, target: BlockId) -> (r: Result<(), IrError>)
    ensures
        r == as_result(target_error(*func, block, target)),
{
    proof { crate::function::lemma_find_block(func.blocks@, target); }
    if func.block(target).is_none() {
        Err(IrError::UnknownBlock { func: func.name.clone(), block, target })
    } else {
        Ok(())
    }
}

fn check_block(func: &Function, defs: &HashMap<u32, Type>, preds: &HashMap<u32, Vec<BlockId>>, blk: &BasicBlock) -> (r: Result<(), IrError>)
    requires
        preds_map_ok(preds@, func.blocks@),
    ensures
        r == as_result(block_error(*func, defs@, *blk)),
{
    if blk.instructions.len() == 0 && blk.terminator.is_none() {
        return Err(IrError::EmptyBlock { func: func.name.clone(), block: blk.id });
    }
    let mut k: usize = 0;
    while k < blk.instructions.len()
        invariant
            preds_map_ok(preds@, func.blocks@),
            0 <= k <= blk.instructions@.len(),
            insts_error(*func, defs@, *blk, 0) == insts_error(*func, defs@, *blk, k as nat),
        decreases blk.instructions.len() - k,
    {
        match check_inst(func, blk.id, defs, preds, &blk.instructions[k]) {
            Err(e) => { return Err(e); },
            Ok(()) => {},
        }
        k += 1;
    }
    match &blk.terminator {
        None => Err(IrError::MissingTerminator { func: func.name.clone(), block: blk.id }),
        Some(Terminator::Jump(t)) => check_target(func, blk.id, *t),
        Some(Terminator::Branch { cond, then_block, else_block }) => {
            match check_operand(func, blk.id, defs, *cond, Type::Bool) {
                Err(e) => { return Err(e); },
                Ok(()) => {},
            }
            match check_target(func, blk.id, *then_block) {
                Err(e) => { return Err(e); },
                Ok(()) => {},
            }
            check_target(func, blk.id, *else_block)
        },
        Some(Terminator::Return(value)) => match (func.ret_ty, value) {
            (None, Some(_)) => Err(IrError::UnexpectedReturnValue { func: func.name.clone(), block: blk.id }),
            (Some(expected), None) => Err(IrError::MissingReturnValue { func: func.name.clone(), block: blk.id, expected }),
            (Some(expected), Some(v)) => check_operand(func, blk.id, defs, *v, expected),
            (None, None) => Ok(()),
        },
    }
}

/// Validates one function in isolation: everything except whether each
/// call matches its callee, which needs the whole module.
pub fn validate_function(func: &Function) -> (r: Result<(), IrError>)
    requires
        func.params@.len() <= u32::MAX,
    ensures
        r == spec_validate_function(*func),
{
    proof { crate::function::lemma_find_block(func.blocks@, func.entry); }
    if func.block(func.entry).is_none() {
        return Err(IrError::UnknownEntryBlock { func: func.name.clone(), block: func.entry });
    }
    let mut seen: HashSet<u32> = HashSet::new();
    let mut k: usize = 0;
    while k < func.blocks.len()
        invariant
            0 <= k <= func.blocks@.len(),
            forall|x: u32| #[trigger] seen@.contains(x) <==> exists|j: int| 0 <= j < k && func.blocks@[j].id.0 == x,
            duplicate_block(func.blocks@, 0) == duplicate_block(func.blocks@, k as nat),
            find_block(func.blocks@, func.entry) is Some,
        decreases func.blocks.len() - k,
    {
        let id = func.blocks[k].id;
        let ghost old_seen = seen@;
        if !seen.insert(id.0) {
            proof {
                let j = choose|j: int| 0 <= j < k && func.blocks@[j].id.0 == id.0;
                assert(func.blocks@[j].id == func.blocks@[k as int].id);
                assert(exists|j: int| 0 <= j < k && func.blocks@[j].id == func.blocks@[k as int].id);
                assert(duplicate_block(func.blocks@, k as nat) == Some(id));
            }
            return Err(IrError::DuplicateBlock { func: func.name.clone(), block: id });
        }
        assert(!exists|j: int| 0 <= j < k && func.blocks@[j].id == func.blocks@[k as int].id) by {
            if exists|j: int| 0 <= j < k && func.blocks@[j].id == func.blocks@[k as int].id {
                let j = choose|j: int| 0 <= j < k && func.blocks@[j].id == func.blocks@[k as int].id;
                assert(old_seen.contains(func.blocks@[j].id.0));
            }
        }
        k += 1;
    }
    assert(duplicate_block(func.blocks@, 0) is None);
    let defs = match collect_definitions(func) {
        Err(e) => {
            assert(spec_definitions(*func) is Err);
            return Err(e);
        },
        Ok(d) => d,
    };
    let preds = func.predecessors();
    let mut k: usize = 0;
    while k < func.blocks.len()
        invariant
            0 <= k <= func.blocks@.len(),
            preds_map_ok(preds@, func.blocks@),
            blocks_error(*func, defs@, 0) == blocks_error(*func, defs@, k as nat),
            find_block(func.blocks@, func.entry) is Some,
            duplicate_block(func.blocks@, 0) is None,
            spec_definitions(*func) == Ok::<Map<u32, Type>, ValueId>(defs@),
        decreases func.blocks.len() - k,
    {
        match check_block(func, &defs, &preds, &func.blocks[k]) {
            Err(e) => { return Err(e); },
            Ok(()) => {},
        }
        k += 1;
    }
    Ok(())
}


// ---- Module scope ----

/// The first defect of any function of `fs` (from index `k` on) in isolation.
pub open spec fn functions_error(fs: Seq<Function>, k: nat) -> Option<IrError>
    decreases fs.len() - k,
{
    if k >= fs.len() {
        None
    } else {
        match spec_validate_function(fs[k as int]) {
            Err(e) => Some(e),
            Ok(_) => functions_error(fs, k + 1),
        }
    }
}

/// Index of the last function in `fs` named `name`.
pub open spec fn last_named(fs: Seq<Function>, name: Seq<char>) -> Option<int>
    decreases fs.len(),
{
    if fs.len() == 0 {
        None
    } else if fs.last().name@ == name {
        Some(fs.len() - 1)
    } else {
        last_named(fs.drop_last(), name)
    }
}

pub proof fn lemma_last_named(fs: Seq<Function>, name: Seq<char>)
    ensures
        match last_named(fs, name) {
            Some(i) => 0 <= i < fs.len() && fs[i].name@ == name && forall|j: int| i < j < fs.len() ==> fs[j].name@ != name,
            None => forall|j: int| 0 <= j < fs.len() ==> fs[j].name@ != name,
        },
    decreases fs.len(),
{
    if fs.len() > 0 {
        lemma_last_named(fs.drop_last(), name);
        assert(forall|j: int| 0 <= j < fs.len() - 1 ==> fs.drop_last()[j] == fs[j]);
    }
}

/// The definitions each call site is checked against: those of the last
/// function of the module carrying the caller's name (empty if that
/// function has a duplicate definition).
pub open spec fn defs_for(fs: Seq<Function>, name: Seq<char>) -> Map<u32, Type> {
    match last_named(fs, name) {
        Some(j) => match spec_definitions(fs[j]) {
            Ok(d) => d,
            Err(_) => Map::empty(),
        },
        None => Map::empty(),
    }
}

pub open spec fn call_args_error(f: Function, b: BlockId, defs: Map<u32, Type>, args: Seq<ValueId>, params: Seq<(String, Type)>, k: nat) -> Option<IrError>
    decreases args.len() - k,
{
    if k >= args.len() {
        None
    } else {
        match operand_error(f, b, defs, args[k as int], params[k as int].1) {
            Some(e) => Some(e),
            None => call_args_error(f, b, defs, args, params, k + 1),
        }
    }
}

/// The first defect of a call instruction against its callee's signature.
pub open spec fn call_error(m: Module, f: Function, defs: Map<u32, Type>, b: BlockId, inst: Instruction) -> Option<IrError> {
    match inst.kind {
        InstKind::Call { func: callee, args } => match find_function(m.functions@, callee@) {
            None => Some(IrError::UnknownCallee { func: f.name, block: b, callee }),
            Some(ci) => {
                let cf = m.functions@[ci];
                if cf.params@.len() != args@.len() {
                    Some(IrError::CallArityMismatch {
                        func: f.name,
                        block: b,
                        callee,
                        expected: cf.params@.len() as usize,
                        given: args@.len() as usize,
                    })
                } else {
                    match call_args_error(f, b, defs, args@, cf.params@, 0) {
                        Some(e) => Some(e),
                        None => match cf.ret_ty {
                            None => Some(IrError::CallToVoidFunctionUsedAsValue { func: f.name, block: b, callee }),
                            Some(t) => result_type_error(f, b, inst, t),
                        },
                    }
                }
            },
        },
        _ => None,
    }
}

pub open spec fn block_calls_error(m: Module, f: Function, defs: Map<u32, Type>, blk: BasicBlock, k: nat) -> Option<IrError>
    decreases blk.instructions@.len() - k,
{
    if k >= blk.instructions@.len() {
        None
    } else {
        match call_error(m, f, defs, blk.id, blk.instructions@[k as int]) {
            Some(e) => Some(e),
            None => block_calls_error(m, f, defs, blk, k + 1),
        }
    }
}

pub open spec fn function_calls_error(m: Module, f: Function, defs: Map<u32, Type>, k: nat) -> Option<IrError>
    decreases f.blocks@.len() - k,
{
    if k >= f.blocks@.len() {
        None
    } else {
        match block_calls_error(m, f, defs, f.blocks@[k as int], 0) {
            Some(e) => Some(e),
            None => function_calls_error(m, f, defs, k + 1),
        }
    }
}

pub open spec fn module_calls_error(m: Module, k: nat) -> Option<IrError>
    decreases m.functions@.len() - k,
{
    if k >= m.functions@.len() {
        None
    } else {
        let f = m.functions@[k as int];
        match function_calls_error(m, f, defs_for(m.functions@, f.name@), 0) {
            Some(e) => Some(e),
            None => module_calls_error(m, k + 1),
        }
    }
}

/// The verdict on a whole module: every function in isolation first, then
/// every call site against its callee.
pub open spec fn spec_validate_module(m: Module) -> Result<(), IrError> {
    match functions_error(m.functions@, 0) {
        Some(e) => Err(e),
        None => as_result(module_calls_error(m, 0)),
    }
}

/// Every function of the module has few enough parameters to number them.
pub open spec fn params_fit(m: Module) -> bool {
    forall|i: int| 0 <= i < m.functions@.len() ==> #[trigger] m.functions@[i].params@.len() <= u32::MAX
}

#[verifier::loop_isolation(false)]
fn check_call(m: &Module, func: &Function, defs: &HashMap<u32, Type>, block: BlockId, inst: &Instruction) -> (r: Result<(), IrError>)
    ensures
        r == as_result(call_error(*m, *func, defs@, block, *inst)),
{
    if let InstKind::Call { func: callee, args } = &inst.kind {
        proof { lemma_find_function(m.functions@, callee@); }
        let callee_fn = match m.function(callee.as_str()) {
            None => { return Err(IrError::UnknownCallee { func: func.name.clone(), block, callee: callee.clone() }); },
            Some(c) => c,
        };
        if callee_fn.params.len() != args.len() {
            return Err(IrError::CallArityMismatch {
                func: func.name.clone(),
                block,
                callee: callee.clone(),
                expected: callee_fn.params.len(),
                given: args.len(),
            });
        }
        let mut k: usize = 0;
        while k < args.len()
            invariant
                args@.len() == callee_fn.params@.len(),
                0 <= k <= args@.len(),
                call_args_error(*func, block, defs@, args@, callee_fn.params@, 0) == call_args_error(
                    *func, block, defs@, args@, callee_fn.params@, k as nat),
            decreases args.len() - k,
        {
            match check_operand(func, block, defs, args[k], callee_fn.params[k].1) {
                Err(e) => { return Err(e); },
                Ok(()) => {},
            }
            k += 1;
        }
        match callee_fn.ret_ty {
            None => Err(IrError::CallToVoidFunctionUsedAsValue { func: func.name.clone(), block, callee: callee.clone() }),
            Some(t) => check_result_type(func, block, inst, t),
        }
    } else {
        Ok(())
    }
}

/// Validates every function individually, then every call site against
/// its callee's signature.
#[verifier::loop_isolation(false)]
pub fn validate_module(module: &Module) -> (r: Result<(), IrError>)
    requires
        params_fit(*module),
    ensures
        r == spec_validate_module(*module),
{
    let fs = &module.functions;
    let mut k: usize = 0;
    while k < fs.len()
        invariant
            fs == module.functions,
            params_fit(*module),
            0 <= k <= fs@.len(),
            functions_error(fs@, 0) == functions_error(fs@, k as nat),
        decreases fs.len() - k,
    {
        match validate_function(&fs[k]) {
            Err(e) => { return Err(e); },
            Ok(()) => {},
        }
        k += 1;
    }
    let mut defs_all: Vec<HashMap<u32, Type>> = Vec::new();
    let mut k: usize = 0;
    while k < fs.len()
        invariant
            fs == module.functions,
            params_fit(*module),
            0 <= k <= fs@.len(),
            defs_all@.len() == k,
            forall|j: int| 0 <= j < k ==> (#[trigger] defs_all@[j])@ == match spec_definitions(fs@[j]) {
                Ok(d) => d,
                Err(_) => Map::<u32, Type>::empty(),
            },
        decreases fs.len() - k,
    {
        let d = match collect_definitions(&fs[k]) {
            Ok(d) => d,
            Err(_) => HashMap::new(),
        };
        defs_all.push(d);
        k += 1;
    }
    let mut k: usize = 0;
    while k < fs.len()
        invariant
            fs == module.functions,
            0 <= k <= fs@.len(),
            defs_all@.len() == fs@.len(),
            forall|j: int| 0 <= j < fs@.len() ==> (#[trigger] defs_all@[j])@ == match spec_definitions(fs@[j]) {
                Ok(d) => d,
                Err(_) => Map::<u32, Type>::empty(),
            },
            functions_error(fs@, 0) is None,
            module_calls_error(*module, 0) == module_calls_error(*module, k as nat),
        decreases fs.len() - k,
    {
        let func = &fs[k];
        // The last function carrying this name supplies the definitions.
        let mut src: usize = 0;
        let mut j: usize = 0;
        proof { lemma_last_named(fs@, func.name@); }
        while j < fs.len()
            invariant
                0 <= k < fs@.len(),
                func == fs@[k as int],
                0 <= j <= fs@.len(),
                src < fs@.len(),
                match last_named(fs@.take(j as int), func.name@) {
                    Some(i) => src == i,
                    None => j <= k,
                },
            decreases fs.len() - j,
        {
            assert(fs@.take(j + 1).drop_last() == fs@.take(j as int));
            if crate::module::str_eq(fs[j].name.as_str(), func.name.as_str()) {
                src = j;
            }
            j += 1;
        }
        assert(fs@.take(fs@.len() as int) == fs@);
        let defs = &defs_all[src];
        assert(defs@ == defs_for(fs@, func.name@));
        let mut b: usize = 0;
        while b < func.blocks.len()
            invariant
                0 <= k < fs@.len(),
                func == fs@[k as int],
                fs == module.functions,
                defs@ == defs_for(fs@, func.name@),
                0 <= b <= func.blocks@.len(),
                function_calls_error(*module, *func, defs@, 0) == function_calls_error(*module, *func, defs@, b as nat),
            decreases func.blocks.len() - b,
        {
            let blk = &func.blocks[b];
            let mut i: usize = 0;
            while i < blk.instructions.len()
                invariant
                    0 <= b < func.blocks@.len(),
                    blk == func.blocks@[b as int],
                    0 <= i <= blk.instructions@.len(),
                    block_calls_error(*module, *func, defs@, *blk, 0) == block_calls_error(*module, *func, defs@, *blk, i as nat),
                decreases blk.instructions.len() - i,
            {
                match check_call(module, func, defs, blk.id, &blk.instructions[i]) {
                    Err(e) => { return Err(e); },
                    Ok(()) => {},
                }
                i += 1;
            }
            b += 1;
        }
        k += 1;
    }
    Ok(())
}

} // verus!
