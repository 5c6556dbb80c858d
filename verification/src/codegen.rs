//! Compiles a module's typed SSA functions into one register-machine
//! program: every function is register-allocated and lowered on its own,
//! then the blocks of all of them are laid out in one array and every jump
//! and call target is resolved to an absolute block index.

use vstd::prelude::*;
use crate::block::Terminator;
use crate::function::{Function, find_block};
use crate::lower::{lower_function, lowered_index, pending_view, pending_views, PendingBlock, located, block_start, blocks_spec, insts_spec, inst_spec, term_spec, lower_ready, mentioned, mi, phi_covers,
    PendingTerm};
use crate::liveness::{block_index, flow_ready, term_targets};
use crate::machine::{MachBlock, MachInst, Opcode, Program};
use crate::module::{Module, find_function, lemma_find_function};
use crate::validate::{last_named, lemma_last_named};
use crate::regalloc::{allocate, colored_values, greedy_alloc, AllocView, RegAllocError, STACK_PTR};
use crate::text::{append_digits, nat_text};
use crate::module::str_eq;
use vstd::string::StringSliceAdditionalSpecFns;
use std::collections::HashMap;
use vstd::string::StringExecFns;
use crate::value::BlockId;

verus! {

/// Every way compilation can fail.
#[derive(Debug, Clone, PartialEq, Eq)]
pub enum CodegenError {
    RegAlloc(RegAllocError),
    OutOfSpillSpace { func: String },
    ConstantTooLarge { func: String, value: i64 },
    UnknownCallee { callee: String },
    TooManyFunctionsForMemoryLayout { count: usize },
}


/// Each function's memory for its spill slots and call-argument staging.
pub const FUNCTION_REGION_BYTES: u64 = 4096;

/// Base of the software call stack, clear of every function's region.
pub const STACK_BASE: u64 = 0x80000;

/// Some instruction of `f` defines `v`.
pub open spec fn defined(f: Function, v: u32) -> bool {
    exists|i: int, k: int| 0 <= i < f.blocks@.len() && 0 <= k < f.blocks@[i].instructions@.len()
        && (#[trigger] f.blocks@[i].instructions@[k]).id.0 == v
}

/// What compiling needs of a function (all of it true of validated IR):
/// what liveness needs, at least one block, a terminator on every block, every value it
/// mentions a parameter or defined, and an incoming entry, in every phi,
/// for every edge into the phi's block.
pub open spec fn func_ready(f: Function) -> bool {
    &&& flow_ready(f)
    &&& f.blocks@.len() > 0
    &&& forall|i: int| 0 <= i < f.blocks@.len() ==> (#[trigger] f.blocks@[i]).terminator is Some
    &&& forall|v: u32| #[trigger] mentioned(f, v) ==> v < f.params@.len() || defined(f, v)
    &&& forall|i: int, k: int, q: int| 0 <= i < f.blocks@.len() && 0 <= k < term_targets(f.blocks@[i]).len()
        && 0 <= q < f.blocks@[block_index(f, #[trigger] term_targets(f.blocks@[i])[k])].instructions@.len()
        ==> phi_covers(#[trigger] f.blocks@[block_index(f, term_targets(f.blocks@[i])[k])].instructions@[q], f.blocks@[i].id)
}

/// The function a function's jumps and calls are resolved through: the
/// last one of the module carrying its name (the function itself unless a
/// later one shares its name).
pub open spec fn owner(m: Module, o: int) -> int {
    match last_named(m.functions@, m.functions@[o].name@) {
        Some(j) => j,
        None => o,
    }
}

/// `x` is where a terminator of some block of `f` leads.
#[verifier::opaque]
pub open spec fn is_target(f: Function, x: BlockId) -> bool {
    exists|b: int, k: int| 0 <= b < f.blocks@.len() && 0 <= k < term_targets(f.blocks@[b]).len()
        && #[trigger] term_targets(f.blocks@[b])[k] == x
}

/// What compiling needs of a module: every function ready, and every block
/// a function jumps to also a block of its owner (which it is unless a
/// later function shares its name: a function's jumps are resolved through
/// the block positions of the last function of its name).
pub open spec fn codegen_ready(m: Module) -> bool {
    &&& forall|i: int| 0 <= i < m.functions@.len() ==> func_ready(#[trigger] m.functions@[i])
    &&& forall|i: int, x: BlockId| 0 <= i < m.functions@.len() && #[trigger] is_target(m.functions@[i], x)
        ==> find_block(m.functions@[owner(m, i)].blocks@, x) is Some
}

/// The largest parameter count among `fs`.
pub open spec fn max_params(fs: Seq<Function>) -> nat
    decreases fs.len(),
{
    if fs.len() == 0 {
        0
    } else {
        let m = max_params(fs.drop_last());
        if fs.last().params@.len() > m { fs.last().params@.len() } else { m }
    }
}

/// The argument registers reserved module-wide: the largest parameter count,
/// as a `u8`.
pub open spec fn reserved_of(m: Module) -> u8 {
    max_params(m.functions@) as u8
}

/// Function `i`'s allocation.
pub open spec fn func_alloc(m: Module, i: int) -> AllocView {
    greedy_alloc(m.functions@[i], reserved_of(m), 4096 * i)
}

/// Where function `i`'s call-argument temporaries start: past its spill slots.
pub open spec fn temp_start(m: Module, i: int) -> int {
    4096 * i + 8 * func_alloc(m, i).spills.len()
}

/// Function `i`'s pending blocks, or the error compiling it stops on.
pub open spec fn func_pending(m: Module, i: int) -> Result<Seq<(Seq<MachInst>, PendingTerm)>, CodegenError> {
    let f = m.functions@[i];
    if f.params@.len() > 27 {
        Err(CodegenError::RegAlloc(RegAllocError::TooManyParameters { func: f.name, count: f.params@.len() as usize, max: 27 }))
    } else {
        match blocks_spec(f, func_alloc(m, i), 4096 * i + 4096, f.blocks@.len(), temp_start(m, i)) {
            Ok((d, _)) => Ok(d),
            Err(e) => Err(e),
        }
    }
}

/// The pending blocks of the first `k` functions, each with the index of
/// the function it belongs to, or the first error.
pub open spec fn pending_prefix(m: Module, k: nat) -> Result<Seq<(int, (Seq<MachInst>, PendingTerm))>, CodegenError>
    decreases k,
{
    if k == 0 {
        Ok(seq![])
    } else {
        match pending_prefix(m, (k - 1) as nat) {
            Err(e) => Err(e),
            Ok(p) => match func_pending(m, k - 1) {
                Err(e) => Err(e),
                Ok(d) => Ok(p + d.map_values(|b: (Seq<MachInst>, PendingTerm)| ((k - 1) as int, b))),
            },
        }
    }
}

/// How many pending blocks come before function `i`'s.
pub open spec fn entry_of(m: Module, i: int) -> int {
    match pending_prefix(m, i as nat) {
        Ok(p) => p.len() as int,
        Err(_) => 0,
    }
}

/// The absolute block index a jump of function `o` to block `t` goes to:
/// one past the stack-pointer set-up block, then the offset of `t` within
/// the owner of `o`.
pub open spec fn target_index(m: Module, o: int, t: BlockId) -> int {
    let w = owner(m, o);
    let f = m.functions@[w];
    1 + entry_of(m, w) + block_start(f, func_alloc(m, w), 4096 * w + 4096, block_index(f, t), temp_start(m, w))
}

/// The function a call of `callee` goes to: the last one of that name.
pub open spec fn callee_index(m: Module, callee: Seq<char>) -> Option<int> {
    last_named(m.functions@, callee)
}

/// The absolute entry block of the function a lookup by the name of
/// function `i` finds: that of its owner.
pub open spec fn named_entry(m: Module, i: int) -> int {
    1 + entry_of(m, owner(m, i))
}

/// The machine instruction a pending block of function `o` ends with.
pub open spec fn resolve_term(m: Module, o: int, term: PendingTerm) -> Result<MachInst, CodegenError> {
    match term {
        PendingTerm::Jmp(t) => Ok(mi(Opcode::Jmp, 0, 0, 0, target_index(m, o, t))),
        PendingTerm::Jz { cond_reg, target } => Ok(mi(Opcode::Jz, 0, cond_reg, 0, target_index(m, o, target))),
        PendingTerm::Call { callee } => match callee_index(m, callee@) {
            Some(j) => Ok(mi(Opcode::Call, 0, 0, 0, 1 + entry_of(m, j))),
            None => Err(CodegenError::UnknownCallee { callee }),
        },
        PendingTerm::Ret => Ok(mi(Opcode::Ret, 0, 0, 0, 0)),
    }
}

/// The first `k` pending blocks as finished blocks (label, instructions), or
/// the first error.
pub open spec fn resolve_prefix(m: Module, pend: Seq<(int, (Seq<MachInst>, PendingTerm))>, k: nat)
    -> Result<Seq<(Seq<char>, Seq<MachInst>)>, CodegenError>
    decreases k,
{
    if k == 0 {
        Ok(seq![])
    } else {
        match resolve_prefix(m, pend, (k - 1) as nat) {
            Err(e) => Err(e),
            Ok(done) => {
                let (o, pb) = pend[k - 1];
                match resolve_term(m, o, pb.1) {
                    Err(e) => Err(e),
                    Ok(t) => Ok(done.push((m.functions@[o].name@ + "::"@ + nat_text((k - 1) as nat), pb.0.push(t)))),
                }
            },
        }
    }
}

/// Where the program goes once the call stack is set up: the entry of the
/// function the first function's name finds, or block 1 if there is none.
pub open spec fn start_target(m: Module) -> int {
    if m.functions@.len() > 0 { named_entry(m, 0) } else { 1 }
}

/// The block every program starts with: it sets up the call stack, then
/// jumps to `target`.
pub open spec fn init_block(target: int) -> (Seq<char>, Seq<MachInst>) {
    ("init_stack_ptr"@, seq![mi(Opcode::LoadI, STACK_PTR, 0, 0, 0x80000), mi(Opcode::Jmp, 0, 0, 0, target)])
}

/// The compiled program's blocks, or the error compilation stops on.
pub open spec fn compile_spec(m: Module) -> Result<Seq<(Seq<char>, Seq<MachInst>)>, CodegenError> {
    if m.functions@.len() * 4096 > 0x80000 {
        Err(CodegenError::TooManyFunctionsForMemoryLayout { count: m.functions@.len() as usize })
    } else {
        match pending_prefix(m, m.functions@.len()) {
            Err(e) => Err(e),
            Ok(p) => match resolve_prefix(m, p, p.len()) {
                Err(e) => Err(e),
                Ok(bs) => Ok(seq![init_block(start_target(m))] + bs),
            },
        }
    }
}

/// A pending jump's target is a block of `f` that a terminator of `f` leads to.
pub open spec fn term_known(f: Function, t: PendingTerm) -> bool {
    match t {
        PendingTerm::Jmp(x) => find_block(f.blocks@, x) is Some && is_target(f, x),
        PendingTerm::Jz { target, .. } => find_block(f.blocks@, target) is Some && is_target(f, target),
        _ => true,
    }
}

proof fn lemma_insts_shape(f: Function, al: AllocView, live: Set<u32>, re: int, insts: Seq<crate::inst::Instruction>, k: nat,
    st: (Seq<(Seq<MachInst>, PendingTerm)>, Seq<MachInst>, int))
    requires
        insts_spec(f, al, live, re, insts, k, st) is Ok,
        k <= insts.len(),
    ensures
        ({
            let st2 = insts_spec(f, al, live, re, insts, k, st)->Ok_0;
            &&& st2.0.len() >= st.0.len()
            &&& st2.0.subrange(0, st.0.len() as int) == st.0
            &&& forall|j: int| st.0.len() <= j < st2.0.len() ==> (#[trigger] st2.0[j]).1 is Call
        }),
    decreases k,
{
    if k > 0 {
        lemma_insts_shape(f, al, live, re, insts, (k - 1) as nat, st);
        let mid = insts_spec(f, al, live, re, insts, (k - 1) as nat, st)->Ok_0;
        let st2 = insts_spec(f, al, live, re, insts, k, st)->Ok_0;
        assert(st2 == inst_spec(f, al, live, re, insts[k - 1], mid)->Ok_0);
        match insts[k - 1].kind {
            crate::inst::InstKind::Call { .. } => {
                assert(st2.0.len() == mid.0.len() + 1);
                assert(st2.0.subrange(0, mid.0.len() as int) == mid.0);
                assert(st2.0.subrange(0, st.0.len() as int) =~= mid.0.subrange(0, st.0.len() as int));
                assert forall|j: int| st.0.len() <= j < st2.0.len() implies (#[trigger] st2.0[j]).1 is Call by {
                    if j < mid.0.len() {
                        assert(st2.0[j] == mid.0[j]);
                    }
                }
            },
            _ => {
                assert(st2.0 == mid.0);
            },
        }
    } else {
        assert(st.0.subrange(0, st.0.len() as int) =~= st.0);
    }
}

proof fn lemma_term_shape(f: Function, al: AllocView, re: int, i: int, st: (Seq<(Seq<MachInst>, PendingTerm)>, Seq<MachInst>, int))
    requires
        flow_ready(f),
        0 <= i < f.blocks@.len(),
        term_spec(f, al, re, f.blocks@[i], st) is Ok,
    ensures
        ({
            let d = (term_spec(f, al, re, f.blocks@[i], st)->Ok_0).0;
            &&& d.len() > st.0.len()
            &&& d.subrange(0, st.0.len() as int) == st.0
            &&& forall|j: int| st.0.len() <= j < d.len() ==> term_known(f, (#[trigger] d[j]).1)
        }),
{
    reveal(is_target);
    let b = f.blocks@[i];
    let d = (term_spec(f, al, re, b, st)->Ok_0).0;
    match b.terminator {
        Some(Terminator::Jump(t)) => {
            assert(term_targets(b)[0] == t);
            assert(find_block(f.blocks@, crate::block::term_successors(b.terminator->0)[0]) is Some);
            assert(term_targets(f.blocks@[i])[0] == t);
            assert(is_target(f, t));
            assert(d.subrange(0, st.0.len() as int) =~= st.0);
        },
        Some(Terminator::Branch { then_block, else_block, .. }) => {
            assert(find_block(f.blocks@, crate::block::term_successors(b.terminator->0)[0]) is Some);
            assert(find_block(f.blocks@, crate::block::term_successors(b.terminator->0)[1]) is Some);
            assert(term_targets(f.blocks@[i])[0] == then_block);
            assert(term_targets(f.blocks@[i])[1] == else_block);
            assert(is_target(f, then_block));
            assert(is_target(f, else_block));
            assert(d.subrange(0, st.0.len() as int) =~= st.0);
            assert forall|j: int| st.0.len() <= j < d.len() implies term_known(f, (#[trigger] d[j]).1) by {
                if j == st.0.len() {
                } else {
                    assert(j == st.0.len() + 1);
                }
            }
        },
        _ => {
            assert(d.subrange(0, st.0.len() as int) =~= st.0);
        },
    }
}

/// What lowering the first `k` blocks produces: every pending jump targets a
/// block of `f`, and each block's code starts within it.
proof fn lemma_blocks_shape(f: Function, al: AllocView, re: int, k: nat, t0: int)
    requires
        flow_ready(f),
        k <= f.blocks@.len(),
        blocks_spec(f, al, re, k, t0) is Ok,
    ensures
        ({
            let d = (blocks_spec(f, al, re, k, t0)->Ok_0).0;
            &&& forall|j: int| 0 <= j < d.len() ==> term_known(f, (#[trigger] d[j]).1)
            &&& forall|i: int| 0 <= i < k ==> #[trigger] block_start(f, al, re, i, t0) < d.len()
            &&& forall|i: int| 0 <= i <= k ==> (#[trigger] blocks_spec(f, al, re, i as nat, t0)) is Ok
        }),
    decreases k,
{
    if k > 0 {
        let prev = blocks_spec(f, al, re, (k - 1) as nat, t0);
        assert(prev is Ok);
        lemma_blocks_shape(f, al, re, (k - 1) as nat, t0);
        let (done, temp) = prev->Ok_0;
        let b = f.blocks@[k - 1];
        let st0 = (done, Seq::<MachInst>::empty(), temp);
        let ir = insts_spec(f, al, crate::liveness::block_live(f, k - 1), re, b.instructions@, b.instructions@.len(), st0);
        assert(ir is Ok);
        lemma_insts_shape(f, al, crate::liveness::block_live(f, k - 1), re, b.instructions@, b.instructions@.len(), st0);
        let st = ir->Ok_0;
        lemma_term_shape(f, al, re, k - 1, st);
        let d = (blocks_spec(f, al, re, k, t0)->Ok_0).0;
        assert(d == (term_spec(f, al, re, b, st)->Ok_0).0);
        assert forall|j: int| 0 <= j < d.len() implies term_known(f, (#[trigger] d[j]).1) by {
            if j < done.len() {
                assert(d.subrange(0, st.0.len() as int)[j] == d[j]);
                assert(st.0.subrange(0, done.len() as int)[j] == st.0[j]);
            } else if j < st.0.len() {
                assert(d.subrange(0, st.0.len() as int)[j] == d[j]);
                assert(st.0[j].1 is Call);
            }
        }
        assert forall|i: int| 0 <= i < k implies #[trigger] block_start(f, al, re, i, t0) < d.len() by {
            if i < k - 1 {
                assert(block_start(f, al, re, i, t0) < done.len());
            }
        }
        assert forall|i: int| 0 <= i <= k implies (#[trigger] blocks_spec(f, al, re, i as nat, t0)) is Ok by {
            if i < k {
                assert(blocks_spec(f, al, re, i as nat, t0) is Ok);
            }
        }
    }
}

/// The block a pending jump goes to.
pub open spec fn pending_target(t: PendingTerm) -> Option<BlockId> {
    match t {
        PendingTerm::Jmp(x) => Some(x),
        PendingTerm::Jz { target, .. } => Some(target),
        _ => None,
    }
}

pub open spec fn owned_views(o: Seq<(usize, PendingBlock)>) -> Seq<(int, (Seq<MachInst>, PendingTerm))> {
    o.map_values(|x: (usize, PendingBlock)| (x.0 as int, pending_view(x.1)))
}

/// A pending block of function `o` ending in `t` can be resolved: where `t`
/// jumps, `lis[o]` holds the target's start within the function, and that
/// start, offset by the function's entry, is one of the `total` pending blocks.
pub open spec fn jump_resolved(m: Module, o: int, t: PendingTerm, entries: Seq<usize>, lis: Seq<HashMap<u32, usize>>, total: int) -> bool {
    match pending_target(t) {
        Some(b) => {
            let w = owner(m, o);
            let f = m.functions@[w];
            &&& lis[w]@.contains_key(b.0)
            &&& lis[w]@[b.0] as int == block_start(f, func_alloc(m, w), 4096 * w + 4096, block_index(f, b), temp_start(m, w))
            &&& entries[w] + lis[w]@[b.0] < total
        },
        None => true,
    }
}

/// Function `j`'s pending blocks start at `entries[j]`, `lis[j]` holds where
/// each of its blocks starts among them, and all of them lie below `total`.
pub open spec fn lowered_at(m: Module, j: int, entries: Seq<usize>, lis: Seq<HashMap<u32, usize>>, total: int) -> bool {
    let f = m.functions@[j];
    &&& entries[j] as int == entry_of(m, j)
    &&& lowered_index(f, func_alloc(m, j), 4096 * j + 4096, temp_start(m, j), lis[j]@)
    &&& forall|k: int| 0 <= k < f.blocks@.len() ==> entries[j] + #[trigger] block_start(f, func_alloc(m, j), 4096 * j + 4096, k, temp_start(m, j)) < total
    &&& f.blocks@.len() > 0
}

/// What resolving the pending blocks needs: each function's entry, and every
/// pending jump resolvable.
pub open spec fn resolvable(m: Module, owned: Seq<(usize, PendingBlock)>, entries: Seq<usize>, lis: Seq<HashMap<u32, usize>>) -> bool {
    &&& entries.len() == m.functions@.len()
    &&& lis.len() == m.functions@.len()
    &&& forall|j: int| 0 <= j < m.functions@.len() ==> #[trigger] entries[j] as int == entry_of(m, j) && entries[j] < owned.len()
    &&& forall|g: int| 0 <= g < owned.len() ==> (#[trigger] owned[g]).0 < m.functions@.len()
        && jump_resolved(m, owned[g].0 as int, owned[g].1.term, entries, lis, owned.len() as int)
}

/// A ready function with such an allocation is ready for lowering.
proof fn lemma_ready_lowers(f: Function, al: AllocView)
    requires
        func_ready(f),
        forall|v: u32| v < f.params@.len() ==> #[trigger] al.registers.contains_key(v),
        forall|v: u32| #[trigger] colored_values(f).contains(v) ==> al.registers.contains_key(v) || al.spills.contains_key(v),
    ensures
        lower_ready(f, al),
{
    assert forall|v: u32| #[trigger] mentioned(f, v) implies located(al, v) by {
        if v < f.params@.len() {
            assert(al.registers.contains_key(v));
        } else {
            assert(defined(f, v));
            assert(colored_values(f).contains(v));
        }
    }
}

/// Moves `pending` onto the end of `owned`, each block tagged with `owner`.
fn append_owned(owned: &mut Vec<(usize, PendingBlock)>, pending: Vec<PendingBlock>, owner: usize)
    ensures
        final(owned)@ == old(owned)@ + pending@.map_values(|b: PendingBlock| (owner, b)),
{
    let ghost owned0 = old(owned)@;
    let ghost pend0 = pending@;
    let mut pending = pending;
    while pending.len() > 0
        invariant
            pend0.len() >= pending@.len(),
            pending@ == pend0.subrange(pend0.len() - pending@.len(), pend0.len() as int),
            owned@ == owned0 + pend0.subrange(0, pend0.len() - pending@.len()).map_values(|b: PendingBlock| (owner, b)),
        decreases pending.len(),
    {
        let pb = pending.remove(0);
        owned.push((owner, pb));
        proof {
            assert(pending@ =~= pend0.subrange(pend0.len() - pending@.len(), pend0.len() as int));
            assert(owned@ =~= owned0 + pend0.subrange(0, pend0.len() - pending@.len()).map_values(|b: PendingBlock| (owner, b)));
        }
    }
    assert(pend0.subrange(0, pend0.len() as int) =~= pend0);
}

/// Appending function `i`'s pending blocks extends the pending prefix by one.
proof fn lemma_prefix_step(m: Module, i: int, owned0: Seq<(usize, PendingBlock)>, pend: Seq<PendingBlock>)
    requires
        0 <= i < m.functions@.len() <= 128,
        pending_prefix(m, i as nat) == Ok::<Seq<(int, (Seq<MachInst>, PendingTerm))>, CodegenError>(owned_views(owned0)),
        func_pending(m, i) == Ok::<Seq<(Seq<MachInst>, PendingTerm)>, CodegenError>(pending_views(pend)),
    ensures
        pending_prefix(m, (i + 1) as nat) == Ok::<Seq<(int, (Seq<MachInst>, PendingTerm))>, CodegenError>(
            owned_views(owned0 + pend.map_values(|b: PendingBlock| (i as usize, b)))),
        entry_of(m, i) == owned0.len(),
{
    let d = pending_views(pend);
    let owned = owned0 + pend.map_values(|b: PendingBlock| (i as usize, b));
    let want = owned_views(owned0) + d.map_values(|b: (Seq<MachInst>, PendingTerm)| (i, b));
    assert forall|g: int| 0 <= g < owned.len() implies #[trigger] owned_views(owned)[g] == want[g] by {
        if g >= owned0.len() {
            let j = g - owned0.len();
            assert(owned[g] == (i as usize, pend[j]));
            assert(d[j] == pending_view(pend[j]));
        } else {
            assert(owned[g] == owned0[g]);
        }
    }
    assert(owned_views(owned) =~= want);
}

/// The bookkeeping of one step of `lower_all`: appending function `i`'s
/// pending blocks (lowered at `owned0.len()`, with block index `li`)
/// extends the pending prefix by one, and every new pending jump targets a
/// block that a terminator of the function leads to.
proof fn lemma_lowered_step(m: Module, i: int, owned0: Seq<(usize, PendingBlock)>, pend: Seq<PendingBlock>,
    entries0: Seq<usize>, lis0: Seq<HashMap<u32, usize>>, li: HashMap<u32, usize>)
    requires
        func_ready(m.functions@[i]),
        0 <= i < m.functions@.len() <= 128,
        pending_prefix(m, i as nat) == Ok::<Seq<(int, (Seq<MachInst>, PendingTerm))>, CodegenError>(owned_views(owned0)),
        func_pending(m, i) == Ok::<Seq<(Seq<MachInst>, PendingTerm)>, CodegenError>(pending_views(pend)),
        m.functions@[i].params@.len() <= 27,
        blocks_spec(m.functions@[i], func_alloc(m, i), 4096 * i + 4096, m.functions@[i].blocks@.len(), temp_start(m, i)) is Ok,
        lowered_index(m.functions@[i], func_alloc(m, i), 4096 * i + 4096, temp_start(m, i), li@),
        entries0.len() == i,
        lis0.len() == i,
        owned0.len() <= usize::MAX,
        forall|j: int| 0 <= j < i ==> #[trigger] lowered_at(m, j, entries0, lis0, owned0.len() as int),
    ensures
        ({
            let owned = owned0 + pend.map_values(|b: PendingBlock| (i as usize, b));
            let entries = entries0.push(owned0.len() as usize);
            let lis = lis0.push(li);
            &&& pending_prefix(m, (i + 1) as nat) == Ok::<Seq<(int, (Seq<MachInst>, PendingTerm))>, CodegenError>(owned_views(owned))
            &&& entry_of(m, i) == owned0.len()
            &&& pend.len() > 0
            &&& forall|g: int| owned0.len() <= g < owned.len() ==> (#[trigger] owned[g]).0 == i
                && term_known(m.functions@[i], owned[g].1.term)
            &&& forall|j: int| 0 <= j <= i ==> #[trigger] lowered_at(m, j, entries, lis, owned.len() as int)
        }),
{
    let f = m.functions@[i];
    let al = func_alloc(m, i);
    let re = 4096 * i + 4096;
    let t0 = temp_start(m, i);
    let d = pending_views(pend);
    let owned = owned0 + pend.map_values(|b: PendingBlock| (i as usize, b));
    let entries = entries0.push(owned0.len() as usize);
    let lis = lis0.push(li);
    reveal(lowered_at);
    lemma_prefix_step(m, i, owned0, pend);
    lemma_blocks_shape(f, al, re, f.blocks@.len(), t0);
    assert(d == (blocks_spec(f, al, re, f.blocks@.len(), t0)->Ok_0).0);
    assert(block_start(f, al, re, 0, t0) < d.len());
    assert forall|g: int| owned0.len() <= g < owned.len() implies (#[trigger] owned[g]).0 == i
        && term_known(m.functions@[i], owned[g].1.term) by {
        let j = g - owned0.len();
        assert(owned[g] == (i as usize, pend[j]));
        assert(d[j] == pending_view(pend[j]));
    }
    assert forall|j: int| 0 <= j <= i implies #[trigger] lowered_at(m, j, entries, lis, owned.len() as int) by {
        if j < i {
            assert(lowered_at(m, j, entries0, lis0, owned0.len() as int));
            assert(entries[j] == entries0[j]);
            assert(lis[j] == lis0[j]);
        } else {
            assert(entries[j] == owned0.len());
            assert(lis[j] == li);
        }
    }
}

/// Once every function is lowered, every pending jump can be resolved
/// through the owner of its function.
proof fn lemma_resolvable(m: Module, owned: Seq<(usize, PendingBlock)>, entries: Seq<usize>, lis: Seq<HashMap<u32, usize>>)
    requires
        codegen_ready(m),
        entries.len() == m.functions@.len(),
        lis.len() == m.functions@.len(),
        forall|j: int| 0 <= j < m.functions@.len() ==> #[trigger] lowered_at(m, j, entries, lis, owned.len() as int),
        forall|j: int| 0 <= j < m.functions@.len() ==> (#[trigger] entries[j]) < owned.len(),
        forall|g: int| 0 <= g < owned.len() ==> (#[trigger] owned[g]).0 < m.functions@.len()
            && term_known(m.functions@[owned[g].0 as int], owned[g].1.term),
    ensures
        resolvable(m, owned, entries, lis),
{
    reveal(lowered_at);
    assert forall|j: int| 0 <= j < m.functions@.len() implies #[trigger] entries[j] as int == entry_of(m, j) && entries[j] < owned.len() by {
        assert(lowered_at(m, j, entries, lis, owned.len() as int));
    }
    assert forall|g: int| 0 <= g < owned.len() implies (#[trigger] owned[g]).0 < m.functions@.len()
        && jump_resolved(m, owned[g].0 as int, owned[g].1.term, entries, lis, owned.len() as int) by {
        let o = owned[g].0 as int;
        let t = owned[g].1.term;
        assert(term_known(m.functions@[o], t));
        match pending_target(t) {
            Some(b) => {
                assert(is_target(m.functions@[o], b));
                lemma_last_named(m.functions@, m.functions@[o].name@);
                let w = owner(m, o);
                assert(0 <= w < m.functions@.len());
                assert(find_block(m.functions@[w].blocks@, b) is Some);
                let f = m.functions@[w];
                crate::function::lemma_find_block(f.blocks@, b);
                let bi = block_index(f, b);
                assert(f.blocks@[bi].id == b);
                assert(lowered_at(m, w, entries, lis, owned.len() as int));
                assert(lis[w]@.contains_key(f.blocks@[bi].id.0));
                assert(entries[w] + block_start(f, func_alloc(m, w), 4096 * w + 4096, bi, temp_start(m, w)) < owned.len());
            },
            None => {},
        }
    }
}

/// Allocates registers for function `i` of `m` and lowers it to pending blocks.
fn lower_one(f: &Function, i: usize, reserved: u8, Ghost(m): Ghost<Module>)
    -> (r: Result<(Vec<PendingBlock>, HashMap<u32, usize>), CodegenError>)
    requires
        i < m.functions@.len() <= 128,
        *f == m.functions@[i as int],
        func_ready(*f),
        reserved == reserved_of(m),
    ensures
        match func_pending(m, i as int) {
            Ok(d) => r matches Ok((p, li)) && pending_views(p@) == d
                && f.params@.len() <= 27
                && blocks_spec(*f, func_alloc(m, i as int), 4096 * i + 4096, f.blocks@.len(), temp_start(m, i as int)) is Ok
                && lowered_index(*f, func_alloc(m, i as int), 4096 * i + 4096, temp_start(m, i as int), li@),
            Err(e) => r == Err::<(Vec<PendingBlock>, HashMap<u32, usize>), CodegenError>(e),
        },
{
    let region_base: u64 = (i as u64) * 4096;
    let region_end: u64 = region_base + 4096;
    let alloc = match allocate(f, region_base, reserved) {
        Ok(a) => a,
        Err(e) => {
            return Err(CodegenError::RegAlloc(e));
        },
    };
    proof {
        assert(alloc@ == func_alloc(m, i as int));
        lemma_ready_lowers(*f, alloc@);
    }
    lower_function(f, &alloc, region_base, region_end)
}

/// Lowers every function of `m` and gathers their pending blocks in order.
#[verifier::spinoff_prover]
#[verifier::rlimit(60)]
fn lower_all(module: &Module, reserved: u8) -> (r: Result<(Vec<(usize, PendingBlock)>, Vec<usize>, Vec<HashMap<u32, usize>>), CodegenError>)
    requires
        codegen_ready(*module),
        module.functions@.len() <= 128,
        reserved == reserved_of(*module),
    ensures
        match pending_prefix(*module, module.functions@.len()) {
            Ok(p) => r matches Ok((owned, entries, lis)) && owned_views(owned@) == p && resolvable(*module, owned@, entries@, lis@),
            Err(e) => r == Err::<(Vec<(usize, PendingBlock)>, Vec<usize>, Vec<HashMap<u32, usize>>), CodegenError>(e),
        },
{
    let ghost m = *module;
    let n = module.functions.len();
    let mut owned: Vec<(usize, PendingBlock)> = Vec::new();
    let mut entries: Vec<usize> = Vec::new();
    let mut lis: Vec<HashMap<u32, usize>> = Vec::new();
    let mut i: usize = 0;
    assert(owned_views(owned@) =~= Seq::<(int, (Seq<MachInst>, PendingTerm))>::empty());
    while i < n
        invariant
            m == *module,
            n == m.functions@.len(),
            n <= 128,
            i <= n,
            reserved == reserved_of(m),
            forall|q: int| 0 <= q < n ==> func_ready(#[trigger] m.functions@[q]),
            pending_prefix(m, i as nat) == Ok::<Seq<(int, (Seq<MachInst>, PendingTerm))>, CodegenError>(owned_views(owned@)),
            entries@.len() == i,
            lis@.len() == i,
            forall|j: int| 0 <= j < i ==> #[trigger] entries@[j] as int == entry_of(m, j) && entries@[j] < owned@.len(),
            forall|j: int| 0 <= j < i ==> #[trigger] lowered_at(m, j, entries@, lis@, owned@.len() as int),
            forall|g: int| 0 <= g < owned@.len() ==> (#[trigger] owned@[g]).0 < i
                && term_known(m.functions@[owned@[g].0 as int], owned@[g].1.term),
        decreases n - i,
    {
        let f = &module.functions[i];
        assert(func_ready(m.functions@[i as int]));
        let (pending, local_index) = match lower_one(f, i, reserved, Ghost(m)) {
            Ok(x) => x,
            Err(e) => {
                proof { lemma_prefix_err(m, (i + 1) as nat, n as nat, e); }
                return Err(e);
            },
        };
        let start = owned.len();
        proof {
            lemma_lowered_step(m, i as int, owned@, pending@, entries@, lis@, local_index);
        }
        let ghost entries0 = entries@;
        let ghost lis0 = lis@;
        let ghost li = local_index;
        let ghost pend = pending@;
        entries.push(start);
        lis.push(local_index);
        let ghost owned0 = owned@;
        append_owned(&mut owned, pending, i);
        proof {
            assert(owned@ =~= owned0 + pend.map_values(|b: PendingBlock| (i as usize, b)));
            assert(entries@ == entries0.push(owned0.len() as usize));
            assert(lis@ == lis0.push(li));
            assert forall|j: int| 0 <= j < i + 1 implies #[trigger] lowered_at(m, j, entries@, lis@, owned@.len() as int) by {
                assert(lowered_at(m, j, entries0.push(owned0.len() as usize), lis0.push(li),
                    (owned0 + pend.map_values(|b: PendingBlock| (i as usize, b))).len() as int));
            }
            assert forall|j: int| 0 <= j < i + 1 implies #[trigger] entries@[j] as int == entry_of(m, j) && entries@[j] < owned@.len() by {
                if j < i {
                    assert(entries@[j] == entries0[j]);
                }
            }
            assert forall|g: int| 0 <= g < owned@.len() implies (#[trigger] owned@[g]).0 < i + 1
                && term_known(m.functions@[owned@[g].0 as int], owned@[g].1.term) by {
                if g < owned0.len() {
                    assert(owned@[g] == owned0[g]);
                }
            }
        }
        i += 1;
    }
    proof {
        assert forall|j: int| 0 <= j < n implies (#[trigger] entries@[j]) < owned@.len() by {
            assert(entries@[j] as int == entry_of(m, j) && entries@[j] < owned@.len());
        }
        lemma_resolvable(m, owned@, entries@, lis@);
    }
    Ok((owned, entries, lis))
}

/// A finished block as its label and instructions.
pub open spec fn block_view(b: MachBlock) -> (Seq<char>, Seq<MachInst>) {
    (b.label@, b.instructions@)
}

pub open spec fn block_views(bs: Seq<MachBlock>) -> Seq<(Seq<char>, Seq<MachInst>)> {
    bs.map_values(|b: MachBlock| block_view(b))
}

/// The index of the last function of `module` named `name`.
pub(crate) fn last_index(module: &Module, name: &str) -> (r: Option<usize>)
    ensures
        match r {
            Some(j) => last_named(module.functions@, name@) == Some(j as int),
            None => last_named(module.functions@, name@) is None,
        },
{
    proof { lemma_last_named(module.functions@, name@); }
    let mut j: usize = module.functions.len();
    while j > 0
        invariant
            j <= module.functions@.len(),
            forall|k: int| j <= k < module.functions@.len() ==> module.functions@[k].name@ != name@,
            match last_named(module.functions@, name@) {
                Some(k) => 0 <= k < module.functions@.len() && module.functions@[k].name@ == name@
                    && forall|q: int| k < q < module.functions@.len() ==> module.functions@[q].name@ != name@,
                None => forall|q: int| 0 <= q < module.functions@.len() ==> module.functions@[q].name@ != name@,
            },
        decreases j,
    {
        if str_eq(module.functions[j - 1].name.as_str(), name) {
            return Some(j - 1);
        }
        j -= 1;
    }
    None
}

/// The index of the owner of function `o` of `module`.
pub(crate) fn owner_index(module: &Module, o: usize) -> (r: usize)
    requires
        o < module.functions@.len(),
    ensures
        r as int == owner(*module, o as int),
        r < module.functions@.len(),
{
    proof { lemma_last_named(module.functions@, module.functions@[o as int].name@); }
    match last_index(module, module.functions[o].name.as_str()) {
        Some(w) => w,
        None => o,
    }
}

/// The machine instruction that ends pending block `pb` of function `o`.
fn resolve_one(module: &Module, o: usize, term: &PendingTerm, entries: &Vec<usize>, lis: &Vec<HashMap<u32, usize>>,
    Ghost(total): Ghost<int>) -> (r: Result<MachInst, CodegenError>)
    requires
        o < module.functions@.len(),
        entries@.len() == module.functions@.len(),
        lis@.len() == module.functions@.len(),
        forall|j: int| 0 <= j < module.functions@.len() ==> #[trigger] entries@[j] as int == entry_of(*module, j) && entries@[j] < total,
        jump_resolved(*module, o as int, *term, entries@, lis@, total),
        total <= usize::MAX,
    ensures
        r == resolve_term(*module, o as int, *term),
{
    match term {
        PendingTerm::Jmp(t) => {
            let w = owner_index(module, o);
            let li = *lis[w].get(&t.0).unwrap();
            assert(li == lis@[w as int]@[t.0]);
            let idx: usize = 1 + entries[w] + li;
            assert(idx == target_index(*module, o as int, *t));
            let r = MachInst::new(Opcode::Jmp, 0, 0, 0, idx as i32);
            assert(r == mi(Opcode::Jmp, 0, 0, 0, target_index(*module, o as int, *t)));
            Ok(r)
        },
        PendingTerm::Jz { cond_reg, target } => {
            let w = owner_index(module, o);
            let li = *lis[w].get(&target.0).unwrap();
            let idx: usize = 1 + entries[w] + li;
            assert(idx == target_index(*module, o as int, *target));
            Ok(MachInst::new(Opcode::Jz, 0, *cond_reg, 0, idx as i32))
        },
        PendingTerm::Call { callee } => {
            proof { lemma_last_named(module.functions@, callee@); }
            match last_index(module, callee.as_str()) {
                Some(j) => {
                    assert(entries@[j as int] as int == entry_of(*module, j as int) && entries@[j as int] < total);
                    let idx: usize = 1 + entries[j];
                    assert(callee_index(*module, callee@) == Some(j as int));
                    assert(idx == 1 + entry_of(*module, j as int));
                    Ok(MachInst::new(Opcode::Call, 0, 0, 0, idx as i32))
                },
                None => Err(CodegenError::UnknownCallee { callee: callee.clone() }),
            }
        },
        PendingTerm::Ret => Ok(MachInst::new(Opcode::Ret, 0, 0, 0, 0)),
    }
}

/// A copy of `v`.
fn copy_insts(v: &Vec<MachInst>) -> (r: Vec<MachInst>)
    ensures
        r@ == v@,
{
    let mut r: Vec<MachInst> = Vec::new();
    let mut k: usize = 0;
    while k < v.len()
        invariant
            k <= v.len(),
            r@ == v@.subrange(0, k as int),
        decreases v.len() - k,
    {
        r.push(v[k]);
        k += 1;
        assert(r@ =~= v@.subrange(0, k as int));
    }
    assert(v@.subrange(0, v@.len() as int) =~= v@);
    r
}

proof fn lemma_resolve_err(m: Module, pend: Seq<(int, (Seq<MachInst>, PendingTerm))>, k: nat, k2: nat, e: CodegenError)
    requires
        resolve_prefix(m, pend, k) == Err::<Seq<(Seq<char>, Seq<MachInst>)>, CodegenError>(e),
        k <= k2,
    ensures
        resolve_prefix(m, pend, k2) == Err::<Seq<(Seq<char>, Seq<MachInst>)>, CodegenError>(e),
    decreases k2 - k,
{
    if k < k2 {
        lemma_resolve_err(m, pend, k, (k2 - 1) as nat, e);
    }
}

/// Finishes pending block `k`: its terminator resolved, its label its
/// function's name and its own index.
fn resolve_block(module: &Module, owned: &Vec<(usize, PendingBlock)>, k: usize, entries: &Vec<usize>,
    lis: &Vec<HashMap<u32, usize>>) -> (r: Result<MachBlock, CodegenError>)
    requires
        resolvable(*module, owned@, entries@, lis@),
        k < owned@.len(),
    ensures
        ({
            let (o, pb) = owned_views(owned@)[k as int];
            match resolve_term(*module, o, pb.1) {
                Ok(t) => r matches Ok(b) && block_view(b) == (module.functions@[o].name@ + "::"@ + nat_text(k as nat), pb.0.push(t)),
                Err(e) => r == Err::<MachBlock, CodegenError>(e),
            }
        }),
{
    let o = owned[k].0;
    assert(owned@[k as int].0 < module.functions@.len()
        && jump_resolved(*module, owned@[k as int].0 as int, owned@[k as int].1.term, entries@, lis@, owned@.len() as int));
    let total = owned.len();
    let term = match resolve_one(module, o, &owned[k].1.term, entries, lis, Ghost(total as int)) {
        Ok(t) => t,
        Err(e) => return Err(e),
    };
    let mut instructions = copy_insts(&owned[k].1.instructions);
    instructions.push(term);
    let mut label = module.functions[o].name.clone();
    label.append("::");
    append_digits(&mut label, k as u64);
    proof { reveal_strlit("::"); }
    Ok(MachBlock { label, instructions })
}

/// Turns every pending block into a finished one.
fn resolve_all(module: &Module, owned: &Vec<(usize, PendingBlock)>, entries: &Vec<usize>, lis: &Vec<HashMap<u32, usize>>)
    -> (r: Result<Vec<MachBlock>, CodegenError>)
    requires
        resolvable(*module, owned@, entries@, lis@),
    ensures
        match resolve_prefix(*module, owned_views(owned@), owned@.len()) {
            Ok(bs) => r matches Ok(v) && block_views(v@) == bs,
            Err(e) => r == Err::<Vec<MachBlock>, CodegenError>(e),
        },
{
    let ghost m = *module;
    let ghost pv = owned_views(owned@);
    let mut blocks: Vec<MachBlock> = Vec::new();
    let mut k: usize = 0;
    assert(block_views(blocks@) =~= Seq::<(Seq<char>, Seq<MachInst>)>::empty());
    while k < owned.len()
        invariant
            m == *module,
            pv == owned_views(owned@),
            resolvable(m, owned@, entries@, lis@),
            k <= owned@.len(),
            resolve_prefix(m, pv, k as nat) == Ok::<Seq<(Seq<char>, Seq<MachInst>)>, CodegenError>(block_views(blocks@)),
        decreases owned.len() - k,
    {
        let b = match resolve_block(module, owned, k, entries, lis) {
            Ok(b) => b,
            Err(e) => {
                proof { lemma_resolve_err(m, pv, (k + 1) as nat, owned@.len(), e); }
                return Err(e);
            },
        };
        let ghost old_blocks = blocks@;
        blocks.push(b);
        proof {
            assert(block_views(blocks@) =~= block_views(old_blocks).push(block_view(b)));
        }
        k += 1;
    }
    Ok(blocks)
}

/// A compiled module: the machine program, and where each function starts.
#[derive(Debug)]
pub struct CompiledModule {
    pub program: Program,
    /// Each function's name and the absolute index of its entry block, in
    /// the module's order.
    pub function_entry: Vec<(String, usize)>,
}

impl CompiledModule {
    /// The absolute index of the entry block of the first function named `name`.
    pub fn entry_of(&self, name: &str) -> (r: Option<usize>)
        ensures
            match r {
                Some(x) => exists|i: int| 0 <= i < self.function_entry@.len() && (#[trigger] self.function_entry@[i]).0@ == name@
                    && self.function_entry@[i].1 == x && forall|j: int| 0 <= j < i ==> (#[trigger] self.function_entry@[j]).0@ != name@,
                None => forall|i: int| 0 <= i < self.function_entry@.len() ==> (#[trigger] self.function_entry@[i]).0@ != name@,
            },
    {
        let mut i: usize = 0;
        while i < self.function_entry.len()
            invariant
                i <= self.function_entry@.len(),
                forall|j: int| 0 <= j < i ==> (#[trigger] self.function_entry@[j]).0@ != name@,
            decreases self.function_entry.len() - i,
        {
            if str_eq(self.function_entry[i].0.as_str(), name) {
                return Some(self.function_entry[i].1);
            }
            i += 1;
        }
        None
    }
}

/// The largest parameter count among the functions of `module`, as a `u8`.
fn reserved_registers(module: &Module) -> (r: u8)
    ensures
        r == reserved_of(*module),
{
    let mut mx: usize = 0;
    let mut i: usize = 0;
    while i < module.functions.len()
        invariant
            i <= module.functions@.len(),
            mx == max_params(module.functions@.subrange(0, i as int)),
        decreases module.functions.len() - i,
    {
        let ghost pre = module.functions@.subrange(0, i as int);
        assert(module.functions@.subrange(0, i + 1).drop_last() =~= pre);
        let c = module.functions[i].params.len();
        if c > mx {
            mx = c;
        }
        i += 1;
    }
    assert(module.functions@.subrange(0, module.functions@.len() as int) =~= module.functions@);
    mx as u8
}

/// `resolved`, behind the block that sets up the call stack and jumps to
/// the first function.
fn with_init_block(resolved: Vec<MachBlock>, target: usize) -> (r: Vec<MachBlock>)
    ensures
        block_views(r@) == seq![init_block(target as int)] + block_views(resolved@),
{
    let mut blocks: Vec<MachBlock> = Vec::new();
    let mut init: Vec<MachInst> = Vec::new();
    init.push(MachInst::new(Opcode::LoadI, STACK_PTR, 0, 0, 0x80000));
    init.push(MachInst::new(Opcode::Jmp, 0, 0, 0, target as i32));
    proof { reveal_strlit("init_stack_ptr"); }
    blocks.push(MachBlock { label: "init_stack_ptr".to_owned(), instructions: init });
    let ghost first = blocks@;
    assert(init@ =~= seq![mi(Opcode::LoadI, STACK_PTR, 0, 0, 0x80000), mi(Opcode::Jmp, 0, 0, 0, target as int)]);
    assert(first[0].label@ == "init_stack_ptr"@);
    assert(block_view(first[0]) == init_block(target as int));
    assert(block_views(first) =~= seq![init_block(target as int)]);
    let ghost rv = resolved@;
    let mut resolved = resolved;
    while resolved.len() > 0
        invariant
            rv.len() >= resolved@.len(),
            resolved@ == rv.subrange(rv.len() - resolved@.len(), rv.len() as int),
            blocks@ == first + rv.subrange(0, rv.len() - resolved@.len()),
        decreases resolved.len(),
    {
        let b = resolved.remove(0);
        blocks.push(b);
        assert(resolved@ =~= rv.subrange(rv.len() - resolved@.len(), rv.len() as int));
        assert(blocks@ =~= first + rv.subrange(0, rv.len() - resolved@.len()));
    }
    assert(rv.subrange(0, rv.len() as int) =~= rv);
    assert(block_views(blocks@) =~= block_views(first) + block_views(rv));
    blocks
}

/// Each function's name and the absolute entry block a lookup by that name
/// finds (its owner's).
fn entry_table(module: &Module, entries: &Vec<usize>, Ghost(total): Ghost<int>) -> (r: Vec<(String, usize)>)
    requires
        entries@.len() == module.functions@.len(),
        total <= usize::MAX,
        forall|j: int| 0 <= j < module.functions@.len() ==> #[trigger] entries@[j] as int == entry_of(*module, j) && entries@[j] < total,
    ensures
        r@.len() == module.functions@.len(),
        forall|i: int| 0 <= i < module.functions@.len() ==> (#[trigger] r@[i]).0@ == module.functions@[i].name@
            && r@[i].1 == named_entry(*module, i),
{
    let mut function_entry: Vec<(String, usize)> = Vec::new();
    let mut i: usize = 0;
    while i < module.functions.len()
        invariant
            i <= module.functions@.len(),
            entries@.len() == module.functions@.len(),
            total <= usize::MAX,
            forall|j: int| 0 <= j < module.functions@.len() ==> #[trigger] entries@[j] as int == entry_of(*module, j) && entries@[j] < total,
            function_entry@.len() == i,
            forall|j: int| 0 <= j < i ==> (#[trigger] function_entry@[j]).0@ == module.functions@[j].name@
                && function_entry@[j].1 == named_entry(*module, j),
        decreases module.functions.len() - i,
    {
        let w = owner_index(module, i);
        assert(entries@[w as int] as int == entry_of(*module, w as int) && entries@[w as int] < total);
        function_entry.push((module.functions[i].name.clone(), 1 + entries[w]));
        i += 1;
    }
    function_entry
}

/// Compiles every function of `module` into one machine program. Block 0
/// sets up the call stack and jumps to the function the first function's
/// name finds; then come the functions' blocks, in the module's order. Where
/// several functions share a name, a lookup by that name, a call of it and
/// the jumps of each of them go through the last one (its owner).
pub fn compile_module(module: &Module) -> (r: Result<CompiledModule, CodegenError>)
    requires
        codegen_ready(*module),
    ensures
        match compile_spec(*module) {
            Ok(bs) => r matches Ok(c) && block_views(c.program.blocks@) == bs && c.program.entry == 0
                && c.function_entry@.len() == module.functions@.len()
                && forall|i: int| 0 <= i < module.functions@.len() ==> (#[trigger] c.function_entry@[i]).0@ == module.functions@[i].name@
                    && c.function_entry@[i].1 == named_entry(*module, i),
            Err(e) => r == Err::<CompiledModule, CodegenError>(e),
        },
{
    if module.functions.len() > 128 {
        return Err(CodegenError::TooManyFunctionsForMemoryLayout { count: module.functions.len() });
    }
    let reserved = reserved_registers(module);
    let (owned, entries, lis) = match lower_all(module, reserved) {
        Ok(x) => x,
        Err(e) => return Err(e),
    };
    let resolved = match resolve_all(module, &owned, &entries, &lis) {
        Ok(b) => b,
        Err(e) => return Err(e),
    };
    let total = owned.len();
    let target: usize = if module.functions.len() > 0 {
        let w = owner_index(module, 0);
        assert(entries@[w as int] as int == entry_of(*module, w as int) && entries@[w as int] < total);
        1 + entries[w]
    } else {
        1
    };
    assert(target as int == start_target(*module));
    let blocks = with_init_block(resolved, target);
    let function_entry = entry_table(module, &entries, Ghost(total as int));
    Ok(CompiledModule { program: Program { blocks, entry: 0 }, function_entry })
}

proof fn lemma_prefix_err(m: Module, k: nat, k2: nat, e: CodegenError)
    requires
        pending_prefix(m, k) == Err::<Seq<(int, (Seq<MachInst>, PendingTerm))>, CodegenError>(e),
        k <= k2,
    ensures
        pending_prefix(m, k2) == Err::<Seq<(int, (Seq<MachInst>, PendingTerm))>, CodegenError>(e),
    decreases k2 - k,
{
    if k < k2 {
        lemma_prefix_err(m, k, (k2 - 1) as nat, e);
    }
}

} // verus!
