//! Register allocation: greedy graph coloring over a block-granularity
//! interference graph (two values conflict when both are live somewhere in
//! the same block), spilling to memory a value no register is left for.
//! Parameters are pre-colored: parameter `i` lives in register `i`, since a
//! callee reads its arguments from fixed registers at entry.

use vstd::prelude::*;
use std::collections::{HashMap, HashSet};
use crate::function::Function;
use crate::liveness::{analyze, block_live, flow_ready, lemma_analysis_is_live_sets, live_within_block, Liveness,
    liveness_of, within_block, block_index};
use crate::value::{BlockId, ValueId};

verus! {

broadcast use vstd::std_specs::hash::group_hash_axioms;

/// Reserved for spilled-value addressing: never written by generated code,
/// so it keeps the machine's initial zero. A spill is then a load or store
/// at an absolute address off this register.
pub const ZERO_REG: u8 = 30;
/// A function's return value: written by the callee just before it returns,
/// read by the caller just after the call.
pub const RET_REG: u8 = 31;
/// Reserved for reloading up to two spilled operands, or staging a spilled
/// result, around one instruction.
pub const SCRATCH_1: u8 = 29;
pub const SCRATCH_2: u8 = 28;
/// The software call stack through which caller-live registers are saved
/// around every call.
pub const STACK_PTR: u8 = 27;
/// General-purpose registers available to the allocator: `0..NUM_GP_REGS`.
pub const NUM_GP_REGS: u8 = 27;

#[derive(Debug, Clone, PartialEq, Eq)]
pub enum RegAllocError {
    TooManyParameters { func: String, count: usize, max: u8 },
}

/// Where each value lives: a register, or (if spilled) an absolute memory
/// address. Both maps are keyed by value number.
#[derive(Debug)]
pub struct Allocation {
    pub registers: HashMap<u32, u8>,
    pub spills: HashMap<u32, u64>,
}

/// An allocation's contents: the register of each value in one, the spill
/// address of each spilled value.
pub struct AllocView {
    pub registers: Map<u32, u8>,
    pub spills: Map<u32, u64>,
}

impl View for Allocation {
    type V = AllocView;

    open spec fn view(&self) -> AllocView {
        AllocView { registers: self.registers@, spills: self.spills@ }
    }
}

impl Allocation {
    /// Whether `v` lives in memory rather than in a register.
    pub fn is_spilled(&self, v: ValueId) -> (r: bool)
        ensures
            r == self.spills@.contains_key(v.0),
    {
        self.spills.contains_key(&v.0)
    }
}

/// `a` and `b` are distinct values both live somewhere in one block of `f`.
pub open spec fn conflicts(f: Function, a: u32, b: u32) -> bool {
    a != b && exists|i: int| 0 <= i < f.blocks@.len() && #[trigger] block_live(f, i).contains(a) && block_live(f, i).contains(b)
}

/// The registers `regs` gives to values conflicting with `v`.
pub open spec fn taken_regs(f: Function, regs: Map<u32, u8>, v: u32) -> Set<u8> {
    Set::new(|r: u8| exists|u: u32| #[trigger] conflicts(f, v, u) && regs.contains_key(u) && regs[u] == r)
}

/// The lowest register from `r` up to (not including) `NUM_GP_REGS` that is
/// not in `taken`.
pub open spec fn first_free(taken: Set<u8>, r: int) -> Option<u8>
    decreases 27 - r,
{
    if r >= 27 || r < 0 {
        None
    } else if !taken.contains(r as u8) {
        Some(r as u8)
    } else {
        first_free(taken, r + 1)
    }
}

/// The parameters' fixed registers.
pub open spec fn param_regs(f: Function) -> Map<u32, u8> {
    Map::new(|v: u32| v < f.params@.len(), |v: u32| v as u8)
}

/// The values an instruction of `f` defines that are not parameter numbers:
/// the ones the allocator colors.
pub open spec fn colored_values(f: Function) -> Set<u32> {
    Set::new(|v: u32| v >= f.params@.len() && exists|i: int, k: int| 0 <= i < f.blocks@.len()
        && 0 <= k < f.blocks@[i].instructions@.len() && (#[trigger] f.blocks@[i].instructions@[k]).id.0 == v)
}

/// Strictly increasing.
pub open spec fn increasing(s: Seq<u32>) -> bool {
    forall|a: int, b: int| 0 <= a < b < s.len() ==> #[trigger] s[a] < #[trigger] s[b]
}

/// The registers, spill addresses and next spill address after greedily
/// coloring the first `k` values of `order`: each value takes the lowest
/// register from `reserved` up that no conflicting value already holds, or
/// else the next spill address.
pub open spec fn greedy(f: Function, order: Seq<u32>, k: nat, reserved: u8, base: int) -> (Map<u32, u8>, Map<u32, u64>, int)
    decreases k,
{
    if k == 0 {
        (param_regs(f), Map::empty(), base)
    } else {
        let prev = greedy(f, order, (k - 1) as nat, reserved, base);
        let v = order[k - 1];
        match first_free(taken_regs(f, prev.0, v), reserved as int) {
            Some(r) => (prev.0.insert(v, r), prev.1, prev.2),
            None => (prev.0, prev.1.insert(v, prev.2 as u64), prev.2 + 8),
        }
    }
}

/// The elements of a finite set of value numbers in increasing order.
pub open spec fn sorted_of(s: Set<u32>) -> Seq<u32> {
    choose|q: Seq<u32>| increasing(q) && q.to_set() == s
}

/// The elements of `s` below `n`, in increasing order.
spec fn sorted_below(s: Set<u32>, n: nat) -> Seq<u32>
    decreases n,
{
    if n == 0 {
        seq![]
    } else if s.contains((n - 1) as u32) && n - 1 <= u32::MAX {
        sorted_below(s, (n - 1) as nat).push((n - 1) as u32)
    } else {
        sorted_below(s, (n - 1) as nat)
    }
}

proof fn lemma_sorted_below(s: Set<u32>, n: nat)
    requires
        n <= 0x1_0000_0000,
    ensures
        increasing(sorted_below(s, n)),
        forall|j: int| 0 <= j < sorted_below(s, n).len() ==> #[trigger] sorted_below(s, n)[j] < n,
        forall|v: u32| sorted_below(s, n).contains(v) == (v < n && s.contains(v)),
    decreases n,
{
    if n > 0 {
        lemma_sorted_below(s, (n - 1) as nat);
        let prev = sorted_below(s, (n - 1) as nat);
        if s.contains((n - 1) as u32) {
            let cur = prev.push((n - 1) as u32);
            assert forall|v: u32| cur.contains(v) == (v < n && s.contains(v)) by {
                if v == (n - 1) as u32 {
                    assert(cur[prev.len() as int] == v);
                }
                if cur.contains(v) && v != (n - 1) as u32 {
                    let j = choose|j: int| 0 <= j < cur.len() && cur[j] == v;
                    assert(prev[j] == v);
                }
                if v < n - 1 && s.contains(v) {
                    let j = choose|j: int| 0 <= j < prev.len() && prev[j] == v;
                    assert(cur[j] == v);
                }
            }
        }
    }
}

/// Every set of value numbers has an increasing enumeration.
pub proof fn lemma_sorted_exists(s: Set<u32>)
    ensures
        increasing(sorted_of(s)),
        sorted_of(s).to_set() == s,
{
    lemma_sorted_below(s, 0x1_0000_0000);
    let q = sorted_below(s, 0x1_0000_0000);
    assert(q.to_set() =~= s);
}

/// Two increasing sequences with the same elements are equal.
pub proof fn lemma_sorted_unique(a: Seq<u32>, b: Seq<u32>)
    requires
        increasing(a),
        increasing(b),
        a.to_set() == b.to_set(),
    ensures
        a == b,
    decreases a.len(),
{
    if a.len() == 0 {
        if b.len() > 0 {
            assert(b.to_set().contains(b[0]));
        }
        assert(a =~= b);
    } else {
        assert(a.to_set().contains(a.last()));
        assert(b.len() > 0) by {
            assert(b.to_set().contains(a.last()));
        }
        assert(b.to_set().contains(b.last()));
        let ja = choose|j: int| 0 <= j < a.len() && a[j] == b.last();
        let jb = choose|j: int| 0 <= j < b.len() && b[j] == a.last();
        if ja < a.len() - 1 {
            assert(a[ja] < a.last());
        }
        if jb < b.len() - 1 {
            assert(b[jb] < b.last());
        }
        assert(a.last() == b.last());
        let x = a.last();
        assert forall|v: u32| a.drop_last().to_set().contains(v) == b.drop_last().to_set().contains(v) by {
            if a.drop_last().contains(v) {
                let j = choose|j: int| 0 <= j < a.drop_last().len() && a.drop_last()[j] == v;
                assert(a[j] == v && a[j] < x);
                assert(b.to_set().contains(v));
                let k = choose|k: int| 0 <= k < b.len() && b[k] == v;
                assert(k != b.len() - 1);
                assert(b.drop_last()[k] == v);
            }
            if b.drop_last().contains(v) {
                let j = choose|j: int| 0 <= j < b.drop_last().len() && b.drop_last()[j] == v;
                assert(b[j] == v && b[j] < x);
                assert(a.to_set().contains(v));
                let k = choose|k: int| 0 <= k < a.len() && a[k] == v;
                assert(k != a.len() - 1);
                assert(a.drop_last()[k] == v);
            }
        }
        assert(a.drop_last().to_set() =~= b.drop_last().to_set());
        lemma_sorted_unique(a.drop_last(), b.drop_last());
        assert(a =~= a.drop_last().push(x));
        assert(b =~= b.drop_last().push(x));
    }
}

/// The allocation greedy coloring makes for `f`, in increasing order of
/// value number.
pub open spec fn greedy_alloc(f: Function, reserved: u8, base: int) -> AllocView {
    let order = sorted_of(colored_values(f));
    let st = greedy(f, order, order.len(), reserved, base);
    AllocView { registers: st.0, spills: st.1 }
}

proof fn lemma_increasing_bound(s: Seq<u32>, k: int)
    requires
        increasing(s),
        0 <= k < s.len(),
    ensures
        s[k] >= k,
    decreases k,
{
    if k > 0 {
        lemma_increasing_bound(s, k - 1);
        assert(s[k - 1] < s[k]);
    }
}

pub proof fn lemma_increasing_len(s: Seq<u32>)
    requires
        increasing(s),
    ensures
        s.len() <= 0x1_0000_0000,
{
    if s.len() > 0x1_0000_0000 {
        lemma_increasing_bound(s, 0x1_0000_0000);
    }
}

/// Inserts `x` into the strictly increasing `v`, unless it is there.
pub(crate) fn insert_sorted(v: &mut Vec<u32>, x: u32)
    requires
        increasing(old(v)@),
    ensures
        increasing(final(v)@),
        final(v)@.to_set() == old(v)@.to_set().insert(x),
{
    let mut k: usize = 0;
    while k < v.len() && v[k] < x
        invariant
            k <= v@.len(),
            v@ == old(v)@,
            forall|j: int| 0 <= j < k ==> v@[j] < x,
        decreases v.len() - k,
    {
        k += 1;
    }
    if k < v.len() && v[k] == x {
        assert(v@.to_set() =~= old(v)@.to_set().insert(x)) by {
            assert(v@[k as int] == x);
        }
        return;
    }
    let ghost before = v@;
    v.insert(k, x);
    proof {
        assert forall|a: int, b: int| 0 <= a < b < v@.len() implies #[trigger] v@[a] < #[trigger] v@[b] by {
            if b < k {
                assert(v@[a] == before[a]);
                assert(v@[b] == before[b]);
            } else if b == k {
                assert(v@[a] == before[a]);
            } else {
                assert(v@[b] == before[b - 1]);
                if a < k {
                    assert(v@[a] == before[a]);
                    assert(before[a] < before[b - 1]);
                } else if a == k {
                    assert(before[k as int] != x);
                    if b - 1 > k {
                        assert(before[k as int] < before[b - 1]);
                    }
                } else {
                    assert(v@[a] == before[a - 1]);
                    assert(before[a - 1] < before[b - 1]);
                }
            }
        }
        assert forall|w: u32| v@.to_set().contains(w) == before.to_set().insert(x).contains(w) by {
            if v@.contains(w) {
                let j = choose|j: int| 0 <= j < v@.len() && v@[j] == w;
                if j < k {
                    assert(before[j] == w);
                } else if j > k {
                    assert(before[j - 1] == w);
                }
            }
            if before.contains(w) {
                let j = choose|j: int| 0 <= j < before.len() && before[j] == w;
                if j < k {
                    assert(v@[j] == w);
                } else {
                    assert(v@[j + 1] == w);
                }
            }
            if w == x {
                assert(v@[k as int] == x);
            }
        }
        assert(v@.to_set() =~= before.to_set().insert(x));
    }
}

/// The values to color, in increasing order.
pub(crate) fn values_to_color(func: &Function) -> (r: Vec<u32>)
    ensures
        increasing(r@),
        r@.to_set() == colored_values(*func),
{
    let p = func.params.len();
    let mut order: Vec<u32> = Vec::new();
    let mut i: usize = 0;
    while i < func.blocks.len()
        invariant
            i <= func.blocks@.len(),
            p == func.params@.len(),
            increasing(order@),
            order@.to_set() == Set::new(|v: u32| v >= p && exists|i2: int, k: int| 0 <= i2 < i
                && 0 <= k < func.blocks@[i2].instructions@.len() && (#[trigger] func.blocks@[i2].instructions@[k]).id.0 == v),
        decreases func.blocks.len() - i,
    {
        let mut k: usize = 0;
        while k < func.blocks[i].instructions.len()
            invariant
                i < func.blocks@.len(),
                k <= func.blocks@[i as int].instructions@.len(),
                p == func.params@.len(),
                increasing(order@),
                order@.to_set() == Set::new(|v: u32| v >= p && ((exists|i2: int, k2: int| 0 <= i2 < i
                    && 0 <= k2 < func.blocks@[i2].instructions@.len() && (#[trigger] func.blocks@[i2].instructions@[k2]).id.0 == v)
                    || (exists|k2: int| 0 <= k2 < k && (#[trigger] func.blocks@[i as int].instructions@[k2]).id.0 == v))),
            decreases func.blocks@[i as int].instructions@.len() - k,
        {
            let id = func.blocks[i].instructions[k].id.0;
            let ghost before = order@.to_set();
            if id as usize >= p {
                insert_sorted(&mut order, id);
            }
            proof {
                assert(func.blocks@[i as int].instructions@[k as int].id.0 == id);
                assert(order@.to_set() =~= Set::new(|v: u32| v >= p && ((exists|i2: int, k2: int| 0 <= i2 < i
                    && 0 <= k2 < func.blocks@[i2].instructions@.len() && (#[trigger] func.blocks@[i2].instructions@[k2]).id.0 == v)
                    || (exists|k2: int| 0 <= k2 < k + 1 && (#[trigger] func.blocks@[i as int].instructions@[k2]).id.0 == v))));
            }
            k += 1;
        }
        proof {
            assert(order@.to_set() =~= Set::new(|v: u32| v >= p && exists|i2: int, k2: int| 0 <= i2 < i + 1
                && 0 <= k2 < func.blocks@[i2].instructions@.len() && (#[trigger] func.blocks@[i2].instructions@[k2]).id.0 == v)) by {
                assert forall|v: u32| (v >= p && exists|i2: int, k2: int| 0 <= i2 < i + 1
                    && 0 <= k2 < func.blocks@[i2].instructions@.len() && (#[trigger] func.blocks@[i2].instructions@[k2]).id.0 == v)
                    implies order@.to_set().contains(v) by {
                    let (i2, k2) = choose|i2: int, k2: int| 0 <= i2 < i + 1
                        && 0 <= k2 < func.blocks@[i2].instructions@.len() && (#[trigger] func.blocks@[i2].instructions@[k2]).id.0 == v;
                    if i2 == i {
                        assert(func.blocks@[i as int].instructions@[k2].id.0 == v);
                    }
                }
            }
        }
        i += 1;
    }
    assert(order@.to_set() =~= colored_values(*func));
    order
}

/// Marks in `marks` the register of every value of `live` other than `v`
/// that `regs` holds.
fn mark_taken(marks: &mut Vec<bool>, live: &Vec<u32>, v: u32, regs: &HashMap<u32, u8>)
    requires
        old(marks)@.len() == 27,
        forall|u: u32| #[trigger] regs@.contains_key(u) ==> regs@[u] < 27,
    ensures
        final(marks)@.len() == 27,
        forall|r: int| 0 <= r < 27 ==> #[trigger] final(marks)@[r] == (old(marks)@[r]
            || exists|u: u32| live@.contains(u) && u != v && #[trigger] regs@.contains_key(u) && regs@[u] == r),
{
    let ghost m0 = marks@;
    let mut k: usize = 0;
    while k < live.len()
        invariant
            k <= live@.len(),
            marks@.len() == 27,
            forall|u: u32| #[trigger] regs@.contains_key(u) ==> regs@[u] < 27,
            forall|r: int| 0 <= r < 27 ==> #[trigger] marks@[r] == (m0[r]
                || exists|j: int| 0 <= j < k && live@[j] != v && #[trigger] regs@.contains_key(live@[j]) && regs@[live@[j]] == r),
        decreases live.len() - k,
    {
        let u = live[k];
        if u != v {
            match regs.get(&u) {
                Some(r) => {
                    let r = *r;
                    marks.set(r as usize, true);
                },
                None => {},
            }
        }
        proof {
            assert forall|r: int| 0 <= r < 27 implies #[trigger] marks@[r] == (m0[r]
                || exists|j: int| 0 <= j < k + 1 && live@[j] != v && #[trigger] regs@.contains_key(live@[j]) && regs@[live@[j]] == r) by {
                if u != v && regs@.contains_key(u) && regs@[u] == r {
                    assert(live@[k as int] == u);
                }
            }
        }
        k += 1;
    }
    proof {
        assert forall|r: int| 0 <= r < 27 implies #[trigger] marks@[r] == (m0[r]
            || exists|u: u32| live@.contains(u) && u != v && #[trigger] regs@.contains_key(u) && regs@[u] == r) by {
            if exists|u: u32| live@.contains(u) && u != v && #[trigger] regs@.contains_key(u) && regs@[u] == r {
                let u = choose|u: u32| live@.contains(u) && u != v && #[trigger] regs@.contains_key(u) && regs@[u] == r;
                let j = choose|j: int| 0 <= j < live@.len() && live@[j] == u;
                assert(regs@.contains_key(live@[j]));
            }
            if exists|j: int| 0 <= j < k && live@[j] != v && #[trigger] regs@.contains_key(live@[j]) && regs@[live@[j]] == r {
                let j = choose|j: int| 0 <= j < k && live@[j] != v && #[trigger] regs@.contains_key(live@[j]) && regs@[live@[j]] == r;
                assert(live@.contains(live@[j]));
            }
        }
    }
}

/// The lowest register from `lo` up that `marks` leaves free.
fn first_free_reg(marks: &Vec<bool>, lo: u8, Ghost(taken): Ghost<Set<u8>>) -> (r: Option<u8>)
    requires
        marks@.len() == 27,
        forall|x: int| 0 <= x < 27 ==> #[trigger] marks@[x] == taken.contains(x as u8),
    ensures
        r == first_free(taken, lo as int),
        r matches Some(x) ==> lo <= x < 27,
{
    let mut x: u8 = lo;
    while x < 27
        invariant
            lo <= x,
            marks@.len() == 27,
            forall|y: int| 0 <= y < 27 ==> #[trigger] marks@[y] == taken.contains(y as u8),
            first_free(taken, x as int) == first_free(taken, lo as int),
        decreases 27 - x,
    {
        if !marks[x as usize] {
            return Some(x);
        }
        x += 1;
    }
    None
}

/// Allocates a register or a spill address to every value `func` defines,
/// its parameters included. Parameter `i` gets register `i`. Every other
/// value, in increasing order of value number, gets the lowest register
/// from `reserved_arg_registers` up that no conflicting value already
/// holds; when none is left it is spilled to the next 8-byte slot from
/// `spill_base_addr` on. (Registers below `reserved_arg_registers` are kept
/// for arguments: a call overwrites them.)
#[verifier::spinoff_prover]
pub fn allocate(func: &Function, spill_base_addr: u64, reserved_arg_registers: u8) -> (r: Result<Allocation, RegAllocError>)
    requires
        func.params@.len() <= NUM_GP_REGS ==> flow_ready(*func),
        spill_base_addr <= u64::MAX - 0x8_0000_0000,
    ensures
        r is Err <==> func.params@.len() > NUM_GP_REGS,
        r is Err ==> r == Err::<Allocation, RegAllocError>(RegAllocError::TooManyParameters { func: func.name,
            count: func.params@.len() as usize, max: NUM_GP_REGS }),
        r matches Ok(a) ==> a@ == greedy_alloc(*func, reserved_arg_registers, spill_base_addr as int),
        r matches Ok(a) ==> forall|v: u32| v < func.params@.len() ==> #[trigger] a.registers@.contains_key(v)
            && a.registers@[v] == v as u8,
        r matches Ok(a) ==> forall|v: u32| #[trigger] colored_values(*func).contains(v) ==> a.registers@.contains_key(v)
            || a.spills@.contains_key(v),
        r matches Ok(a) ==> a.spills@.dom().finite() && a.spills@.len() <= 0x1_0000_0000,
        r matches Ok(a) ==> forall|v: u32| #[trigger] a.registers@.contains_key(v) ==> a.registers@[v] < NUM_GP_REGS,
        r matches Ok(a) ==> forall|v: u32| #[trigger] a.registers@.contains_key(v) && v >= func.params@.len()
            ==> reserved_arg_registers <= a.registers@[v],
{
    if func.params.len() > NUM_GP_REGS as usize {
        return Err(RegAllocError::TooManyParameters { func: func.name.clone(), count: func.params.len(), max: NUM_GP_REGS });
    }
    let ghost f = *func;
    let liveness = analyze(func);
    proof { lemma_analysis_is_live_sets(liveness, f); }
    let n = func.blocks.len();
    let mut lives: Vec<Vec<u32>> = Vec::new();
    let mut i: usize = 0;
    while i < n
        invariant
            f == *func,
            n == f.blocks@.len(),
            i <= n,
            liveness_of(liveness, f),
            flow_ready(f),
            forall|i2: int| 0 <= i2 < n ==> #[trigger] block_index(f, f.blocks@[i2].id) == i2,
            forall|i2: int| 0 <= i2 < n ==> #[trigger] block_live(f, i2) == within_block(f, liveness, f.blocks@[i2].id),
            lives@.len() == i,
            forall|i2: int| 0 <= i2 < i ==> (#[trigger] lives@[i2])@.to_set() == block_live(f, i2),
        decreases n - i,
    {
        let id = func.blocks[i].id;
        proof {
            crate::function::lemma_find_block(f.blocks@, id);
            assert(f.blocks@[i as int].id == id);
            assert(block_index(f, id) == i);
            assert(liveness.live_in@.contains_key(f.blocks@[i as int].id.0));
        }
        let live = live_within_block(func, id, &liveness);
        lives.push(crate::liveness::set_to_vec(&live));
        proof {
            assert(block_live(f, i as int) == within_block(f, liveness, f.blocks@[i as int].id));
        }
        i += 1;
    }
    let order = values_to_color(func);
    proof { lemma_increasing_len(order@); }
    let p = func.params.len();
    let mut registers: HashMap<u32, u8> = HashMap::new();
    let mut q: usize = 0;
    while q < p
        invariant
            q <= p,
            p == f.params@.len(),
            p <= 27,
            registers@ == Map::new(|v: u32| v < q, |v: u32| v as u8),
        decreases p - q,
    {
        registers.insert(q as u32, q as u8);
        assert(registers@ =~= Map::new(|v: u32| v < q + 1, |v: u32| v as u8));
        q += 1;
    }
    assert(registers@ =~= param_regs(f));
    let mut spills: HashMap<u32, u64> = HashMap::new();
    let mut next: u64 = spill_base_addr;
    let ghost base = spill_base_addr as int;
    let mut k: usize = 0;
    assert(spills@ =~= Map::<u32, u64>::empty());
    while k < order.len()
        invariant
            f == *func,
            n == f.blocks@.len(),
            lives@.len() == n,
            forall|i2: int| 0 <= i2 < n ==> (#[trigger] lives@[i2])@.to_set() == block_live(f, i2),
            increasing(order@),
            order@.len() <= 0x1_0000_0000,
            k <= order@.len(),
            base == spill_base_addr as int,
            spill_base_addr <= u64::MAX - 0x8_0000_0000,
            (registers@, spills@, next as int) == greedy(f, order@, k as nat, reserved_arg_registers, base),
            next <= base + 8 * k,
            forall|u: u32| #[trigger] registers@.contains_key(u) ==> registers@[u] < 27,
            p == f.params@.len(),
            p <= 27,
        decreases order.len() - k,
    {
        let v = order[k];
        let mut marks: Vec<bool> = Vec::new();
        while marks.len() < 27
            invariant
                marks@.len() <= 27,
                forall|x: int| 0 <= x < marks@.len() ==> !(#[trigger] marks@[x]),
            decreases 27 - marks.len(),
        {
            marks.push(false);
        }
        let mut i: usize = 0;
        while i < n
            invariant
                n == f.blocks@.len(),
                lives@.len() == n,
                i <= n,
                marks@.len() == 27,
                forall|u: u32| #[trigger] registers@.contains_key(u) ==> registers@[u] < 27,
                forall|r: int| 0 <= r < 27 ==> #[trigger] marks@[r] == exists|i2: int, u: u32| 0 <= i2 < i
                    && lives@[i2]@.contains(v) && #[trigger] lives@[i2]@.contains(u) && u != v && registers@.contains_key(u)
                    && registers@[u] == r,
            decreases n - i,
        {
            let ghost m0 = marks@;
            if crate::liveness::contains_value(&lives[i], v) {
                mark_taken(&mut marks, &lives[i], v, &registers);
            }
            proof {
                assert forall|r: int| 0 <= r < 27 implies #[trigger] marks@[r] == exists|i2: int, u: u32| 0 <= i2 < i + 1
                    && lives@[i2]@.contains(v) && #[trigger] lives@[i2]@.contains(u) && u != v && registers@.contains_key(u)
                    && registers@[u] == r by {
                    if exists|i2: int, u: u32| 0 <= i2 < i + 1 && lives@[i2]@.contains(v) && #[trigger] lives@[i2]@.contains(u)
                        && u != v && registers@.contains_key(u) && registers@[u] == r {
                        let (i2, u) = choose|i2: int, u: u32| 0 <= i2 < i + 1 && lives@[i2]@.contains(v)
                            && #[trigger] lives@[i2]@.contains(u) && u != v && registers@.contains_key(u) && registers@[u] == r;
                        if i2 < i {
                            assert(m0[r]);
                        }
                    }
                    if marks@[r] && !m0[r] {
                        let u = choose|u: u32| lives@[i as int]@.contains(u) && u != v && #[trigger] registers@.contains_key(u)
                            && registers@[u] == r;
                        assert(lives@[i as int]@.contains(u));
                    }
                }
            }
            i += 1;
        }
        let ghost taken = taken_regs(f, registers@, v);
        proof {
            assert forall|x: int| 0 <= x < 27 implies #[trigger] marks@[x] == taken.contains(x as u8) by {
                if marks@[x] {
                    let (i2, u) = choose|i2: int, u: u32| 0 <= i2 < n && lives@[i2]@.contains(v)
                        && #[trigger] lives@[i2]@.contains(u) && u != v && registers@.contains_key(u) && registers@[u] == x;
                    assert(lives@[i2]@.to_set().contains(v));
                    assert(lives@[i2]@.to_set().contains(u));
                    assert(block_live(f, i2).contains(v) && block_live(f, i2).contains(u));
                    assert(conflicts(f, v, u));
                }
                if taken.contains(x as u8) {
                    let u = choose|u: u32| #[trigger] conflicts(f, v, u) && registers@.contains_key(u) && registers@[u] == x as u8;
                    let i2 = choose|i2: int| 0 <= i2 < f.blocks@.len() && #[trigger] block_live(f, i2).contains(v) && block_live(f, i2).contains(u);
                    assert(lives@[i2]@.to_set().contains(v));
                    assert(lives@[i2]@.to_set().contains(u));
                    assert(lives@[i2]@.contains(u));
                    assert(registers@[u] == x);
                }
            }
        }
        let chosen = first_free_reg(&marks, reserved_arg_registers, Ghost(taken));
        proof {
            assert(order@[k as int] == v);
        }
        match chosen {
            Some(reg) => {
                registers.insert(v, reg);
            },
            None => {
                spills.insert(v, next);
                proof {
                    lemma_increasing_bound(order@, k as int);
                }
                next = next + 8;
            },
        }
        k += 1;
    }
    proof {
        assert(order@.to_set() == colored_values(f));
        let q = sorted_of(colored_values(f));
        assert(increasing(q) && q.to_set() == colored_values(f));
        lemma_sorted_unique(order@, q);
        assert forall|j: int| 0 <= j < order@.len() implies #[trigger] order@[j] >= f.params@.len() by {
            assert(order@.to_set().contains(order@[j]));
        }
        lemma_greedy_sound(f, order@, order@.len(), reserved_arg_registers, base);
        let st = greedy(f, order@, order@.len(), reserved_arg_registers, base);
        assert(registers@ == st.0 && spills@ == st.1);
        assert(placed(f, order@, order@.len(), st, base));
        assert forall|v: u32| v < func.params@.len() implies #[trigger] registers@.contains_key(v) && registers@[v] == v as u8 by {
            assert(f == *func);
            assert(st.0.contains_key(v));
        }
        assert forall|v: u32| #[trigger] colored_values(f).contains(v) implies registers@.contains_key(v) || spills@.contains_key(v) by {
            assert(order@.to_set().contains(v));
            let j = choose|j: int| 0 <= j < order@.len() && order@[j] == v;
            assert(registers@.contains_key(order@[j]) || spills@.contains_key(order@[j]));
        }
    }
    let result = Allocation { registers, spills };
    assert(forall|v: u32| v < func.params@.len() ==> #[trigger] result.registers@.contains_key(v) && result.registers@[v] == v as u8);
    Ok(result)
}

/// The allocation greedy coloring makes is sound: values live at the same
/// time get different registers, parameter `i` sits in register `i`, no
/// value has both a register and a spill slot, every value an instruction
/// defines has one of the two, and no two spilled values share a slot.
pub proof fn lemma_allocation_sound(f: Function, reserved: u8, base: int)
    requires
        f.params@.len() <= NUM_GP_REGS,
        0 <= base <= u64::MAX - 0x8_0000_0000,
    ensures
        forall|a: u32, b: u32| #[trigger] greedy_alloc(f, reserved, base).registers.contains_key(a)
            && #[trigger] greedy_alloc(f, reserved, base).registers.contains_key(b) && conflicts(f, a, b)
            ==> greedy_alloc(f, reserved, base).registers[a] != greedy_alloc(f, reserved, base).registers[b],
        forall|u: u32| u < f.params@.len() ==> #[trigger] greedy_alloc(f, reserved, base).registers.contains_key(u)
            && greedy_alloc(f, reserved, base).registers[u] == u as u8,
        forall|u: u32| !(#[trigger] greedy_alloc(f, reserved, base).registers.contains_key(u)
            && greedy_alloc(f, reserved, base).spills.contains_key(u)),
        forall|v: u32| #[trigger] colored_values(f).contains(v) ==> greedy_alloc(f, reserved, base).registers.contains_key(v)
            || greedy_alloc(f, reserved, base).spills.contains_key(v),
        forall|a: u32, b: u32| #[trigger] greedy_alloc(f, reserved, base).spills.contains_key(a)
            && #[trigger] greedy_alloc(f, reserved, base).spills.contains_key(b) && a != b
            ==> greedy_alloc(f, reserved, base).spills[a] != greedy_alloc(f, reserved, base).spills[b],
{
    let q = sorted_of(colored_values(f));
    lemma_sorted_exists(colored_values(f));
    lemma_increasing_len(q);
    assert forall|j: int| 0 <= j < q.len() implies #[trigger] q[j] >= f.params@.len() by {
        assert(q.to_set().contains(q[j]));
    }
    lemma_greedy_sound(f, q, q.len(), reserved, base);
    let st = greedy(f, q, q.len(), reserved, base);
    assert(placed(f, q, q.len(), st, base));
    assert forall|v: u32| #[trigger] colored_values(f).contains(v) implies st.0.contains_key(v) || st.1.contains_key(v) by {
        assert(q.to_set().contains(v));
        let j = choose|j: int| 0 <= j < q.len() && q[j] == v;
        assert(st.0.contains_key(q[j]) || st.1.contains_key(q[j]));
    }
}

/// What greedy coloring has placed after `k` values: the parameters and the
/// first `k` values of `order`, each in a register or a spill slot but not
/// both; spill slots handed out are distinct and below the next one.
pub open spec fn placed(f: Function, order: Seq<u32>, k: nat, st: (Map<u32, u8>, Map<u32, u64>, int), base: int) -> bool {
    &&& forall|u: u32| u < f.params@.len() ==> #[trigger] st.0.contains_key(u) && st.0[u] == u as u8
    &&& forall|u: u32| #[trigger] st.0.contains_key(u) ==> u < f.params@.len()
        || exists|j: int| 0 <= j < k && order[j] == u
    &&& forall|u: u32| #[trigger] st.1.contains_key(u) ==> exists|j: int| 0 <= j < k && order[j] == u
    &&& forall|u: u32| !(#[trigger] st.0.contains_key(u) && st.1.contains_key(u))
    &&& forall|j: int| 0 <= j < k ==> st.0.contains_key(#[trigger] order[j]) || st.1.contains_key(order[j])
    &&& forall|a: u32, b: u32| #[trigger] st.1.contains_key(a) && #[trigger] st.1.contains_key(b) && a != b ==> st.1[a] != st.1[b]
    &&& forall|a: u32| #[trigger] st.1.contains_key(a) ==> base <= st.1[a] < st.2
    &&& st.2 >= base
}

/// Greedy coloring never gives two conflicting values the same register,
/// and places every value it has reached exactly once, in a register or in
/// its own spill slot.
pub proof fn lemma_greedy_sound(f: Function, order: Seq<u32>, k: nat, reserved: u8, base: int)
    requires
        increasing(order),
        forall|j: int| 0 <= j < order.len() ==> #[trigger] order[j] >= f.params@.len(),
        k <= order.len(),
        f.params@.len() <= 27,
        0 <= base,
        base + 8 * order.len() <= u64::MAX,
    ensures
        forall|a: u32, b: u32| #[trigger] greedy(f, order, k, reserved, base).0.contains_key(a)
            && #[trigger] greedy(f, order, k, reserved, base).0.contains_key(b) && conflicts(f, a, b)
            ==> greedy(f, order, k, reserved, base).0[a] != greedy(f, order, k, reserved, base).0[b],
        placed(f, order, k, greedy(f, order, k, reserved, base), base),
        forall|u: u32| #[trigger] greedy(f, order, k, reserved, base).0.contains_key(u) && u >= f.params@.len()
            ==> reserved <= greedy(f, order, k, reserved, base).0[u] < 27,
        greedy(f, order, k, reserved, base).2 <= base + 8 * k,
        greedy(f, order, k, reserved, base).1.dom().finite(),
        greedy(f, order, k, reserved, base).1.len() <= k,
    decreases k,
{
    let st = greedy(f, order, k, reserved, base);
    if k == 0 {
        assert forall|a: u32, b: u32| #[trigger] st.0.contains_key(a) && #[trigger] st.0.contains_key(b) && conflicts(f, a, b)
            implies st.0[a] != st.0[b] by {
            assert(st.0[a] == a as u8);
            assert(st.0[b] == b as u8);
        }
    } else {
        lemma_greedy_sound(f, order, (k - 1) as nat, reserved, base);
        let prev = greedy(f, order, (k - 1) as nat, reserved, base);
        let v = order[k - 1];
        assert(!prev.0.contains_key(v) && !prev.1.contains_key(v)) by {
            if prev.0.contains_key(v) {
                if !(v < f.params@.len()) {
                    let j = choose|j: int| 0 <= j < k - 1 && order[j] == v;
                    assert(order[j] < order[k - 1]);
                }
            }
            if prev.1.contains_key(v) {
                let j = choose|j: int| 0 <= j < k - 1 && order[j] == v;
                assert(order[j] < order[k - 1]);
            }
        }
        let taken = taken_regs(f, prev.0, v);
        assert(prev.1.insert(v, prev.2 as u64).dom() =~= prev.1.dom().insert(v));
        match first_free(taken, reserved as int) {
            Some(r) => {
                lemma_first_free(taken, reserved as int);
                assert forall|a: u32, b: u32| #[trigger] st.0.contains_key(a) && #[trigger] st.0.contains_key(b) && conflicts(f, a, b)
                    implies st.0[a] != st.0[b] by {
                    if a == v && b != v {
                        assert(prev.0.contains_key(b));
                        assert(conflicts(f, v, b));
                        if prev.0[b] == r {
                            assert(taken.contains(r));
                        }
                    } else if b == v && a != v {
                        assert(prev.0.contains_key(a));
                        assert(conflicts(f, v, a));
                        if prev.0[a] == r {
                            assert(taken.contains(r));
                        }
                    }
                }
            },
            None => {},
        }
    }
}

proof fn lemma_first_free(taken: Set<u8>, r: int)
    ensures
        first_free(taken, r) matches Some(x) ==> !taken.contains(x) && r <= x < 27,
    decreases 27 - r,
{
    if 0 <= r < 27 && taken.contains(r as u8) {
        lemma_first_free(taken, r + 1);
    }
}

} // verus!
