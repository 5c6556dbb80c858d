//! A reference interpreter that walks the typed SSA control-flow graph:
//! execute a block's instructions in order, follow its terminator,
//! remember the block it came from (to resolve phis), until a `Return`.

use vstd::prelude::*;
use std::collections::HashMap;
use crate::block::Terminator;
use crate::function::{Function, find_block, lemma_find_block};
use crate::inst::{BinOp, InstKind, UnOp};
use crate::module::{Module, find_function, lemma_find_function};
use crate::types::Type;
use crate::value::{BlockId, ValueId};

verus! {

broadcast use vstd::std_specs::hash::group_hash_axioms;

#[derive(Debug, Clone, Copy, PartialEq, Eq, Structural)]
pub enum RtValue {
    I64(i64),
    Bool(bool),
}

pub open spec fn rt_type(v: RtValue) -> Type {
    match v {
        RtValue::I64(_) => Type::I64,
        RtValue::Bool(_) => Type::Bool,
    }
}

impl RtValue {
    pub fn ty(self) -> (t: Type)
        ensures
            t == rt_type(self),
    {
        match self {
            RtValue::I64(_) => Type::I64,
            RtValue::Bool(_) => Type::Bool,
        }
    }

    fn as_i64(self) -> (n: i64)
        requires
            self is I64,
        ensures
            self == RtValue::I64(n),
    {
        match self {
            RtValue::I64(v) => v,
            RtValue::Bool(_) => 0,
        }
    }

    fn as_bool(self) -> (b: bool)
        requires
            self is Bool,
        ensures
            self == RtValue::Bool(b),
    {
        match self {
            RtValue::Bool(v) => v,
            RtValue::I64(_) => false,
        }
    }
}

#[derive(Debug, Clone, PartialEq, Eq)]
pub enum InterpError {
    UnknownFunction(String),
    DivideByZero,
    ArgCountMismatch { func: String, expected: usize, given: usize },
}

/// The mathematical content of an interpreter error.
pub enum InterpErrorView {
    UnknownFunction(Seq<char>),
    DivideByZero,
    ArgCountMismatch { func: Seq<char>, expected: nat, given: nat },
}

impl View for InterpError {
    type V = InterpErrorView;

    open spec fn view(&self) -> InterpErrorView {
        match self {
            InterpError::UnknownFunction(s) => InterpErrorView::UnknownFunction(s@),
            InterpError::DivideByZero => InterpErrorView::DivideByZero,
            InterpError::ArgCountMismatch { func, expected, given } => InterpErrorView::ArgCountMismatch {
                func: func@,
                expected: *expected as nat,
                given: *given as nat,
            },
        }
    }
}

/// How a bounded run of the interpreter ends: a returned value, a typed
/// error, a state in which the interpreter would panic (a use of a value
/// not yet computed, an operand of the wrong type, a phi without a
/// matching incoming edge, ...), or exhaustion of the step budget.
pub enum Outcome {
    Returned(Option<RtValue>),
    Failed(InterpErrorView),
    Stuck,
    OutOfFuel,
}

pub open spec fn finished(o: Outcome) -> bool {
    o is Returned || o is Failed
}

pub open spec fn result_outcome(r: Result<Option<RtValue>, InterpError>) -> Outcome {
    match r {
        Ok(v) => Outcome::Returned(v),
        Err(e) => Outcome::Failed(e@),
    }
}

// ---- Arithmetic ----

pub open spec fn abs(a: int) -> int {
    if a < 0 { -a } else { a }
}

/// Division rounding toward zero.
pub open spec fn trunc_div(a: int, b: int) -> int {
    if (a < 0) != (b < 0) { -(abs(a) / abs(b)) } else { abs(a) / abs(b) }
}

/// The remainder of `trunc_div`, carrying the dividend's sign.
pub open spec fn trunc_rem(a: int, b: int) -> int {
    if a < 0 { -(abs(a) % abs(b)) } else { abs(a) % abs(b) }
}

pub open spec fn wrapping_div(a: i64, b: i64) -> i64 {
    if a == i64::MIN && b == -1 { i64::MIN } else { trunc_div(a as int, b as int) as i64 }
}

pub open spec fn wrapping_rem(a: i64, b: i64) -> i64 {
    trunc_rem(a as int, b as int) as i64
}

pub open spec fn wrapping_neg(a: i64) -> i64 {
    if a == i64::MIN { i64::MIN } else { (-a) as i64 }
}

fn unsigned_abs(a: i64) -> (r: u64)
    ensures
        r == abs(a as int),
{
    if a >= 0 {
        a as u64
    } else if a == i64::MIN {
        0x8000_0000_0000_0000u64
    } else {
        (-a) as u64
    }
}

fn div_wrapping(a: i64, b: i64) -> (r: i64)
    requires
        b != 0,
    ensures
        r == wrapping_div(a, b),
{
    if a == i64::MIN && b == -1 {
        return i64::MIN;
    }
    let ua = unsigned_abs(a);
    let ub = unsigned_abs(b);
    let q = ua / ub;
    assert(q <= ua) by (nonlinear_arith)
        requires
            q == ua / ub,
            ub >= 1,
    ;
    assert(q < 0x8000_0000_0000_0000u64 || ((a < 0) != (b < 0))) by {
        if q >= 0x8000_0000_0000_0000u64 {
            assert(ua == 0x8000_0000_0000_0000u64);
            assert(a == i64::MIN);
            if ub > 1 {
                assert(q < ua) by (nonlinear_arith)
                    requires
                        q == ua / ub,
                        ub >= 2,
                        ua >= 1,
                ;
            }
            assert(ub == 1);
        }
    }
    if (a < 0) != (b < 0) {
        if q == 0x8000_0000_0000_0000u64 {
            i64::MIN
        } else {
            -(q as i64)
        }
    } else {
        q as i64
    }
}

fn rem_wrapping(a: i64, b: i64) -> (r: i64)
    requires
        b != 0,
    ensures
        r == wrapping_rem(a, b),
{
    let ua = unsigned_abs(a);
    let ub = unsigned_abs(b);
    let m = ua % ub;
    assert(m < ub);
    if a < 0 {
        -(m as i64)
    } else {
        m as i64
    }
}

fn neg_wrapping(a: i64) -> (r: i64)
    ensures
        r == wrapping_neg(a),
{
    if a == i64::MIN { i64::MIN } else { -a }
}

/// A binary operation on runtime values: its value, a division by zero,
/// or `Stuck` when an operand has the wrong type. `and`/`or` read their
/// right operand only when the left one does not decide the result.
pub open spec fn spec_eval_bin(op: BinOp, l: RtValue, r: RtValue) -> Result<RtValue, Outcome> {
    match op {
        BinOp::And => match l {
            RtValue::Bool(false) => Ok(RtValue::Bool(false)),
            RtValue::Bool(true) => match r {
                RtValue::Bool(y) => Ok(RtValue::Bool(y)),
                _ => Err(Outcome::Stuck),
            },
            _ => Err(Outcome::Stuck),
        },
        BinOp::Or => match l {
            RtValue::Bool(true) => Ok(RtValue::Bool(true)),
            RtValue::Bool(false) => match r {
                RtValue::Bool(y) => Ok(RtValue::Bool(y)),
                _ => Err(Outcome::Stuck),
            },
            _ => Err(Outcome::Stuck),
        },
        _ => match (l, r) {
            (RtValue::I64(a), RtValue::I64(b)) => match op {
                BinOp::Add => Ok(RtValue::I64(vstd::wrapping::i64_specs::wrapping_add(a, b))),
                BinOp::Sub => Ok(RtValue::I64(vstd::wrapping::i64_specs::wrapping_sub(a, b))),
                BinOp::Mul => Ok(RtValue::I64(vstd::wrapping::i64_specs::wrapping_mul(a, b))),
                BinOp::Div => if b == 0 {
                    Err(Outcome::Failed(InterpErrorView::DivideByZero))
                } else {
                    Ok(RtValue::I64(wrapping_div(a, b)))
                },
                BinOp::Mod => if b == 0 {
                    Err(Outcome::Failed(InterpErrorView::DivideByZero))
                } else {
                    Ok(RtValue::I64(wrapping_rem(a, b)))
                },
                BinOp::CmpEq => Ok(RtValue::Bool(a == b)),
                BinOp::CmpNe => Ok(RtValue::Bool(a != b)),
                BinOp::CmpLt => Ok(RtValue::Bool(a < b)),
                BinOp::CmpLe => Ok(RtValue::Bool(a <= b)),
                BinOp::CmpGt => Ok(RtValue::Bool(a > b)),
                _ => Ok(RtValue::Bool(a >= b)),
            },
            _ => Err(Outcome::Stuck),
        },
    }
}

/// The interpreter's binary operations mean what they say. On integers the
/// six comparisons are integer equality and order; addition and
/// subtraction give the exact result whenever it fits in an `i64`;
/// division and remainder by a nonzero divisor, outside the one quotient
/// that overflows, give a quotient and remainder that rebuild the dividend,
/// the remainder smaller than the divisor and of the dividend's sign. On
/// booleans `and` and `or` are conjunction and disjunction.
pub proof fn lemma_eval_bin_meaning(a: i64, b: i64, p: bool, q: bool)
    ensures
        spec_eval_bin(BinOp::CmpEq, RtValue::I64(a), RtValue::I64(b)) == Ok::<RtValue, Outcome>(RtValue::Bool(a == b)),
        spec_eval_bin(BinOp::CmpNe, RtValue::I64(a), RtValue::I64(b)) == Ok::<RtValue, Outcome>(RtValue::Bool(a != b)),
        spec_eval_bin(BinOp::CmpLt, RtValue::I64(a), RtValue::I64(b)) == Ok::<RtValue, Outcome>(RtValue::Bool(a < b)),
        spec_eval_bin(BinOp::CmpLe, RtValue::I64(a), RtValue::I64(b)) == Ok::<RtValue, Outcome>(RtValue::Bool(a <= b)),
        spec_eval_bin(BinOp::CmpGt, RtValue::I64(a), RtValue::I64(b)) == Ok::<RtValue, Outcome>(RtValue::Bool(a > b)),
        spec_eval_bin(BinOp::CmpGe, RtValue::I64(a), RtValue::I64(b)) == Ok::<RtValue, Outcome>(RtValue::Bool(a >= b)),
        i64::MIN <= a + b <= i64::MAX ==> spec_eval_bin(BinOp::Add, RtValue::I64(a), RtValue::I64(b))
            == Ok::<RtValue, Outcome>(RtValue::I64((a + b) as i64)),
        i64::MIN <= a - b <= i64::MAX ==> spec_eval_bin(BinOp::Sub, RtValue::I64(a), RtValue::I64(b))
            == Ok::<RtValue, Outcome>(RtValue::I64((a - b) as i64)),
        i64::MIN <= a * b <= i64::MAX ==> spec_eval_bin(BinOp::Mul, RtValue::I64(a), RtValue::I64(b))
            == Ok::<RtValue, Outcome>(RtValue::I64((a * b) as i64)),
        b != 0 && !(a == i64::MIN && b == -1) ==> (spec_eval_bin(BinOp::Div, RtValue::I64(a), RtValue::I64(b)) matches Ok(RtValue::I64(dq))
            && spec_eval_bin(BinOp::Mod, RtValue::I64(a), RtValue::I64(b)) matches Ok(RtValue::I64(dr))
            && a == b * dq + dr && abs(dr as int) < abs(b as int) && (dr == 0 || (dr < 0) == (a < 0))),
        b == 0 ==> spec_eval_bin(BinOp::Div, RtValue::I64(a), RtValue::I64(b)) is Err
            && spec_eval_bin(BinOp::Mod, RtValue::I64(a), RtValue::I64(b)) is Err,
        spec_eval_bin(BinOp::And, RtValue::Bool(p), RtValue::Bool(q)) == Ok::<RtValue, Outcome>(RtValue::Bool(p && q)),
        spec_eval_bin(BinOp::Or, RtValue::Bool(p), RtValue::Bool(q)) == Ok::<RtValue, Outcome>(RtValue::Bool(p || q)),
{
    let prod: int = a * b;
    if i64::MIN <= prod <= i64::MAX {
        assert(prod % 0x1_0000_0000_0000_0000int == if prod >= 0 { prod } else { prod + 0x1_0000_0000_0000_0000int })
            by (nonlinear_arith) requires i64::MIN <= prod <= i64::MAX;
    }
    if b != 0 && !(a == i64::MIN && b == -1) {
        let x = a as int;
        let y = b as int;
        let ax = abs(x);
        let ay = abs(y);
        assert(ay > 0);
        let qq = ax / ay;
        let rr = ax % ay;
        assert(ax == ay * qq + rr && 0 <= rr < ay && 0 <= qq) by (nonlinear_arith)
            requires ay > 0, ax >= 0, qq == ax / ay, rr == ax % ay;
        assert(qq <= ax) by (nonlinear_arith)
            requires ay > 0, ax >= 0, qq == ax / ay, ax == ay * qq + rr, 0 <= rr;
        let tq = trunc_div(x, y);
        let tr = trunc_rem(x, y);
        assert(x == y * tq + tr) by (nonlinear_arith)
            requires ax == ay * qq + rr, ax == abs(x), ay == abs(y),
                tq == (if (x < 0) != (y < 0) { -qq } else { qq }),
                tr == (if x < 0 { -rr } else { rr });
        assert(ay >= 2 ==> qq * 2 <= ax) by (nonlinear_arith)
            requires ay > 0, ax >= 0, ax == ay * qq + rr, 0 <= rr, 0 <= qq;
        assert(ay == 1 ==> qq == ax) by (nonlinear_arith)
            requires ax == ay * qq + rr, 0 <= rr < ay;
        assert(i64::MIN <= tq <= i64::MAX);
        assert(i64::MIN <= tr <= i64::MAX);
    }
}

pub open spec fn spec_eval_un(op: UnOp, v: RtValue) -> Result<RtValue, Outcome> {
    match (op, v) {
        (UnOp::Neg, RtValue::I64(a)) => Ok(RtValue::I64(wrapping_neg(a))),
        (UnOp::Not, RtValue::Bool(b)) => Ok(RtValue::Bool(!b)),
        _ => Err(Outcome::Stuck),
    }
}

fn eval_bin(op: BinOp, lhs: RtValue, rhs: RtValue) -> (r: Result<RtValue, InterpError>)
    requires
        spec_eval_bin(op, lhs, rhs) != Err::<RtValue, Outcome>(Outcome::Stuck),
    ensures
        match spec_eval_bin(op, lhs, rhs) {
            Ok(v) => r == Ok::<RtValue, InterpError>(v),
            Err(o) => r matches Err(e) && o == Outcome::Failed(e@),
        },
{
    match op {
        BinOp::Add => Ok(RtValue::I64(lhs.as_i64().wrapping_add(rhs.as_i64()))),
        BinOp::Sub => Ok(RtValue::I64(lhs.as_i64().wrapping_sub(rhs.as_i64()))),
        BinOp::Mul => Ok(RtValue::I64(lhs.as_i64().wrapping_mul(rhs.as_i64()))),
        BinOp::Div => {
            let (a, b) = (lhs.as_i64(), rhs.as_i64());
            if b == 0 {
                return Err(InterpError::DivideByZero);
            }
            Ok(RtValue::I64(div_wrapping(a, b)))
        },
        BinOp::Mod => {
            let (a, b) = (lhs.as_i64(), rhs.as_i64());
            if b == 0 {
                return Err(InterpError::DivideByZero);
            }
            Ok(RtValue::I64(rem_wrapping(a, b)))
        },
        BinOp::CmpEq => Ok(RtValue::Bool(lhs.as_i64() == rhs.as_i64())),
        BinOp::CmpNe => Ok(RtValue::Bool(lhs.as_i64() != rhs.as_i64())),
        BinOp::CmpLt => Ok(RtValue::Bool(lhs.as_i64() < rhs.as_i64())),
        BinOp::CmpLe => Ok(RtValue::Bool(lhs.as_i64() <= rhs.as_i64())),
        BinOp::CmpGt => Ok(RtValue::Bool(lhs.as_i64() > rhs.as_i64())),
        BinOp::CmpGe => Ok(RtValue::Bool(lhs.as_i64() >= rhs.as_i64())),
        BinOp::And => Ok(RtValue::Bool(lhs.as_bool() && rhs.as_bool())),
        BinOp::Or => Ok(RtValue::Bool(lhs.as_bool() || rhs.as_bool())),
    }
}

/// The interpreter's unary operations mean what they say: negation gives
/// the negated integer whenever it fits in an `i64` (and the most negative
/// integer back, wrapping), and `not` gives the negated boolean.
pub proof fn lemma_eval_un_meaning(a: i64, p: bool)
    ensures
        a != i64::MIN ==> spec_eval_un(UnOp::Neg, RtValue::I64(a)) == Ok::<RtValue, Outcome>(RtValue::I64((-a) as i64)),
        spec_eval_un(UnOp::Neg, RtValue::I64(i64::MIN)) == Ok::<RtValue, Outcome>(RtValue::I64(i64::MIN)),
        spec_eval_un(UnOp::Not, RtValue::Bool(p)) == Ok::<RtValue, Outcome>(RtValue::Bool(!p)),
{
}

fn eval_un(op: UnOp, v: RtValue) -> (r: RtValue)
    requires
        spec_eval_un(op, v) is Ok,
    ensures
        spec_eval_un(op, v) == Ok::<RtValue, Outcome>(r),
{
    match op {
        UnOp::Neg => RtValue::I64(neg_wrapping(v.as_i64())),
        UnOp::Not => RtValue::Bool(!v.as_bool()),
    }
}


// ---- Execution, with a step budget ----

/// Parameters occupy the values `0..args.len()`.
pub open spec fn init_env(args: Seq<RtValue>) -> Map<u32, RtValue> {
    Map::new(|k: u32| (k as int) < args.len(), |k: u32| args[k as int])
}

/// The value a phi takes on entry from `from`: its first incoming entry for `from`.
pub open spec fn incoming_for(incoming: Seq<(BlockId, ValueId)>, from: BlockId) -> Option<ValueId>
    decreases incoming.len(),
{
    if incoming.len() == 0 {
        None
    } else if incoming[0].0 == from {
        Some(incoming[0].1)
    } else {
        incoming_for(incoming.drop_first(), from)
    }
}

pub open spec fn all_defined(env: Map<u32, RtValue>, args: Seq<ValueId>) -> bool {
    forall|i: int| 0 <= i < args.len() ==> env.contains_key(#[trigger] args[i].0)
}

pub open spec fn arg_values(env: Map<u32, RtValue>, args: Seq<ValueId>) -> Seq<RtValue> {
    args.map_values(|a: ValueId| env[a.0])
}

/// Calls `f` with `args`: a budget of `fuel` bounds both the number of
/// control transfers and the depth of nested calls.
pub open spec fn spec_call(m: Module, f: Function, args: Seq<RtValue>, fuel: nat) -> Outcome
    decreases fuel, 3nat, 0nat,
{
    if args.len() != f.params@.len() {
        Outcome::Failed(InterpErrorView::ArgCountMismatch { func: f.name@, expected: f.params@.len(), given: args.len() })
    } else if fuel == 0 {
        Outcome::OutOfFuel
    } else {
        run_block(m, f, init_env(args), f.entry, None, (fuel - 1) as nat)
    }
}

/// Runs block `cur` of `f`, entered from `from`.
pub open spec fn run_block(m: Module, f: Function, env: Map<u32, RtValue>, cur: BlockId, from: Option<BlockId>, fuel: nat) -> Outcome
    decreases fuel, 2nat, 0nat,
{
    match find_block(f.blocks@, cur) {
        None => Outcome::Stuck,
        Some(i) => run_insts(m, f, f.blocks@[i].instructions@, f.blocks@[i].terminator, 0, env, env, cur, from, fuel),
    }
}

/// Runs instructions `k..` of the current block, then its terminator.
/// Every phi reads its incoming value as it stood when control entered the
/// block (`entry`), so phis of one block take effect together.
pub open spec fn run_insts(
    m: Module,
    f: Function,
    insts: Seq<crate::inst::Instruction>,
    term: Option<Terminator>,
    k: nat,
    entry: Map<u32, RtValue>,
    env: Map<u32, RtValue>,
    cur: BlockId,
    from: Option<BlockId>,
    fuel: nat,
) -> Outcome
    decreases fuel, 1nat, insts.len() - k,
{
    if k >= insts.len() {
        run_term(m, f, term, env, cur, fuel)
    } else {
        let inst = insts[k as int];
        match inst.kind {
            InstKind::ConstI64(v) => run_insts(m, f, insts, term, k + 1, entry, env.insert(inst.id.0, RtValue::I64(v)), cur, from, fuel),
            InstKind::ConstBool(v) => run_insts(m, f, insts, term, k + 1, entry, env.insert(inst.id.0, RtValue::Bool(v)), cur, from, fuel),
            InstKind::Bin(op, l, r) => if !env.contains_key(l.0) || !env.contains_key(r.0) {
                Outcome::Stuck
            } else {
                match spec_eval_bin(op, env[l.0], env[r.0]) {
                    Ok(v) => run_insts(m, f, insts, term, k + 1, entry, env.insert(inst.id.0, v), cur, from, fuel),
                    Err(o) => o,
                }
            },
            InstKind::Un(op, a) => if !env.contains_key(a.0) {
                Outcome::Stuck
            } else {
                match spec_eval_un(op, env[a.0]) {
                    Ok(v) => run_insts(m, f, insts, term, k + 1, entry, env.insert(inst.id.0, v), cur, from, fuel),
                    Err(o) => o,
                }
            },
            InstKind::Phi(incoming) => match from {
                None => Outcome::Stuck,
                Some(p) => match incoming_for(incoming@, p) {
                    None => Outcome::Stuck,
                    Some(v) => if entry.contains_key(v.0) {
                        run_insts(m, f, insts, term, k + 1, entry, env.insert(inst.id.0, entry[v.0]), cur, from, fuel)
                    } else {
                        Outcome::Stuck
                    },
                },
            },
            InstKind::Call { func: callee, args } => match find_function(m.functions@, callee@) {
                None => Outcome::Failed(InterpErrorView::UnknownFunction(callee@)),
                Some(ci) => if !all_defined(env, args@) {
                    Outcome::Stuck
                } else if fuel == 0 {
                    Outcome::OutOfFuel
                } else {
                    match spec_call(m, m.functions@[ci], arg_values(env, args@), (fuel - 1) as nat) {
                        Outcome::Returned(Some(v)) => run_insts(m, f, insts, term, k + 1, entry, env.insert(inst.id.0, v), cur, from, fuel),
                        Outcome::Returned(None) => Outcome::Stuck,
                        other => other,
                    }
                },
            },
        }
    }
}

/// Follows the current block's terminator.
pub open spec fn run_term(m: Module, f: Function, term: Option<Terminator>, env: Map<u32, RtValue>, cur: BlockId, fuel: nat) -> Outcome
    decreases fuel, 0nat, 0nat,
{
    match term {
        None => Outcome::Stuck,
        Some(Terminator::Jump(t)) => if fuel == 0 {
            Outcome::OutOfFuel
        } else {
            run_block(m, f, env, t, Some(cur), (fuel - 1) as nat)
        },
        Some(Terminator::Branch { cond, then_block, else_block }) => if !env.contains_key(cond.0) {
            Outcome::Stuck
        } else {
            match env[cond.0] {
                RtValue::Bool(b) => if fuel == 0 {
                    Outcome::OutOfFuel
                } else {
                    run_block(m, f, env, if b { then_block } else { else_block }, Some(cur), (fuel - 1) as nat)
                },
                RtValue::I64(_) => Outcome::Stuck,
            }
        },
        Some(Terminator::Return(v)) => match v {
            None => Outcome::Returned(None),
            Some(x) => if env.contains_key(x.0) { Outcome::Returned(Some(env[x.0])) } else { Outcome::Stuck },
        },
    }
}

/// Runs the function named `entry` of `m` with `args`, within `fuel`.
pub open spec fn spec_run(m: Module, entry: Seq<char>, args: Seq<RtValue>, fuel: nat) -> Outcome {
    match find_function(m.functions@, entry) {
        None => Outcome::Failed(InterpErrorView::UnknownFunction(entry)),
        Some(i) => spec_call(m, m.functions@[i], args, fuel),
    }
}

/// The run ends (returns or fails with a typed error) within some budget.
pub open spec fn run_terminates(m: Module, entry: Seq<char>, args: Seq<RtValue>) -> bool {
    exists|fuel: nat| finished(#[trigger] spec_run(m, entry, args, fuel))
}

/// A budget within which the run ends.
pub open spec fn run_fuel(m: Module, entry: Seq<char>, args: Seq<RtValue>) -> nat {
    choose|fuel: nat| finished(#[trigger] spec_run(m, entry, args, fuel))
}

/// How a terminating run ends.
pub open spec fn run_outcome(m: Module, entry: Seq<char>, args: Seq<RtValue>) -> Outcome {
    spec_run(m, entry, args, run_fuel(m, entry, args))
}

fn call(module: &Module, func: &Function, args: &[RtValue], Ghost(fuel): Ghost<nat>) -> (r: Result<Option<RtValue>, InterpError>)
    requires
        crate::validate::params_fit(*module),
        func.params@.len() <= u32::MAX,
        finished(spec_call(*module, *func, args@, fuel)),
    ensures
        result_outcome(r) == spec_call(*module, *func, args@, fuel),
    decreases fuel,
{
    if args.len() != func.params.len() {
        return Err(InterpError::ArgCountMismatch {
            func: func.name.clone(),
            expected: func.params.len(),
            given: args.len(),
        });
    }
    let mut env: HashMap<u32, RtValue> = HashMap::new();
    let mut i: usize = 0;
    while i < args.len()
        invariant
            args@.len() == func.params@.len(),
            func.params@.len() <= u32::MAX,
            0 <= i <= args@.len(),
            finished(spec_call(*module, *func, args@, fuel)),
            env@ =~= Map::new(|k: u32| (k as int) < i, |k: u32| args@[k as int]),
        decreases args.len() - i,
    {
        env.insert(i as u32, args[i]);
        i += 1;
    }
    assert(env@ =~= init_env(args@));
    let ghost goal = spec_call(*module, *func, args@, fuel);
    let ghost mut g: nat = (fuel - 1) as nat;
    let mut current = func.entry;
    let mut came_from: Option<BlockId> = None;
    loop
        invariant
            finished(goal),
            goal == spec_call(*module, *func, args@, fuel),
            crate::validate::params_fit(*module),
            g < fuel,
            goal == run_block(*module, *func, env@, current, came_from, g),
        decreases g,
    {
        proof { lemma_find_block(func.blocks@, current); }
        let block = match func.block(current) {
            Some(b) => b,
            None => { return Err(InterpError::DivideByZero); },
        };
        let entry_env = env.clone();
        let ghost insts = block.instructions@;
        let ghost term = block.terminator;
        let mut k: usize = 0;
        while k < block.instructions.len()
            invariant
                finished(goal),
                goal == spec_call(*module, *func, args@, fuel),
                crate::validate::params_fit(*module),
                g < fuel,
                insts == block.instructions@,
                term == block.terminator,
                0 <= k <= insts.len(),
                goal == run_insts(*module, *func, insts, term, k as nat, entry_env@, env@, current, came_from, g),
            decreases block.instructions.len() - k,
        {
            let inst = &block.instructions[k];
            let value = match &inst.kind {
                InstKind::ConstI64(v) => RtValue::I64(*v),
                InstKind::ConstBool(v) => RtValue::Bool(*v),
                InstKind::Bin(op, lhs, rhs) => {
                    let l = *env.get(&lhs.0).unwrap();
                    let r = *env.get(&rhs.0).unwrap();
                    match eval_bin(*op, l, r) {
                        Ok(v) => v,
                        Err(e) => { return Err(e); },
                    }
                },
                InstKind::Un(op, a) => {
                    let x = *env.get(&a.0).unwrap();
                    eval_un(*op, x)
                },
                InstKind::Phi(incoming) => {
                    let from = came_from.unwrap();
                    let mut j: usize = 0;
                    let mut found: Option<ValueId> = None;
                    assert(incoming@.skip(0) =~= incoming@);
                    while j < incoming.len() && found.is_none()
                        invariant
                            0 <= j <= incoming@.len(),
                            found is None ==> incoming_for(incoming@, from) == incoming_for(incoming@.skip(j as int), from),
                            found matches Some(v) ==> incoming_for(incoming@, from) == Some(v),
                        decreases incoming.len() - j,
                    {
                        assert(incoming@.skip(j as int)[0] == incoming@[j as int]);
                        assert(incoming@.skip(j as int).drop_first() =~= incoming@.skip(j + 1));
                        if incoming[j].0 == from {
                            assert(incoming_for(incoming@.skip(j as int), from) == Some(incoming@[j as int].1));
                            found = Some(incoming[j].1);
                        }
                        j += 1;
                    }
                    proof {
                        if found is None {
                            assert(incoming@.skip(j as int) =~= Seq::<(BlockId, ValueId)>::empty());
                        }
                    }
                    let v = found.unwrap();
                    *entry_env.get(&v.0).unwrap()
                },
                InstKind::Call { func: callee, args: call_args } => {
                    proof { lemma_find_function(module.functions@, callee@); }
                    let callee_fn = match module.function(callee.as_str()) {
                        Some(c) => c,
                        None => { return Err(InterpError::UnknownFunction(callee.clone())); },
                    };
                    let mut vals: Vec<RtValue> = Vec::new();
                    let mut j: usize = 0;
                    assert(all_defined(env@, call_args@));
                    while j < call_args.len()
                        invariant
                            0 <= j <= call_args@.len(),
                            all_defined(env@, call_args@),
                            vals@ =~= arg_values(env@, call_args@).take(j as int),
                        decreases call_args.len() - j,
                    {
                        assert(env@.contains_key(call_args@[j as int].0));
                        vals.push(*env.get(&call_args[j].0).unwrap());
                        j += 1;
                    }
                    assert(vals@ =~= arg_values(env@, call_args@));
                    match call(module, callee_fn, vals.as_slice(), Ghost((g - 1) as nat)) {
                        Ok(Some(v)) => v,
                        Ok(None) => { return Err(InterpError::DivideByZero); },
                        Err(e) => { return Err(e); },
                    }
                },
            };
            env.insert(inst.id.0, value);
            k += 1;
        }
        assert(goal == run_term(*module, *func, term, env@, current, g));
        match block.terminator.as_ref().unwrap() {
            Terminator::Jump(target) => {
                came_from = Some(current);
                current = *target;
            },
            Terminator::Branch { cond, then_block, else_block } => {
                came_from = Some(current);
                current = if env.get(&cond.0).unwrap().as_bool() { *then_block } else { *else_block };
            },
            Terminator::Return(value) => {
                return match value {
                    Some(v) => Ok(Some(*env.get(&v.0).unwrap())),
                    None => Ok(None),
                };
            },
        }
        proof { g = (g - 1) as nat; }
    }
}

/// Interprets the function of `module` named `entry` with `args`, matched
/// positionally against its parameters.
pub fn run(module: &Module, entry: &str, args: &[RtValue]) -> (r: Result<Option<RtValue>, InterpError>)
    requires
        crate::validate::params_fit(*module),
        run_terminates(*module, entry@, args@),
    ensures
        result_outcome(r) == run_outcome(*module, entry@, args@),
{
    proof { lemma_find_function(module.functions@, entry@); }
    let func = match module.function(entry) {
        Some(f) => f,
        None => { return Err(InterpError::UnknownFunction(entry.to_owned())); },
    };
    let ghost fuel = run_fuel(*module, entry@, args@);
    call(module, func, args, Ghost(fuel))
}

} // verus!
