//! The integer rules of the arithmetic builtins.
//!
//! Int operations are checked: a result outside `i64`, or a division by
//! zero, is a fault that the builtin reports as an arithmetic error with
//! the fault's reason. Comparisons are three-way, `clamp` refuses a low
//! limit above the high one, and `min`/`max` pick an extreme element.

use crate::prelude::collections::clamp;
use crate::runtime::error::Arity;
use crate::runtime::eval::{items, list_items, variant_name};
use crate::runtime::value::{Cells, RuntimeError, Value, share, text};
use std::rc::Rc;
use vstd::prelude::*;
use vstd::string::StringExecFns;

verus! {

/// An operation of the arithmetic builtins on two ints.
#[derive(Debug, Clone, Copy, PartialEq, Eq, Structural)]
pub enum IntOp {
    Add,
    Sub,
    Mul,
    Div,
    Mod,
}

/// Why an int builtin refused its arguments.
#[derive(Debug, Clone, Copy, PartialEq, Eq, Structural)]
pub enum IntFault {
    /// The exact result does not fit in an `i64`.
    Overflow,
    /// A zero divisor, or the one quotient that does not fit
    /// (`i64::MIN` by `-1`), which the builtins report alike.
    DivisionByZero,
    /// `clamp` was given a low limit above its high limit.
    LowAboveHigh,
}

impl IntFault {
    /// The reason an arithmetic error gives for this fault.
    pub fn reason(&self) -> (r: &'static str)
        ensures
            *self == IntFault::Overflow ==> r@ == "integer overflow"@,
            *self == IntFault::DivisionByZero ==> r@ == "division by zero"@,
            *self == IntFault::LowAboveHigh ==> r@ == "low limit greater than high limit"@,
    {
        match self {
            IntFault::Overflow => "integer overflow",
            IntFault::DivisionByZero => "division by zero",
            IntFault::LowAboveHigh => "low limit greater than high limit",
        }
    }
}

/// `a` divided by `b`, rounded toward zero.
pub open spec fn trunc_div(a: int, b: int) -> int {
    let q = magnitude(a) / magnitude(b);
    if (a < 0) == (b < 0) {
        q
    } else {
        -q
    }
}

/// The magnitude of `x`.
pub open spec fn magnitude(x: int) -> int {
    if x < 0 {
        -x
    } else {
        x
    }
}

/// The exact result of `op` on `a` and `b`: the sum, the difference, the
/// product, the quotient rounded toward zero, or the least nonnegative
/// remainder.
pub open spec fn int_op_value(op: IntOp, a: int, b: int) -> int {
    match op {
        IntOp::Add => a + b,
        IntOp::Sub => a - b,
        IntOp::Mul => a * b,
        IntOp::Div => trunc_div(a, b),
        IntOp::Mod => a % b,
    }
}

/// The fault `op` meets on `a` and `b`, if any.
pub open spec fn int_op_fault(op: IntOp, a: int, b: int) -> Option<IntFault> {
    match op {
        IntOp::Div | IntOp::Mod => if b == 0 || (a == i64::MIN && b == -1) {
            Some(IntFault::DivisionByZero)
        } else {
            None
        },
        _ => if i64::MIN <= int_op_value(op, a, b) <= i64::MAX {
            None
        } else {
            Some(IntFault::Overflow)
        },
    }
}

proof fn lemma_trunc_div_fits(a: i64, b: i64)
    requires
        b != 0,
        !(a == i64::MIN && b == -1),
    ensures
        i64::MIN <= trunc_div(a as int, b as int) <= i64::MAX,
{
    let x = magnitude(a as int);
    let d = magnitude(b as int);
    assert(0 <= x / d <= x) by (nonlinear_arith)
        requires
            0 <= x,
            1 <= d,
    ;
    if d == 1 {
        assert(x / d == x) by (nonlinear_arith)
            requires
                d == 1,
        ;
    } else {
        assert(x / d <= x / 2) by (nonlinear_arith)
            requires
                0 <= x,
                2 <= d,
        ;
    }
}

/// `op` applied to two ints, checked: the exact result when the operation
/// has one that fits in an `i64`, otherwise the fault.
pub fn int_arith(op: IntOp, a: i64, b: i64) -> (r: Result<i64, IntFault>)
    ensures
        match int_op_fault(op, a as int, b as int) {
            Some(f) => r == Err::<i64, IntFault>(f),
            None => r matches Ok(x) && x == int_op_value(op, a as int, b as int),
        },
{
    match op {
        IntOp::Add => match a.checked_add(b) {
            Some(x) => Ok(x),
            None => Err(IntFault::Overflow),
        },
        IntOp::Sub => match a.checked_sub(b) {
            Some(x) => Ok(x),
            None => Err(IntFault::Overflow),
        },
        IntOp::Mul => match a.checked_mul(b) {
            Some(x) => Ok(x),
            None => Err(IntFault::Overflow),
        },
        IntOp::Div => {
            if b == 0 || (a == i64::MIN && b == -1) {
                return Err(IntFault::DivisionByZero);
            }
            proof {
                lemma_trunc_div_fits(a, b);
            }
            match a.checked_div(b) {
                Some(x) => Ok(x),
                None => Err(IntFault::DivisionByZero),
            }
        },
        IntOp::Mod => match a.checked_rem_euclid(b) {
            Some(x) => Ok(x),
            None => Err(IntFault::DivisionByZero),
        },
    }
}

/// The three-way comparison of two ints: `-1`, `0` or `1` as `a` is below,
/// equal to or above `b`.
pub fn compare_ints(a: i64, b: i64) -> (r: i64)
    ensures
        r == (if a < b {
            -1int
        } else if a > b {
            1int
        } else {
            0int
        }),
{
    if a < b {
        -1
    } else if a > b {
        1
    } else {
        0
    }
}

/// `val` held within `[low, high]`; a low limit above the high limit is
/// refused.
pub fn clamp_int(val: i64, low: i64, high: i64) -> (r: Result<i64, IntFault>)
    ensures
        low > high ==> r == Err::<i64, IntFault>(IntFault::LowAboveHigh),
        low <= high ==> (r matches Ok(x) && x == clamp(val as int, low as int, high as int)),
{
    if low > high {
        Err(IntFault::LowAboveHigh)
    } else if val < low {
        Ok(low)
    } else if val > high {
        Ok(high)
    } else {
        Ok(val)
    }
}

/// Whether `m` is an extreme of `xs`: no element above it (`pick_max`) or
/// none below it.
pub open spec fn is_extreme(xs: Seq<i64>, m: i64, pick_max: bool) -> bool {
    forall|k: int| 0 <= k < xs.len() ==> if pick_max {
        #[trigger] xs[k] <= m
    } else {
        m <= xs[k]
    }
}

/// The largest (`pick_max`) or the smallest element of `xs`, or `None`
/// when `xs` is empty.
pub fn extreme_int(xs: &[i64], pick_max: bool) -> (r: Option<i64>)
    ensures
        r is None <==> xs@.len() == 0,
        r matches Some(m) ==> (xs@.contains(m) && is_extreme(xs@, m, pick_max)),
{
    if xs.len() == 0 {
        return None;
    }
    let mut best: i64 = xs[0];
    let mut at: usize = 0;
    let mut k: usize = 1;
    while k < xs.len()
        invariant
            1 <= k <= xs@.len(),
            at < k,
            xs@[at as int] == best,
            is_extreme(xs@.take(k as int), best, pick_max),
        decreases xs@.len() - k,
    {
        let x = xs[k];
        proof {
            assert(xs@.take(k as int + 1) =~= xs@.take(k as int).push(x));
        }
        if (pick_max && x > best) || (!pick_max && x < best) {
            best = x;
            at = k;
        }
        k = k + 1;
    }
    proof {
        assert(xs@.take(k as int) =~= xs@);
    }
    Some(best)
}

/// What `min`, `max` and `clamp` compute once their arguments are checked:
/// an int result, or the floats (by their bits) the host compares.
#[derive(Debug)]
pub enum Numbers {
    Int(i64),
    Floats(Vec<u64>),
}

/// What `v` stands for when `cells` is the store: a ref is followed to
/// what its cell holds, at most `fuel` times; a ref to no cell, or one
/// reached when the fuel is spent, stays as it is.
pub open spec fn seen(v: Value, cells: Seq<Rc<Value>>, fuel: nat) -> Value
    decreases fuel,
{
    match v {
        Value::Ref(id) => if id < cells.len() && fuel > 0 {
            seen(*cells[id as int], cells, (fuel - 1) as nat)
        } else {
            v
        },
        _ => v,
    }
}

/// What the argument `v` stands for: the end of its chain of refs. A chain
/// longer than the store must come back to a cell already visited; such a
/// cycle is left as a ref.
pub open spec fn through(cells: Seq<Rc<Value>>, v: Rc<Value>) -> Value {
    seen(*v, cells, cells.len())
}

/// A value that is not a ref stands for itself, and a ref to a cell that
/// holds no ref stands for what the cell holds, whatever else the store
/// holds.
pub proof fn law_through_one_cell(cells: Seq<Rc<Value>>, v: Rc<Value>, id: usize)
    ensures
        !(*v is Ref) ==> through(cells, v) == *v,
        (*v == Value::Ref(id) && id < cells.len() && !(*cells[id as int] is Ref)) ==> through(cells, v)
            == *cells[id as int],
{
    reveal_with_fuel(seen, 2);
}

/// `v`, seen through its chain of ref cells.
fn through_ref(cells: &Cells, v: &Rc<Value>) -> (r: Rc<Value>)
    ensures
        !(**v is Ref) ==> r == *v,
        *r == through(cells@, *v),
{
    let n = cells.get_len();
    let mut cur: Rc<Value> = share(v);
    let mut fuel: usize = n;
    loop
        invariant
            n == cells@.len(),
            fuel <= n,
            through(cells@, *v) == seen(*cur, cells@, fuel as nat),
            !(**v is Ref) ==> cur == *v,
        decreases fuel,
    {
        let step: Option<usize> = match &*cur {
            Value::Ref(id) => Some(*id),
            _ => None,
        };
        match step {
            Some(id) => {
                if fuel == 0 {
                    return cur;
                }
                match cells.get(id) {
                    Some(x) => {
                        cur = x;
                        fuel = fuel - 1;
                    },
                    None => {
                        return cur;
                    },
                }
            },
            None => {
                return cur;
            },
        }
    }
}

/// The error `min`/`max` report when the items are not all of one numeric
/// type: the items' type names joined by `*`.
fn mixed_items(name: &str, items: &Vec<Rc<Value>>) -> (r: RuntimeError)
    ensures
        r is TypeMismatch,
{
    let mut got = String::new();
    let mut k: usize = 0;
    while k < items.len()
        invariant
            k <= items@.len(),
        decreases items@.len() - k,
    {
        if k > 0 {
            got.append("*");
        }
        got.append(variant_name(&*items[k]));
        k = k + 1;
    }
    RuntimeError::TypeMismatch {
        name: text(name),
        expected: text("number* | [number*] | '(number*) (homogeneous)"),
        got,
    }
}

/// The ints that int values hold.
pub open spec fn int_values(vs: Seq<Rc<Value>>) -> Seq<i64> {
    vs.map_values(|v: Rc<Value>| v->Int_0)
}

/// The ints that the values `vs` stand for, through their refs.
pub open spec fn through_ints(cells: Seq<Rc<Value>>, vs: Seq<Rc<Value>>) -> Seq<i64> {
    vs.map_values(|v: Rc<Value>| through(cells, v)->Int_0)
}

/// The numbers `(min ...)` and `(max ...)` work on: the elements of a
/// single array or list argument, else the arguments themselves.
pub open spec fn numbers_of(args: Seq<Rc<Value>>) -> Seq<Rc<Value>> {
    if args.len() == 1 && *args[0] is Array {
        args[0]->Array_0@
    } else if args.len() == 1 && *args[0] is Cons {
        items(*args[0])
    } else {
        args
    }
}

/// Whether `(min ...)` / `(max ...)` get numbers to compare: at least one
/// argument, a collection only alone, and not an empty one.
pub open spec fn takes_numbers(args: Seq<Rc<Value>>) -> bool {
    &&& args.len() > 0
    &&& !(args.len() > 1 && (*args[0] is Array || *args[0] is Cons))
    &&& numbers_of(args).len() > 0
}

/// `(min ...)` / `(max ...)` (`pick_max`): the numbers are either the
/// arguments themselves or the elements of a single array or list argument,
/// and must all be ints or all floats: the first by its own kind, the
/// others through their refs. Ints give their extreme; floats are handed
/// back for the host to compare.
#[verifier::loop_isolation(false)]
pub fn extremum_args(cells: &Cells, name: &str, args: &Vec<Rc<Value>>, pick_max: bool) -> (r:
    Result<Numbers, RuntimeError>)
    ensures
        args@.len() == 0 ==> (r matches Err(RuntimeError::ArityMismatch { expected, got, .. })
            && expected == Arity::AtLeast(1) && got == 0),
        args@.len() > 1 && (*args@[0] is Array || *args@[0] is Cons) ==> (r matches Err(
            RuntimeError::ArityMismatch { expected, got, .. },
        ) && expected == Arity::Exactly(1) && got == args@.len()),
        takes_numbers(args@) && (forall|k: int|
            0 <= k < numbers_of(args@).len() ==> #[trigger] *numbers_of(args@)[k] is Int) ==> (
        r matches Ok(Numbers::Int(m)) && int_values(numbers_of(args@)).contains(m) && is_extreme(
            int_values(numbers_of(args@)),
            m,
            pick_max,
        )),
        takes_numbers(args@) && (forall|k: int|
            0 <= k < numbers_of(args@).len() ==> #[trigger] *numbers_of(args@)[k] is Float) ==> (
        r matches Ok(Numbers::Floats(fs)) && fs@.len() == numbers_of(args@).len() && forall|k: int|
            0 <= k < fs@.len() ==> #[trigger] fs@[k] == numbers_of(args@)[k]->Float_0),
        (args@.len() == 1 && *args@[0] is Array && args@[0]->Array_0@.len() == 0) ==> r matches Err(
            RuntimeError::TypeMismatch { .. },
        ),
        takes_numbers(args@) && ((*numbers_of(args@)[0] is Int && exists|k: int|
            0 <= k < numbers_of(args@).len() && !(#[trigger] *numbers_of(args@)[k] is Int)
                && !(*numbers_of(args@)[k] is Ref)) || (*numbers_of(args@)[0] is Float && exists|k: int|
            0 <= k < numbers_of(args@).len() && !(#[trigger] *numbers_of(args@)[k] is Float)
                && !(*numbers_of(args@)[k] is Ref)) || (!(*numbers_of(args@)[0] is Int) && !(
        *numbers_of(args@)[0] is Float) && !(*numbers_of(args@)[0] is Ref))) ==> r matches Err(
            RuntimeError::TypeMismatch { .. },
        ),
        takes_numbers(args@) && *numbers_of(args@)[0] is Int && (forall|k: int|
            0 <= k < numbers_of(args@).len() ==> #[trigger] through(cells@, numbers_of(args@)[k]) is Int) ==> (
        r matches Ok(Numbers::Int(m)) && through_ints(cells@, numbers_of(args@)).contains(m) && is_extreme(
            through_ints(cells@, numbers_of(args@)),
            m,
            pick_max,
        )),
        takes_numbers(args@) && *numbers_of(args@)[0] is Float && (forall|k: int|
            0 <= k < numbers_of(args@).len() ==> #[trigger] through(cells@, numbers_of(args@)[k]) is Float) ==> (
        r matches Ok(Numbers::Floats(fs)) && fs@.len() == numbers_of(args@).len() && forall|k: int|
            0 <= k < fs@.len() ==> #[trigger] fs@[k] == through(cells@, numbers_of(args@)[k])->Float_0),
        takes_numbers(args@) && ((*numbers_of(args@)[0] is Int && exists|k: int|
            0 <= k < numbers_of(args@).len() && !(#[trigger] through(cells@, numbers_of(args@)[k]) is Int)) || (
        *numbers_of(args@)[0] is Float && exists|k: int|
            0 <= k < numbers_of(args@).len() && !(#[trigger] through(cells@, numbers_of(args@)[k]) is Float))
            || (!(*numbers_of(args@)[0] is Int) && !(*numbers_of(args@)[0] is Float))) ==> r matches Err(
            RuntimeError::TypeMismatch { .. },
        ),
{
    if args.len() == 0 {
        return Err(RuntimeError::ArityMismatch { name: text(name), expected: Arity::AtLeast(1), got: 0 });
    }
    let items: Vec<Rc<Value>> = match &*args[0] {
        Value::Array(_) | Value::Cons { .. } => {
            if args.len() != 1 {
                return Err(RuntimeError::ArityMismatch {
                    name: text(name),
                    expected: Arity::Exactly(1),
                    got: args.len(),
                });
            }
            match &*args[0] {
                Value::Array(xs) => {
                    let mut out: Vec<Rc<Value>> = Vec::new();
                    let mut k: usize = 0;
                    while k < xs.len()
                        invariant
                            k <= xs@.len(),
                            out@ == xs@.take(k as int),
                        decreases xs@.len() - k,
                    {
                        proof {
                            assert(xs@.take(k as int + 1) =~= xs@.take(k as int).push(xs@[k as int]));
                        }
                        out.push(share(&xs[k]));
                        k = k + 1;
                    }
                    proof {
                        assert(xs@.take(k as int) =~= xs@);
                    }
                    out
                },
                _ => list_items(&args[0]),
            }
        },
        _ => {
            let mut out: Vec<Rc<Value>> = Vec::new();
            let mut k: usize = 0;
            while k < args.len()
                invariant
                    k <= args@.len(),
                    out@ == args@.take(k as int),
                decreases args@.len() - k,
            {
                proof {
                    assert(args@.take(k as int + 1) =~= args@.take(k as int).push(args@[k as int]));
                }
                out.push(share(&args[k]));
                k = k + 1;
            }
            proof {
                assert(args@.take(k as int) =~= args@);
            }
            out
        },
    };
    proof {
        assert(items@ == numbers_of(args@));
    }
    if items.len() == 0 {
        return Err(RuntimeError::TypeMismatch {
            name: text(name),
            expected: text("non-empty collection"),
            got: text("empty collection"),
        });
    }
    match &*items[0] {
        Value::Int(_) => {
            let mut ints: Vec<i64> = Vec::new();
            let mut k: usize = 0;
            while k < items.len()
                invariant
                    k <= items@.len(),
                    ints@.len() == k,
                    forall|j: int| 0 <= j < k ==> (*items@[j] is Int ==> #[trigger] ints@[j] == items@[j]->Int_0),
                    forall|j: int| 0 <= j < k ==> (*#[trigger] items@[j] is Int || *items@[j] is Ref),
                    forall|j: int| 0 <= j < k ==> #[trigger] through(cells@, items@[j]) is Int,
                    forall|j: int| 0 <= j < k ==> #[trigger] ints@[j] == through(cells@, items@[j])->Int_0,
                decreases items@.len() - k,
            {
                let x = through_ref(cells, &items[k]);
                match &*x {
                    Value::Int(n) => ints.push(*n),
                    _ => {
                        return Err(mixed_items(name, &items));
                    },
                }
                k = k + 1;
            }
            match extreme_int(ints.as_slice(), pick_max) {
                Some(m) => {
                    proof {
                        assert((forall|k: int| 0 <= k < items@.len() ==> #[trigger] *items@[k] is Int) ==> ints@
                            =~= int_values(items@));
                        assert(ints@ =~= through_ints(cells@, items@));
                    }
                    Ok(Numbers::Int(m))
                },
                None => Err(mixed_items(name, &items)),
            }
        },
        Value::Float(_) => {
            let mut floats: Vec<u64> = Vec::new();
            let mut k: usize = 0;
            while k < items.len()
                invariant
                    k <= items@.len(),
                    floats@.len() == k,
                    forall|j: int| 0 <= j < k ==> (*items@[j] is Float ==> #[trigger] floats@[j] == items@[j]->Float_0),
                    forall|j: int| 0 <= j < k ==> (*#[trigger] items@[j] is Float || *items@[j] is Ref),
                    forall|j: int| 0 <= j < k ==> #[trigger] through(cells@, items@[j]) is Float,
                    forall|j: int| 0 <= j < k ==> #[trigger] floats@[j] == through(cells@, items@[j])->Float_0,
                decreases items@.len() - k,
            {
                let x = through_ref(cells, &items[k]);
                match &*x {
                    Value::Float(bits) => floats.push(*bits),
                    _ => {
                        return Err(mixed_items(name, &items));
                    },
                }
                k = k + 1;
            }
            Ok(Numbers::Floats(floats))
        },
        _ => Err(mixed_items(name, &items)),
    }
}

/// `(clamp val low high)`: three ints are clamped here (a low limit above
/// the high one is an arithmetic error); three floats are handed back for
/// the host; anything else is a type mismatch.
pub fn clamp_args(cells: &Cells, args: &Vec<Rc<Value>>) -> (r: Result<Numbers, RuntimeError>)
    requires
        args@.len() == 3,
    ensures
        *args@[0] matches Value::Int(v) ==> (*args@[1] matches Value::Int(lo) ==> (
        *args@[2] matches Value::Int(hi) ==> (if lo > hi {
            r matches Err(RuntimeError::ArithmeticError { .. })
        } else {
            r matches Ok(Numbers::Int(x)) && x == clamp(v as int, lo as int, hi as int)
        }))),
        *args@[0] matches Value::Int(v) ==> (*args@[1] matches Value::Int(lo) ==> (*args@[2] matches Value::Int(hi)
            ==> (lo <= hi ==> (r matches Ok(Numbers::Int(x)) && lo <= x <= hi && (lo <= v <= hi ==> x == v)
            && (v < lo ==> x == lo) && (v > hi ==> x == hi))))),
        (*args@[0] is Float && *args@[1] is Float && *args@[2] is Float) ==> (r matches Ok(
            Numbers::Floats(fs),
        ) && fs@ == seq![args@[0]->Float_0, args@[1]->Float_0, args@[2]->Float_0]),
        (!(*args@[0] is Ref) && !(*args@[1] is Ref) && !(*args@[2] is Ref) && !(*args@[0] is Int
            && *args@[1] is Int && *args@[2] is Int) && !(*args@[0] is Float && *args@[1] is Float
            && *args@[2] is Float)) ==> r matches Err(RuntimeError::TypeMismatch { .. }),
        through(cells@, args@[0]) matches Value::Int(v) ==> (through(cells@, args@[1]) matches Value::Int(lo)
            ==> (through(cells@, args@[2]) matches Value::Int(hi) ==> (if lo > hi {
            r matches Err(RuntimeError::ArithmeticError { .. })
        } else {
            r matches Ok(Numbers::Int(x)) && x == clamp(v as int, lo as int, hi as int)
        }))),
        (through(cells@, args@[0]) is Float && through(cells@, args@[1]) is Float && through(cells@, args@[2])
            is Float) ==> (r matches Ok(Numbers::Floats(fs)) && fs@ == seq![
            through(cells@, args@[0])->Float_0,
            through(cells@, args@[1])->Float_0,
            through(cells@, args@[2])->Float_0,
        ]),
        (!(through(cells@, args@[0]) is Int && through(cells@, args@[1]) is Int && through(cells@, args@[2])
            is Int) && !(through(cells@, args@[0]) is Float && through(cells@, args@[1]) is Float && through(
            cells@,
            args@[2],
        ) is Float)) ==> r matches Err(RuntimeError::TypeMismatch { .. }),
{
    let a = through_ref(cells, &args[0]);
    let b = through_ref(cells, &args[1]);
    let c = through_ref(cells, &args[2]);
    match (&*a, &*b, &*c) {
        (Value::Int(v), Value::Int(lo), Value::Int(hi)) => match clamp_int(*v, *lo, *hi) {
            Ok(x) => Ok(Numbers::Int(x)),
            Err(fault) => Err(RuntimeError::ArithmeticError { name: text("clamp"), reason: text(fault.reason()) }),
        },
        (Value::Float(v), Value::Float(lo), Value::Float(hi)) => {
            let mut out: Vec<u64> = Vec::new();
            out.push(*v);
            out.push(*lo);
            out.push(*hi);
            Ok(Numbers::Floats(out))
        },
        _ => Err(RuntimeError::TypeMismatch {
            name: text("clamp"),
            expected: text("int*int*int or float*float*float"),
            got: text("other"),
        }),
    }
}

} // verus!
