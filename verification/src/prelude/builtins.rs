//! The builtins the library runs itself: the cons cell (`cons`, `car`,
//! `cdr`), the ref cell (`ref`, `deref`, `set!`) over the store of
//! [`Cells`], and `not`. Each has a builtin id from [`CORE_BASE`] up; the
//! evaluator runs these ids here and hands every other builtin id to the
//! host.

use crate::runtime::error::Arity;
use crate::runtime::eval::{is_special, is_truthy, items, truthy_in, type_mismatch};
use crate::runtime::semantics::threads;
use crate::runtime::value::{Cells, Env, RuntimeError, Value, binds, bound, share};
use std::rc::Rc;
use vstd::prelude::*;
use vstd::string::StringExecFns;

verus! {

/// The first builtin id of the library's own builtins; the host numbers
/// its builtins below it.
pub const CORE_BASE: usize = 0x7000_0000;

/// The library's own builtins.
#[derive(Debug, Clone, Copy, PartialEq, Eq)]
pub enum Core {
    Cons,
    Car,
    Cdr,
    Not,
    MakeRef,
    Deref,
    SetRef,
}

/// The builtin id of `b`.
pub open spec fn core_id(b: Core) -> int {
    CORE_BASE + match b {
        Core::Cons => 0int,
        Core::Car => 1int,
        Core::Cdr => 2int,
        Core::Not => 3int,
        Core::MakeRef => 4int,
        Core::Deref => 5int,
        Core::SetRef => 6int,
    }
}

/// The library's builtin with the id `id`, if it is one.
pub open spec fn core_at(id: int) -> Option<Core> {
    if id == CORE_BASE {
        Some(Core::Cons)
    } else if id == CORE_BASE + 1 {
        Some(Core::Car)
    } else if id == CORE_BASE + 2 {
        Some(Core::Cdr)
    } else if id == CORE_BASE + 3 {
        Some(Core::Not)
    } else if id == CORE_BASE + 4 {
        Some(Core::MakeRef)
    } else if id == CORE_BASE + 5 {
        Some(Core::Deref)
    } else if id == CORE_BASE + 6 {
        Some(Core::SetRef)
    } else {
        None
    }
}

/// The library's builtin with the id `id`, if it is one.
pub fn core_of(id: usize) -> (r: Option<Core>)
    ensures
        r == core_at(id as int),
        r matches Some(b) ==> core_id(b) == id,
{
    if id < CORE_BASE {
        return None;
    }
    let k = id - CORE_BASE;
    if k == 0 {
        Some(Core::Cons)
    } else if k == 1 {
        Some(Core::Car)
    } else if k == 2 {
        Some(Core::Cdr)
    } else if k == 3 {
        Some(Core::Not)
    } else if k == 4 {
        Some(Core::MakeRef)
    } else if k == 5 {
        Some(Core::Deref)
    } else if k == 6 {
        Some(Core::SetRef)
    } else {
        None
    }
}

/// The builtin id of `b`.
pub fn id_of(b: Core) -> (r: usize)
    ensures
        r == core_id(b),
        core_at(r as int) == Some(b),
{
    match b {
        Core::Cons => CORE_BASE,
        Core::Car => CORE_BASE + 1,
        Core::Cdr => CORE_BASE + 2,
        Core::Not => CORE_BASE + 3,
        Core::MakeRef => CORE_BASE + 4,
        Core::Deref => CORE_BASE + 5,
        Core::SetRef => CORE_BASE + 6,
    }
}

/// The name `b` is bound to.
pub open spec fn core_name_of(b: Core) -> Seq<char> {
    match b {
        Core::Cons => "cons"@,
        Core::Car => "car"@,
        Core::Cdr => "cdr"@,
        Core::Not => "not"@,
        Core::MakeRef => "ref"@,
        Core::Deref => "deref"@,
        Core::SetRef => "set!"@,
    }
}

/// The name `b` is bound to.
pub fn core_name(b: Core) -> (r: &'static str)
    ensures
        r@ == core_name_of(b),
{
    match b {
        Core::Cons => "cons",
        Core::Car => "car",
        Core::Cdr => "cdr",
        Core::Not => "not",
        Core::MakeRef => "ref",
        Core::Deref => "deref",
        Core::SetRef => "set!",
    }
}

/// How many arguments `b` takes: two for `cons` and `set!`, one for the
/// others.
pub open spec fn core_count(b: Core) -> nat {
    match b {
        Core::Cons | Core::SetRef => 2,
        _ => 1,
    }
}

/// How many arguments `b` takes.
pub fn core_arity(b: Core) -> (r: Arity)
    ensures
        r == Arity::Exactly(core_count(b) as usize),
{
    match b {
        Core::Cons | Core::SetRef => Arity::Exactly(2),
        _ => Arity::Exactly(1),
    }
}

/// What `b` does on the arguments `args` with the store `cells`, giving `r`
/// and leaving the store `after`:
/// - `(cons h t)` is the cell of `h` and `t`;
/// - `(car xs)` / `(cdr xs)` the head / tail of a cell, `()` of `()`, and
///   anything else a type mismatch;
/// - `(not x)` is `1` when `x` is falsy, else `0`;
/// - `(ref v)` adds a cell holding `v` and is a ref to it;
/// - `(deref r)` is what the cell of `r` holds;
/// - `(set! r v)` makes the cell of `r` hold `v` and is `v`;
/// - `deref` and `set!` on anything but a ref to a cell of the store are a
///   type mismatch.
/// Only `ref` and `set!` change the store.
pub open spec fn core_gives(
    b: Core,
    args: Seq<Rc<Value>>,
    cells: Seq<Rc<Value>>,
    r: Result<Rc<Value>, RuntimeError>,
    after: Seq<Rc<Value>>,
) -> bool {
    match b {
        Core::Cons => after == cells && (r matches Ok(v) && *v == (Value::Cons {
            head: args[0],
            tail: args[1],
        })),
        Core::Car => after == cells && (match *args[0] {
            Value::Cons { head, .. } => r == Ok::<Rc<Value>, RuntimeError>(head),
            Value::Unit => r matches Ok(v) && *v == Value::Unit,
            _ => r matches Err(RuntimeError::TypeMismatch { .. }),
        }),
        Core::Cdr => after == cells && (match *args[0] {
            Value::Cons { tail, .. } => r == Ok::<Rc<Value>, RuntimeError>(tail),
            Value::Unit => r matches Ok(v) && *v == Value::Unit,
            _ => r matches Err(RuntimeError::TypeMismatch { .. }),
        }),
        Core::Not => after == cells && (r matches Ok(v) && *v == Value::Int(
            if truthy_in(*args[0], cells, cells.len()) {
                0
            } else {
                1
            },
        )),
        Core::MakeRef => after == cells.push(args[0]) && (r matches Ok(v) && *v == Value::Ref(
            cells.len() as usize,
        )),
        Core::Deref => after == cells && (match *args[0] {
            Value::Ref(id) => if id < cells.len() {
                r == Ok::<Rc<Value>, RuntimeError>(cells[id as int])
            } else {
                r matches Err(RuntimeError::TypeMismatch { .. })
            },
            _ => r matches Err(RuntimeError::TypeMismatch { .. }),
        }),
        Core::SetRef => match *args[0] {
            Value::Ref(id) => if id < cells.len() {
                after == cells.update(id as int, args[1]) && r == Ok::<Rc<Value>, RuntimeError>(
                    args[1],
                )
            } else {
                after == cells && r matches Err(RuntimeError::TypeMismatch { .. })
            },
            _ => after == cells && r matches Err(RuntimeError::TypeMismatch { .. }),
        },
    }
}

/// A call of the library's builtin `b` on the operand forms `ops`, from
/// the environment `env` and the store `cells`, ends in `r` with the store
/// `after`: evaluating the operands in turn fails with that error, or gives
/// the arguments, and then a count `b` does not take is an arity error and
/// any other gives what [`core_gives`] says (from the store the operands
/// left).
pub open spec fn core_calls(
    b: Core,
    ops: Seq<Rc<Value>>,
    env: Seq<(Rc<String>, Rc<Value>)>,
    cells: Seq<Rc<Value>>,
    depth: nat,
    r: Result<Rc<Value>, RuntimeError>,
    after: Seq<Rc<Value>>,
) -> bool {
    ||| (r matches Err(x) && threads(ops, env, cells, depth, Err(x)))
    ||| exists|args: Seq<Rc<Value>>, eo: Seq<(Rc<String>, Rc<Value>)>, cs: Seq<Rc<Value>>|
        #[trigger] core_step(b, ops, env, cells, depth, args, eo, cs, r, after)
}

/// The operands `ops` gave `args` (leaving `eo`), and then `b` ran on them
/// from the store `cs`, or refused their count.
pub open spec fn core_step(
    b: Core,
    ops: Seq<Rc<Value>>,
    env: Seq<(Rc<String>, Rc<Value>)>,
    cells: Seq<Rc<Value>>,
    depth: nat,
    args: Seq<Rc<Value>>,
    eo: Seq<(Rc<String>, Rc<Value>)>,
    cs: Seq<Rc<Value>>,
    r: Result<Rc<Value>, RuntimeError>,
    after: Seq<Rc<Value>>,
) -> bool {
    threads(ops, env, cells, depth, Ok((args, eo))) && (if args.len() == core_count(b) {
        core_gives(b, args, cs, r, after)
    } else {
        r matches Err(RuntimeError::ArityMismatch { .. })
    })
}

/// A call whose operands gave `args`, and which then ran `b` (or refused
/// the count), ends as [`core_calls`] says.
pub proof fn lemma_core_calls(
    b: Core,
    list: &Value,
    env: Seq<(Rc<String>, Rc<Value>)>,
    cells: Seq<Rc<Value>>,
    depth: nat,
    args: Seq<Rc<Value>>,
    eo: Seq<(Rc<String>, Rc<Value>)>,
    cs: Seq<Rc<Value>>,
    r: Result<Rc<Value>, RuntimeError>,
    after: Seq<Rc<Value>>,
)
    requires
        threads(items(*list), env, cells, depth, Ok((args, eo))),
        args.len() == core_count(b) ==> core_gives(b, args, cs, r, after),
        args.len() != core_count(b) ==> r matches Err(RuntimeError::ArityMismatch { .. }),
    ensures
        core_calls(b, items(*list), env, cells, depth, r, after),
{
    assert(core_step(b, items(*list), env, cells, depth, args, eo, cs, r, after));
}

/// Whether `form` calls, by a name that is not a special form, the
/// library's builtin `b`, which `env` binds to that name.
pub open spec fn calls_bound_core(form: Value, env: Seq<(Rc<String>, Rc<Value>)>, b: Core) -> bool {
    &&& form matches Value::Cons { head, .. }
    &&& *head matches Value::Ident(n)
    &&& !is_special(n@)
    &&& bound(env, n@)
    &&& forall|x: Rc<Value>| binds(env, n@, x) ==> *x == Value::Native(core_id(b) as usize)
}

/// `(deref r)` after `(set! r v)` gives `v`: a read gives back what the
/// last write to the cell wrote.
pub proof fn law_deref_after_set(
    r: Rc<Value>,
    v: Rc<Value>,
    cells: Seq<Rc<Value>>,
    w: Result<Rc<Value>, RuntimeError>,
    mid: Seq<Rc<Value>>,
    res: Result<Rc<Value>, RuntimeError>,
    after: Seq<Rc<Value>>,
)
    requires
        core_gives(Core::SetRef, seq![r, v], cells, w, mid),
        w is Ok,
        core_gives(Core::Deref, seq![r], mid, res, after),
    ensures
        res == Ok::<Rc<Value>, RuntimeError>(v),
        after == mid,
{
}

/// `(deref (ref v))` gives `v`, and making the ref adds one cell.
pub proof fn law_deref_after_ref(
    v: Rc<Value>,
    cells: Seq<Rc<Value>>,
    made: Rc<Value>,
    mid: Seq<Rc<Value>>,
    res: Result<Rc<Value>, RuntimeError>,
    after: Seq<Rc<Value>>,
)
    requires
        cells.len() < usize::MAX,
        core_gives(Core::MakeRef, seq![v], cells, Ok::<Rc<Value>, RuntimeError>(made), mid),
        core_gives(Core::Deref, seq![made], mid, res, after),
    ensures
        res == Ok::<Rc<Value>, RuntimeError>(v),
        mid.len() == cells.len() + 1,
{
}

/// `(set! r v)` on one cell leaves every other cell as it was.
pub proof fn law_set_touches_one_cell(
    id: usize,
    v: Rc<Value>,
    cells: Seq<Rc<Value>>,
    w: Result<Rc<Value>, RuntimeError>,
    after: Seq<Rc<Value>>,
    other: int,
)
    requires
        core_gives(Core::SetRef, seq![Rc::new(Value::Ref(id)), v], cells, w, after),
        0 <= other < cells.len(),
        other != id,
    ensures
        after.len() == cells.len(),
        after[other] == cells[other],
{
}

/// `car` and `cdr` take back the two halves `cons` put together.
pub proof fn law_car_cdr_of_cons(
    h: Rc<Value>,
    t: Rc<Value>,
    cells: Seq<Rc<Value>>,
    p: Rc<Value>,
    a: Result<Rc<Value>, RuntimeError>,
    d: Result<Rc<Value>, RuntimeError>,
    c1: Seq<Rc<Value>>,
    c2: Seq<Rc<Value>>,
    c3: Seq<Rc<Value>>,
)
    requires
        core_gives(Core::Cons, seq![h, t], cells, Ok::<Rc<Value>, RuntimeError>(p), c1),
        core_gives(Core::Car, seq![p], c1, a, c2),
        core_gives(Core::Cdr, seq![p], c2, d, c3),
    ensures
        a == Ok::<Rc<Value>, RuntimeError>(h),
        d == Ok::<Rc<Value>, RuntimeError>(t),
        c3 == cells,
{
}

/// Runs the builtin `b` on `args` (as many as it takes) with the store
/// `cells`: see [`core_gives`].
pub fn core_apply(b: Core, args: &Vec<Rc<Value>>, cells: &mut Cells) -> (r: Result<
    Rc<Value>,
    RuntimeError,
>)
    requires
        args@.len() == core_count(b),
    ensures
        core_gives(b, args@, old(cells)@, r, final(cells)@),
{
    match b {
        Core::Cons => Ok(Rc::new(Value::Cons { head: share(&args[0]), tail: share(&args[1]) })),
        Core::Car => match &*args[0] {
            Value::Cons { head, .. } => Ok(share(head)),
            Value::Unit => Ok(Rc::new(Value::Unit)),
            other => Err(type_mismatch("car", "cons/()", other)),
        },
        Core::Cdr => match &*args[0] {
            Value::Cons { tail, .. } => Ok(share(tail)),
            Value::Unit => Ok(Rc::new(Value::Unit)),
            other => Err(type_mismatch("cdr", "cons/()", other)),
        },
        Core::Not => {
            let t = is_truthy(&*args[0], cells);
            Ok(Rc::new(Value::Int(if t { 0 } else { 1 })))
        },
        Core::MakeRef => {
            let id = cells.new_cell(share(&args[0]));
            Ok(Rc::new(Value::Ref(id)))
        },
        Core::Deref => match &*args[0] {
            Value::Ref(id) => match cells.get(*id) {
                Some(v) => Ok(v),
                None => Err(type_mismatch("deref", "ref", &*args[0])),
            },
            other => Err(type_mismatch("deref", "ref", other)),
        },
        Core::SetRef => match &*args[0] {
            Value::Ref(id) => {
                if cells.set(*id, share(&args[1])) {
                    Ok(share(&args[1]))
                } else {
                    Err(type_mismatch("set!", "ref", &*args[0]))
                }
            },
            other => Err(type_mismatch("set!", "ref", other)),
        },
    }
}

/// Different builtins have different names.
proof fn lemma_core_names_distinct(a: Core, b: Core)
    requires
        a != b,
    ensures
        core_name_of(a) != core_name_of(b),
{
    reveal_strlit("cons");
    reveal_strlit("car");
    reveal_strlit("cdr");
    reveal_strlit("not");
    reveal_strlit("ref");
    reveal_strlit("deref");
    reveal_strlit("set!");
    assert("cons"@.len() == 4 && "cons"@[1] == 'o');
    assert("car"@.len() == 3 && "car"@[2] == 'r');
    assert("cdr"@.len() == 3 && "cdr"@[1] == 'd');
    assert("not"@.len() == 3 && "not"@[0] == 'n');
    assert("ref"@.len() == 3 && "ref"@[0] == 'r');
    assert("deref"@.len() == 5);
    assert("set!"@.len() == 4 && "set!"@[1] == 'e');
    assert("car"@[0] == 'c' && "cdr"@[0] == 'c' && "car"@[1] == 'a');
}

/// `env` with `b` bound to its name.
fn bind_core(env: Env, b: Core) -> (r: Env)
    ensures
        binds(r@, core_name_of(b), Rc::new(Value::Native(core_id(b) as usize))),
        forall|n: Seq<char>, x: Rc<Value>| n != core_name_of(b) ==> (binds(r@, n, x) <==> binds(env@, n, x)),
{
    let name = Rc::new(String::from_str(core_name(b)));
    let v = Rc::new(Value::Native(id_of(b)));
    env.update(name, v)
}

/// `env` with each of the library's builtins bound to its name.
pub fn with_core(env: Env) -> (r: Env)
    ensures
        forall|b: Core| #[trigger] binds(r@, core_name_of(b), Rc::new(Value::Native(core_id(b) as usize))),
{
    let e1 = bind_core(env, Core::Cons);
    let e2 = bind_core(e1, Core::Car);
    let e3 = bind_core(e2, Core::Cdr);
    let e4 = bind_core(e3, Core::Not);
    let e5 = bind_core(e4, Core::MakeRef);
    let e6 = bind_core(e5, Core::Deref);
    let e7 = bind_core(e6, Core::SetRef);
    proof {
        assert forall|b: Core| #[trigger] binds(e7@, core_name_of(b), Rc::new(Value::Native(core_id(b) as usize))) by {
            if b != Core::SetRef { lemma_core_names_distinct(b, Core::SetRef); }
            if b != Core::Deref { lemma_core_names_distinct(b, Core::Deref); }
            if b != Core::MakeRef { lemma_core_names_distinct(b, Core::MakeRef); }
            if b != Core::Not { lemma_core_names_distinct(b, Core::Not); }
            if b != Core::Cdr { lemma_core_names_distinct(b, Core::Cdr); }
            if b != Core::Car { lemma_core_names_distinct(b, Core::Car); }
        }
    }
    e7
}

} // verus!
