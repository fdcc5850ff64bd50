//! The meaning of evaluation, as the evaluator's contracts state it: what
//! one step gives as far as the form and the environment fix it
//! ([`eval_basic`]), how forms in turn thread the environment and the store
//! ([`threads`]), how a closure call runs its body ([`call_env`], [`runs`],
//! [`calls`]), and how the special forms `if`, `do`, `let` and `quasi` are
//! built from those steps.
use crate::consts::{KW_DO, KW_DOC, KW_FN, KW_IF, KW_LET, KW_OPEN, KW_QUOTE, KW_UNQUOTE, KW_UNQUOTE_SPLICE};
use crate::prelude::collections::{inserted_pairs, law_inserted_pairs_origin};
use crate::prelude::builtins::{core_at, core_gives};
use crate::runtime::error::Arity;
use crate::runtime::eval::{
    calls_bound_closure, closure_takes, head_is, made, params_of, ident_of, items, operands, self_evaluating, truthy_in,
};
use crate::runtime::run::copy_of;
use crate::runtime::value::{Closure, Env, RuntimeError, Value, binds, bound, qualified};
use std::rc::Rc;
use vstd::prelude::*;

verus! {

/// The outcome of an evaluation, with the environment by its bindings.
pub open spec fn outcome(r: Result<(Rc<Value>, Env), RuntimeError>) -> Result<
    (Rc<Value>, Seq<(Rc<String>, Rc<Value>)>),
    RuntimeError,
> {
    match r {
        Ok((v, e)) => Ok((v, e@)),
        Err(x) => Err(x),
    }
}

/// `b2` is `b1` with `n` bound to `v`, every other name as it was.
pub open spec fn updated(
    b1: Seq<(Rc<String>, Rc<Value>)>,
    n: Seq<char>,
    v: Rc<Value>,
    b2: Seq<(Rc<String>, Rc<Value>)>,
) -> bool {
    &&& binds(b2, n, v)
    &&& forall|m: Seq<char>| m != n ==> (bound(b2, m) <==> bound(b1, m))
    &&& forall|m: Seq<char>, x: Rc<Value>| m != n ==> (binds(b2, m, x) <==> binds(b1, m, x))
}

/// `e` is `s` with the names `ns` bound, in order, to the values `vs`:
/// a sequence of environments leads from `s` to `e`, each step binding the
/// next name.
pub open spec fn chain(
    s: Seq<(Rc<String>, Rc<Value>)>,
    ns: Seq<Rc<String>>,
    vs: Seq<Rc<Value>>,
    e: Seq<(Rc<String>, Rc<Value>)>,
) -> bool {
    &&& ns.len() == vs.len()
    &&& exists|envs: Seq<Seq<(Rc<String>, Rc<Value>)>>| steps(envs, s, ns, vs, e)
}

/// `envs` leads from `s` to `e`, step `i` binding `ns[i]` to `vs[i]`.
pub open spec fn steps(
    envs: Seq<Seq<(Rc<String>, Rc<Value>)>>,
    s: Seq<(Rc<String>, Rc<Value>)>,
    ns: Seq<Rc<String>>,
    vs: Seq<Rc<Value>>,
    e: Seq<(Rc<String>, Rc<Value>)>,
) -> bool {
    &&& envs.len() == ns.len() + 1
    &&& envs[0] == s
    &&& envs[ns.len() as int] == e
    &&& forall|i: int| 0 <= i < ns.len() ==> #[trigger] updated(envs[i], ns[i]@, vs[i], envs[i + 1])
}

/// Binding one more name extends a chain.
pub proof fn lemma_chain_push(
    s: Seq<(Rc<String>, Rc<Value>)>,
    ns: Seq<Rc<String>>,
    vs: Seq<Rc<Value>>,
    m: Seq<(Rc<String>, Rc<Value>)>,
    n: Rc<String>,
    v: Rc<Value>,
    e: Seq<(Rc<String>, Rc<Value>)>,
)
    requires
        chain(s, ns, vs, m),
        updated(m, n@, v, e),
    ensures
        chain(s, ns.push(n), vs.push(v), e),
{
    let envs = choose|envs: Seq<Seq<(Rc<String>, Rc<Value>)>>| steps(envs, s, ns, vs, m);
    let envs2 = envs.push(e);
    assert forall|i: int| 0 <= i < ns.push(n).len() implies #[trigger] updated(
        envs2[i],
        ns.push(n)[i]@,
        vs.push(v)[i],
        envs2[i + 1],
    ) by {
        if i < ns.len() {
            assert(updated(envs[i], ns[i]@, vs[i], envs[i + 1]));
        }
    }
    assert(steps(envs2, s, ns.push(n), vs.push(v), e));
}

/// The empty chain.
pub proof fn lemma_chain_empty(s: Seq<(Rc<String>, Rc<Value>)>)
    ensures
        chain(s, Seq::empty(), Seq::empty(), s),
{
    assert(steps(seq![s], s, Seq::empty(), Seq::empty(), s));
}

/// `e` is the environment a call of `c` on `args` runs its body in: the
/// captured environment with the closure's own name bound to `me`, then
/// each parameter bound to its argument, then the rest parameter (if any)
/// bound to the list of the arguments left over.
pub open spec fn call_env(
    c: Closure,
    args: Seq<Rc<Value>>,
    me: Rc<Value>,
    e: Seq<(Rc<String>, Rc<Value>)>,
) -> bool {
    let np = c.params@.len() as int;
    exists|e0: Seq<(Rc<String>, Rc<Value>)>, e1: Seq<(Rc<String>, Rc<Value>)>|
        #![trigger updated(c.env@, c.name@, me, e0), chain(e0, c.params@, args.take(np), e1)]
        updated(c.env@, c.name@, me, e0) && chain(e0, c.params@, args.take(np), e1) && match c.rest {
            None => e == e1,
            Some(rn) => exists|x: Rc<Value>| items(*x) == args.skip(np) && #[trigger] updated(
                e1,
                rn@,
                x,
                e,
            ),
        }
}

/// A call of `c` on `args`, with `me` the closure itself, ends in `r`:
/// the body, evaluated in the environment [`call_env`] gives with `cells`
/// the store, ends in that value (or that error).
pub open spec fn runs(
    c: Closure,
    args: Seq<Rc<Value>>,
    me: Rc<Value>,
    cells: Seq<Rc<Value>>,
    depth: nat,
    r: Result<Rc<Value>, RuntimeError>,
) -> bool {
    exists|e: Seq<(Rc<String>, Rc<Value>)>, eo: Seq<(Rc<String>, Rc<Value>)>|
        #![trigger call_env(c, args, me, e), eval_basic(*c.body, e, cells, depth, with_env(r, eo))]
        call_env(c, args, me, e) && eval_basic(*c.body, e, cells, depth, with_env(r, eo))
}

/// `r` with the environment `e` beside its value.
pub open spec fn with_env(
    r: Result<Rc<Value>, RuntimeError>,
    e: Seq<(Rc<String>, Rc<Value>)>,
) -> Result<(Rc<Value>, Seq<(Rc<String>, Rc<Value>)>), RuntimeError> {
    match r {
        Ok(v) => Ok((v, e)),
        Err(x) => Err(x),
    }
}

/// `forms` evaluated in turn, the first in the environment `envs[0]` with
/// the store `stores[0]`, each next one in the environment and store the one
/// before left, give `vals`, and then `r`: the values and the last
/// environment once every form gave one, or the error of the first form
/// that failed.
pub open spec fn threaded(
    forms: Seq<Rc<Value>>,
    envs: Seq<Seq<(Rc<String>, Rc<Value>)>>,
    stores: Seq<Seq<Rc<Value>>>,
    vals: Seq<Rc<Value>>,
    depth: nat,
    r: Result<(Seq<Rc<Value>>, Seq<(Rc<String>, Rc<Value>)>), RuntimeError>,
) -> bool {
    let n = vals.len() as int;
    &&& envs.len() == n + 1
    &&& stores.len() == n + 1
    &&& n <= forms.len()
    &&& forall|i: int|
        0 <= i < n ==> #[trigger] eval_basic(
            *forms[i],
            envs[i],
            stores[i],
            depth,
            Ok((vals[i], envs[i + 1])),
        )
    &&& match r {
        Ok((vs, e)) => n == forms.len() && vs == vals && e == envs[n],
        Err(x) => n < forms.len() && eval_basic(*forms[n], envs[n], stores[n], depth, Err(x)),
    }
}

/// `forms` evaluated in turn from the environment `env` and the store
/// `cells`, threading both, end in `r` (see [`threaded`]).
pub open spec fn threads(
    forms: Seq<Rc<Value>>,
    env: Seq<(Rc<String>, Rc<Value>)>,
    cells: Seq<Rc<Value>>,
    depth: nat,
    r: Result<(Seq<Rc<Value>>, Seq<(Rc<String>, Rc<Value>)>), RuntimeError>,
) -> bool {
    exists|
        envs: Seq<Seq<(Rc<String>, Rc<Value>)>>,
        stores: Seq<Seq<Rc<Value>>>,
        vals: Seq<Rc<Value>>,
    |
        #![trigger threaded(forms, envs, stores, vals, depth, r)]
        envs[0] == env && stores[0] == cells && threaded(forms, envs, stores, vals, depth, r)
}

/// A call of the closure value `h` on the operand forms `ops`, from the
/// environment `env` and the store `cells`, ends in `r`: either evaluating
/// the operands in turn fails with that error, or they give the arguments,
/// and then a count the closure does not take is an error and any other
/// runs the body as [`runs`] says (from the store the operands left).
pub open spec fn calls(
    h: Rc<Value>,
    ops: Seq<Rc<Value>>,
    env: Seq<(Rc<String>, Rc<Value>)>,
    cells: Seq<Rc<Value>>,
    depth: nat,
    r: Result<Rc<Value>, RuntimeError>,
) -> bool {
    match *h {
        Value::Closure(c) => {
            ||| (r matches Err(x) && threads(ops, env, cells, depth, Err(x)))
            ||| exists|
                args: Seq<Rc<Value>>,
                eo: Seq<(Rc<String>, Rc<Value>)>,
                cs: Seq<Rc<Value>>,
            |
                #![trigger threads(ops, env, cells, depth, Ok((args, eo))), runs(*c, args, h, cs, depth, r)]
                threads(ops, env, cells, depth, Ok((args, eo))) && (if closure_takes(
                    *c,
                    args.len(),
                ) {
                    runs(*c, args, h, cs, depth, r)
                } else {
                    r is Err
                })
        },
        _ => false,
    }
}

/// Applying `f` to `args` can give `v`: for a closure, its body ran on
/// them as [`runs`] says (from some store) and gave `v`; for one of the
/// library's builtins, it gave `v` as [`core_gives`] says (from some
/// store); what a host builtin gives is the host's.
pub open spec fn gives(f: Rc<Value>, args: Seq<Rc<Value>>, depth: nat, v: Rc<Value>) -> bool {
    match *f {
        Value::Closure(c) => exists|cs: Seq<Rc<Value>>|
            #![trigger runs(*c, args, f, cs, depth, Ok::<Rc<Value>, RuntimeError>(v))]
            runs(*c, args, f, cs, depth, Ok::<Rc<Value>, RuntimeError>(v)),
        Value::Native(id) => match core_at(id as int) {
            Some(b) => exists|cs: Seq<Rc<Value>>, after: Seq<Rc<Value>>|
                #![trigger core_gives(b, args, cs, Ok::<Rc<Value>, RuntimeError>(v), after)]
                core_gives(b, args, cs, Ok::<Rc<Value>, RuntimeError>(v), after),
            None => true,
        },
        _ => true,
    }
}

/// The elements of `xs` whose flag is set, in order.
pub open spec fn select<A>(xs: Seq<A>, flags: Seq<bool>) -> Seq<A>
    decreases xs.len(),
{
    if xs.len() == 0 {
        Seq::empty()
    } else {
        select(xs.drop_last(), flags.drop_last()) + (if flags.last() {
            seq![xs.last()]
        } else {
            Seq::empty()
        })
    }
}

/// Selecting over one more element adds it when its flag is set.
pub proof fn lemma_select_extend<A>(xs: Seq<A>, flags: Seq<bool>, x: A, b: bool)
    requires
        xs.len() == flags.len(),
    ensures
        select(xs.push(x), flags.push(b)) == select(xs, flags) + (if b {
            seq![x]
        } else {
            Seq::empty()
        }),
{
    assert(xs.push(x).drop_last() =~= xs);
    assert(flags.push(b).drop_last() =~= flags);
}

/// The arguments a callback gets for element `k` with the parts `parts`:
/// the index first when `indexed`.
pub open spec fn callback_for(a: Seq<Rc<Value>>, k: int, parts: Seq<Rc<Value>>, indexed: bool) -> bool {
    if indexed {
        a.len() == parts.len() + 1 && *a[0] == Value::Int(k as i64) && a.skip(1) == parts
    } else {
        a == parts
    }
}

/// The pieces laid end to end.
pub open spec fn joined(pieces: Seq<Seq<Rc<Value>>>) -> Seq<Rc<Value>>
    decreases pieces.len(),
{
    if pieces.len() == 0 {
        Seq::empty()
    } else {
        joined(pieces.drop_last()) + pieces.last()
    }
}

/// What the element `e` of a list or array contributes under
/// quasi-quotation (with the environment `env`, the store `cells` and
/// `depth` left): `(unquote-splice x)` the elements of the value `x`
/// evaluates to, an atom itself, anything else the one value
/// [`quasi_one`] says.
pub open spec fn quasi_piece(
    e: Rc<Value>,
    env: Seq<(Rc<String>, Rc<Value>)>,
    cells: Seq<Rc<Value>>,
    depth: nat,
    piece: Seq<Rc<Value>>,
) -> bool {
    if head_is(*e, KW_UNQUOTE_SPLICE@) {
        operands(*e).len() == 1 && exists|w: Rc<Value>, eo: Seq<(Rc<String>, Rc<Value>)>|
            #![trigger eval_basic(*operands(*e)[0], env, cells, depth, Ok((w, eo)))]
            eval_basic(*operands(*e)[0], env, cells, depth, Ok((w, eo))) && piece == items(*w)
    } else if !(*e is Cons) && !(*e is Array) && !(*e is Dict) {
        piece == seq![e]
    } else {
        piece.len() == 1 && quasi_one(e, env, depth, piece[0])
    }
}

/// `out` is what the elements `elems` give under quasi-quotation: each
/// element's piece (see [`quasi_piece`], each with the store as it then
/// stood), laid end to end.
pub open spec fn quasi_elems(
    elems: Seq<Rc<Value>>,
    env: Seq<(Rc<String>, Rc<Value>)>,
    depth: nat,
    out: Seq<Rc<Value>>,
) -> bool {
    exists|pieces: Seq<Seq<Rc<Value>>>, stores: Seq<Seq<Rc<Value>>>|
        #![trigger joined(pieces), stores.len()]
        pieces.len() == elems.len() && stores.len() == elems.len() && out == joined(pieces) && forall|
            k: int,
        |
            0 <= k < elems.len() ==> #[trigger] quasi_piece(elems[k], env, stores[k], depth, pieces[k])
}

/// `(if c a b)` with the operands `ops`, from the environment `env` and the
/// store `cells`, ends in `r`: the condition fails with that error, or it
/// gives a value, and the branch its truth picks (with the store as it then
/// stands) ends in `r`, both in `env`.
pub open spec fn if_runs(
    ops: Seq<Rc<Value>>,
    env: Seq<(Rc<String>, Rc<Value>)>,
    cells: Seq<Rc<Value>>,
    depth: nat,
    r: Result<Rc<Value>, RuntimeError>,
) -> bool {
    ||| (r matches Err(x) && eval_basic(*ops[0], env, cells, depth, Err(x)))
    ||| exists|
        cv: Rc<Value>,
        ce: Seq<(Rc<String>, Rc<Value>)>,
        cs: Seq<Rc<Value>>,
        be: Seq<(Rc<String>, Rc<Value>)>,
    |
        #![trigger eval_basic(*ops[0], env, cells, depth, Ok((cv, ce))), truthy_in(*cv, cs, cs.len()), with_env(r, be)]
        eval_basic(*ops[0], env, cells, depth, Ok((cv, ce))) && eval_basic(
            *(if truthy_in(*cv, cs, cs.len()) {
                ops[1]
            } else {
                ops[2]
            }),
            env,
            cs,
            depth,
            with_env(r, be),
        )
}

/// `(do f ...)` with the forms `forms`, from the environment `env` and the
/// store `cells`, ends in `r`: the forms evaluated in turn, threading both
/// (see [`threads`]), give the last value (`()` for none) and the last
/// environment, or the first error.
pub open spec fn do_runs(
    forms: Seq<Rc<Value>>,
    env: Seq<(Rc<String>, Rc<Value>)>,
    cells: Seq<Rc<Value>>,
    depth: nat,
    r: Result<(Rc<Value>, Seq<(Rc<String>, Rc<Value>)>), RuntimeError>,
) -> bool {
    match r {
        Ok((v, e)) => exists|vals: Seq<Rc<Value>>|
            #![trigger threads(forms, env, cells, depth, Ok((vals, e)))]
            threads(forms, env, cells, depth, Ok((vals, e))) && (if vals.len() == 0 {
                *v == Value::Unit
            } else {
                v == vals.last()
            }),
        Err(x) => threads(forms, env, cells, depth, Err(x)),
    }
}

/// Each of the forms `xs` evaluated in the one environment `env` (with the
/// store `stores[i]` for the `i`-th) gave `vals[i]`, leaving `eos[i]`.
pub open spec fn each_evals(
    xs: Seq<Rc<Value>>,
    env: Seq<(Rc<String>, Rc<Value>)>,
    stores: Seq<Seq<Rc<Value>>>,
    eos: Seq<Seq<(Rc<String>, Rc<Value>)>>,
    vals: Seq<Rc<Value>>,
    depth: nat,
) -> bool {
    &&& stores.len() == vals.len()
    &&& eos.len() == vals.len()
    &&& vals.len() <= xs.len()
    &&& forall|i: int|
        #![trigger vals[i]]
        0 <= i < vals.len() ==> eval_basic(*xs[i], env, stores[i], depth, Ok((vals[i], eos[i])))
}

/// `(let NAME x)` with the operands `ops`, from the environment `env` and
/// the store `cells`, ends in `r`: `x` fails with that error, or gives a
/// value, which `r` gives with the environment `x` left, `NAME` bound to it.
pub open spec fn let_runs(
    ops: Seq<Rc<Value>>,
    env: Seq<(Rc<String>, Rc<Value>)>,
    cells: Seq<Rc<Value>>,
    depth: nat,
    r: Result<(Rc<Value>, Seq<(Rc<String>, Rc<Value>)>), RuntimeError>,
) -> bool {
    match r {
        Err(x) => eval_basic(*ops[1], env, cells, depth, Err(x)),
        Ok((v, e)) => exists|ev: Seq<(Rc<String>, Rc<Value>)>|
            #![trigger eval_basic(*ops[1], env, cells, depth, Ok((v, ev)))]
            eval_basic(*ops[1], env, cells, depth, Ok((v, ev))) && updated(ev, ident_of(*ops[0]), v, e),
    }
}

/// `e` is `base` with every binding of `module` merged in under the
/// prefix (see [`qualified`]): a merged name takes the module's value,
/// private `_` names included, and every other name keeps its own.
pub open spec fn merges(
    base: Seq<(Rc<String>, Rc<Value>)>,
    module: Seq<(Rc<String>, Rc<Value>)>,
    prefix: Option<Seq<char>>,
    e: Seq<(Rc<String>, Rc<Value>)>,
) -> bool {
    &&& forall|n: Seq<char>, x: Rc<Value>|
        binds(module, n, x) ==> #[trigger] binds(e, qualified(prefix, n), x)
    &&& forall|n: Seq<char>, x: Rc<Value>|
        (forall|m: Seq<char>| bound(module, m) ==> qualified(prefix, m) != n) ==> (#[trigger] binds(
            e,
            n,
            x,
        ) <==> binds(base, n, x))
}

/// `(open PATH [PREFIX])` with the operands `ops`, from the environment
/// `env` and the store `cells`, ended in `e`: `PATH` gave a string or an
/// identifier, leaving some environment, into which the bindings of the
/// module the host read were merged under `PREFIX`.
pub open spec fn opened(
    ops: Seq<Rc<Value>>,
    env: Seq<(Rc<String>, Rc<Value>)>,
    cells: Seq<Rc<Value>>,
    depth: nat,
    e: Seq<(Rc<String>, Rc<Value>)>,
) -> bool {
    exists|
        pv: Rc<Value>,
        pe: Seq<(Rc<String>, Rc<Value>)>,
        module: Seq<(Rc<String>, Rc<Value>)>,
    |
        #![trigger eval_basic(*ops[0], env, cells, depth, Ok((pv, pe))), merges(pe, module, open_prefix(ops), e)]
        eval_basic(*ops[0], env, cells, depth, Ok((pv, pe))) && (*pv is Str || *pv is Ident) && merges(
            pe,
            module,
            open_prefix(ops),
            e,
        )
}

/// The prefix of `(open PATH PREFIX)`, if it has one.
pub open spec fn open_prefix(ops: Seq<Rc<Value>>) -> Option<Seq<char>> {
    if ops.len() == 2 {
        Some(ident_of(*ops[1]))
    } else {
        None
    }
}

/// A call of the macro value `h` on the operand forms `ops` (unevaluated),
/// from the environment `env` and the store `cells`, ends in `r`: a count
/// the macro does not take, or an expansion that fails, is an error; else
/// the macro's body, run on the forms as [`runs`] says, gives an expansion,
/// which is then evaluated in `env` (from the store the expansion left).
pub open spec fn expands(
    h: Rc<Value>,
    ops: Seq<Rc<Value>>,
    env: Seq<(Rc<String>, Rc<Value>)>,
    cells: Seq<Rc<Value>>,
    depth: nat,
    r: Result<Rc<Value>, RuntimeError>,
) -> bool {
    match *h {
        Value::Macro(m) => {
            ||| (r is Err && (!closure_takes(*m, ops.len()) || runs(*m, ops, h, cells, depth, r)))
            ||| exists|
                x: Rc<Value>,
                cs: Seq<Rc<Value>>,
                be: Seq<(Rc<String>, Rc<Value>)>,
            | #[trigger] expansion_step(*m, h, ops, env, cells, depth, x, cs, be, r)
        },
        _ => false,
    }
}

/// The macro `m` (the value `h`) expanded the forms `ops` into `x`, and
/// `x`, evaluated in `env` from the store `cs`, ended in `r`.
pub open spec fn expansion_step(
    m: Closure,
    h: Rc<Value>,
    ops: Seq<Rc<Value>>,
    env: Seq<(Rc<String>, Rc<Value>)>,
    cells: Seq<Rc<Value>>,
    depth: nat,
    x: Rc<Value>,
    cs: Seq<Rc<Value>>,
    be: Seq<(Rc<String>, Rc<Value>)>,
    r: Result<Rc<Value>, RuntimeError>,
) -> bool {
    &&& closure_takes(m, ops.len())
    &&& runs(m, ops, h, cells, depth, Ok::<Rc<Value>, RuntimeError>(x))
    &&& eval_basic(*x, env, cs, depth, with_env(r, be))
}

/// An application `(head op ...)`, from the environment `env` and the store
/// `cells`, ends in `r`: evaluating `head` fails with that error, or gives a
/// value (see [`head_step`]).
pub open spec fn applies_form(
    head: Rc<Value>,
    ops: Seq<Rc<Value>>,
    env: Seq<(Rc<String>, Rc<Value>)>,
    cells: Seq<Rc<Value>>,
    depth: nat,
    r: Result<Rc<Value>, RuntimeError>,
) -> bool {
    ||| (r matches Err(x) && eval_basic(*head, env, cells, depth, Err(x)))
    ||| exists|h: Rc<Value>, e1: Seq<(Rc<String>, Rc<Value>)>, c1: Seq<Rc<Value>>|
        #[trigger] head_step(head, ops, env, cells, depth, h, e1, c1, r)
}

/// `head` gave `h`, leaving the environment `e1` and the store `c1`; then a
/// closure is called on the operands as [`calls`] says, and a macro
/// expands them as [`expands`] says, both from `e1`.
pub open spec fn head_step(
    head: Rc<Value>,
    ops: Seq<Rc<Value>>,
    env: Seq<(Rc<String>, Rc<Value>)>,
    cells: Seq<Rc<Value>>,
    depth: nat,
    h: Rc<Value>,
    e1: Seq<(Rc<String>, Rc<Value>)>,
    c1: Seq<Rc<Value>>,
    r: Result<Rc<Value>, RuntimeError>,
) -> bool {
    &&& eval_basic(*head, env, cells, depth, Ok((h, e1)))
    &&& *h is Closure ==> calls(h, ops, e1, c1, depth, r)
    &&& *h is Macro ==> expands(h, ops, e1, c1, depth, r)
}

/// `(let! NAME x)` with the operands `ops`, from the environment `env` and
/// the store `cells`, ended in the value `v`, the environment `e` and the
/// store `after`: `x` gave `v`, a new cell holding `v` was added at the end
/// of the store, and `NAME` was bound to a ref to it.
pub open spec fn let_ref_runs(
    ops: Seq<Rc<Value>>,
    env: Seq<(Rc<String>, Rc<Value>)>,
    cells: Seq<Rc<Value>>,
    depth: nat,
    v: Rc<Value>,
    e: Seq<(Rc<String>, Rc<Value>)>,
    after: Seq<Rc<Value>>,
) -> bool {
    exists|ev: Seq<(Rc<String>, Rc<Value>)>, rv: Rc<Value>|
        #![trigger eval_basic(*ops[1], env, cells, depth, Ok((v, ev))), updated(ev, ident_of(*ops[0]), rv, e)]
        eval_basic(*ops[1], env, cells, depth, Ok((v, ev))) && after.len() > 0 && after.last() == v
            && *rv == Value::Ref((after.len() - 1) as usize) && updated(ev, ident_of(*ops[0]), rv, e)
}

/// What the datum `e` gives under quasi-quotation with `depth` left (see
/// [`quasi`](crate::runtime::eval::quasi)): `(unquote x)` the value `x`
/// evaluates to in `env`, an atom itself, an array an array and a map a
/// map.
pub open spec fn quasi_one(
    e: Rc<Value>,
    env: Seq<(Rc<String>, Rc<Value>)>,
    depth: nat,
    v: Rc<Value>,
) -> bool {
    if head_is(*e, KW_UNQUOTE@) {
        &&& operands(*e).len() == 1
        &&& depth > 0
        &&& exists|cs: Seq<Rc<Value>>, eo: Seq<(Rc<String>, Rc<Value>)>|
            #![trigger eval_basic(*operands(*e)[0], env, cs, (depth - 1) as nat, Ok((v, eo)))]
            eval_basic(*operands(*e)[0], env, cs, (depth - 1) as nat, Ok((v, eo)))
    } else if !(*e is Cons) && !(*e is Array) && !(*e is Dict) {
        v == e
    } else if *e is Array {
        *v is Array
    } else if *e is Dict {
        *v is Dict
    } else {
        true
    }
}

/// `out` is what the map entries `m` give under quasi-quotation: each key
/// and each value quasi-quoted (see [`quasi_one`]), the pairs inserted in
/// order.
pub open spec fn quasi_entries(
    m: Seq<(Rc<Value>, Rc<Value>)>,
    env: Seq<(Rc<String>, Rc<Value>)>,
    depth: nat,
    out: Seq<(Rc<Value>, Rc<Value>)>,
) -> bool {
    exists|ps: Seq<(Rc<Value>, Rc<Value>)>|
        #![trigger inserted_pairs(ps)]
        ps.len() == m.len() && out == inserted_pairs(ps) && forall|k: int|
            0 <= k < m.len() ==> #[trigger] quasi_one(m[k].0, env, depth, ps[k].0) && quasi_one(
                m[k].1,
                env,
                depth,
                ps[k].1,
            )
}

/// The key form and the value form of the entry `e`, each evaluated in
/// `env` (from some store), gave the key `k` and the value `v`.
pub open spec fn entry_evals(
    e: (Rc<Value>, Rc<Value>),
    env: Seq<(Rc<String>, Rc<Value>)>,
    depth: nat,
    k: Rc<Value>,
    v: Rc<Value>,
) -> bool {
    &&& exists|cs: Seq<Rc<Value>>, eo: Seq<(Rc<String>, Rc<Value>)>|
        #![trigger eval_basic(*e.0, env, cs, depth, Ok((k, eo)))]
        eval_basic(*e.0, env, cs, depth, Ok((k, eo)))
    &&& exists|cs: Seq<Rc<Value>>, eo: Seq<(Rc<String>, Rc<Value>)>|
        #![trigger eval_basic(*e.1, env, cs, depth, Ok((v, eo)))]
        eval_basic(*e.1, env, cs, depth, Ok((v, eo)))
}

/// `out` is what the map literal with the entries `m` evaluates to in
/// `env`: each key form and value form evaluated (see [`entry_evals`]), the
/// pairs inserted in order.
pub open spec fn entries_eval(
    m: Seq<(Rc<Value>, Rc<Value>)>,
    env: Seq<(Rc<String>, Rc<Value>)>,
    depth: nat,
    out: Seq<(Rc<Value>, Rc<Value>)>,
) -> bool {
    exists|ps: Seq<(Rc<Value>, Rc<Value>)>|
        #![trigger inserted_pairs(ps)]
        ps.len() == m.len() && out == inserted_pairs(ps) && forall|k: int|
            0 <= k < m.len() ==> #[trigger] entry_evals(m[k], env, depth, ps[k].0, ps[k].1)
}

/// What evaluating `form` in `env` (with `cells` the store of ref cells
/// and `depth` left) gives, as far as the form and the environment fix it:
/// - an atom gives itself and leaves the environment;
/// - an identifier gives its binding, or names itself as unknown;
/// - at depth zero any other form stops with the recursion limit;
/// - `(quote x)` gives `x`;
/// - `if` leaves the environment, and over atoms picks the branch by the
///   condition's truth;
/// - `(do)` gives `()`;
/// - `(let NAME atom)` binds `NAME` to the atom, and any `let` binds its name
///   to its value;
/// - `fn` gives a closure: one with a name and a parameter list (and no
///   documentation) is that closure of the body in `env`, bound to its
///   name; one without a name leaves the environment;
/// - arrays and maps, and calls of a closure bound to a name, leave the
///   environment as it was;
/// - `open` takes one or two operands.
pub open spec fn eval_basic(
    form: Value,
    env: Seq<(Rc<String>, Rc<Value>)>,
    cells: Seq<Rc<Value>>,
    depth: nat,
    out: Result<(Rc<Value>, Seq<(Rc<String>, Rc<Value>)>), RuntimeError>,
) -> bool {
    let ops = operands(form);
    &&& self_evaluating(form) ==> (out matches Ok((v, e)) && *v == form && e == env)
    &&& (form is Ident && bound(env, ident_of(form))) ==> (out matches Ok((v, e)) && binds(
        env,
        ident_of(form),
        v,
    ) && e == env)
    &&& (form is Ident && !bound(env, ident_of(form))) ==> (out matches Err(
        RuntimeError::UnknownIdent(m),
    ) && m@ == ident_of(form))
    &&& (depth == 0 && !self_evaluating(form) && !(form is Ident)) ==> (out matches Err(
        RuntimeError::RecursionLimit,
    ))
    &&& (depth > 0 && head_is(form, KW_QUOTE@) && ops.len() == 1) ==> out == Ok::<
        (Rc<Value>, Seq<(Rc<String>, Rc<Value>)>),
        RuntimeError,
    >((ops[0], env))
    &&& (head_is(form, KW_IF@) && out is Ok) ==> out->Ok_0.1 == env
    &&& (depth > 0 && head_is(form, KW_IF@) && ops.len() == 3 && self_evaluating(*ops[0])
        && self_evaluating(*ops[1]) && self_evaluating(*ops[2])) ==> (out matches Ok((v, _)) && v
        == (if truthy_in(*ops[0], cells, cells.len()) {
        ops[1]
    } else {
        ops[2]
    }))
    &&& (depth > 0 && head_is(form, KW_DO@) && ops.len() == 0) ==> (out matches Ok((v, e)) && *v
        == Value::Unit && e == env)
    &&& out matches Ok((v, e)) ==> (head_is(form, KW_LET@) ==> (*ops[0] is Ident && binds(
        e,
        ident_of(*ops[0]),
        v,
    )))
    &&& (depth > 0 && head_is(form, KW_LET@) && ops.len() == 2 && *ops[0] is Ident
        && self_evaluating(*ops[1])) ==> (out matches Ok((v, e)) && v == ops[1] && updated(
        env,
        ident_of(*ops[0]),
        v,
        e,
    ))
    &&& out matches Ok((v, _)) ==> (head_is(form, KW_FN@) ==> *v is Closure)
    &&& (depth > 0 && head_is(form, KW_FN@) && ops.len() == 3 && !head_is(*ops[1], KW_DOC@)
        && *ops[0] is Ident && params_of(*ops[1]) is Some) ==> (out matches Ok((v, e))
        && *v matches Value::Closure(c) && made(*c, ident_of(*ops[0]), *ops[1], ops[2], env)
        && updated(env, ident_of(*ops[0]), v, e))
    &&& (depth > 0 && head_is(form, KW_FN@) && ops.len() == 2 && params_of(*ops[0]) is Some) ==> (
    out matches Ok((v, e)) && *v matches Value::Closure(c) && made(*c, Seq::empty(), *ops[0], ops[1], env)
        && e == env)
    &&& out matches Ok((_, e)) ==> ((depth > 0 && calls_bound_closure(form, env)) ==> e == env)
    &&& ((form is Array || form is Dict) && out is Ok) ==> out->Ok_0.1 == env
    &&& (depth > 0 && head_is(form, KW_OPEN@) && (ops.len() < 1 || ops.len() > 2)) ==> (
    out matches Err(RuntimeError::ArityMismatch { expected, got, .. }) && expected == Arity::Range(
        1,
        2,
    ) && got == ops.len())
}

/// A one-entry map literal whose key form is a bound name and whose value
/// form is an atom evaluates to the one entry of the name's value and the
/// atom: key forms are evaluated, not kept as written.
pub proof fn law_map_literal_evaluates_keys(
    kf: Rc<Value>,
    vf: Rc<Value>,
    env: Seq<(Rc<String>, Rc<Value>)>,
    depth: nat,
    out: Seq<(Rc<Value>, Rc<Value>)>,
)
    requires
        *kf is Ident,
        bound(env, ident_of(*kf)),
        self_evaluating(*vf),
        entries_eval(seq![(kf, vf)], env, depth, out),
    ensures
        out.len() == 1,
        binds(env, ident_of(*kf), out[0].0),
        *out[0].1 == *vf,
{
    let ps = choose|ps: Seq<(Rc<Value>, Rc<Value>)>|
        ps.len() == 1 && out == inserted_pairs(ps) && forall|k: int|
            0 <= k < 1 ==> #[trigger] entry_evals(seq![(kf, vf)][k], env, depth, ps[k].0, ps[k].1);
    assert(entry_evals(seq![(kf, vf)][0], env, depth, ps[0].0, ps[0].1));
    assert(ps.drop_last() =~= Seq::<(Rc<Value>, Rc<Value>)>::empty());
    assert(inserted_pairs(ps.drop_last()) =~= Seq::<(Rc<Value>, Rc<Value>)>::empty());
}

/// Quasi-quoting a one-entry map whose key is an atom and whose value is
/// `(unquote x)`, with `x` an atom, gives the one entry of the key and `x`:
/// unquotes inside maps are evaluated.
pub proof fn law_quasi_map_evaluates_unquote(
    kd: Rc<Value>,
    uq: Rc<Value>,
    env: Seq<(Rc<String>, Rc<Value>)>,
    depth: nat,
    out: Seq<(Rc<Value>, Rc<Value>)>,
)
    requires
        self_evaluating(*kd),
        head_is(*uq, KW_UNQUOTE@),
        operands(*uq).len() == 1,
        self_evaluating(*operands(*uq)[0]),
        quasi_entries(seq![(kd, uq)], env, depth, out),
    ensures
        out.len() == 1,
        *out[0].0 == *kd,
        *out[0].1 == *operands(*uq)[0],
{
    let ps = choose|ps: Seq<(Rc<Value>, Rc<Value>)>|
        ps.len() == 1 && out == inserted_pairs(ps) && forall|k: int|
            0 <= k < 1 ==> #[trigger] quasi_one(seq![(kd, uq)][k].0, env, depth, ps[k].0) && quasi_one(
                seq![(kd, uq)][k].1,
                env,
                depth,
                ps[k].1,
            );
    assert(quasi_one(seq![(kd, uq)][0].0, env, depth, ps[0].0));
    assert(ps.drop_last() =~= Seq::<(Rc<Value>, Rc<Value>)>::empty());
    assert(inserted_pairs(ps.drop_last()) =~= Seq::<(Rc<Value>, Rc<Value>)>::empty());
    assert(*kd is Int || *kd is Unit || *kd is Str || *kd is Float || *kd is Native || *kd is Macro
        || *kd is Ref || *kd is Closure);
    assert(!head_is(*kd, KW_UNQUOTE@));
}


/// `form` is an atom, or a name bound in `env`.
pub open spec fn plain_form(form: Rc<Value>, env: Seq<(Rc<String>, Rc<Value>)>) -> bool {
    self_evaluating(*form) || (*form is Ident && bound(env, ident_of(*form)))
}

/// `v` is what the atom or bound name `form` stands for in `env`: the atom
/// itself, or the name's value.
pub open spec fn plain_value(form: Rc<Value>, env: Seq<(Rc<String>, Rc<Value>)>, v: Rc<Value>) -> bool {
    (self_evaluating(*form) && *v == *form) || (*form is Ident && binds(env, ident_of(*form), v))
}

/// Evaluating an atom or a bound name, from any store and with any depth
/// left, gives what it stands for.
proof fn lemma_plain_eval(
    form: Rc<Value>,
    env: Seq<(Rc<String>, Rc<Value>)>,
    cs: Seq<Rc<Value>>,
    depth: nat,
    v: Rc<Value>,
    eo: Seq<(Rc<String>, Rc<Value>)>,
)
    requires
        plain_form(form, env),
        eval_basic(*form, env, cs, depth, Ok((v, eo))),
    ensures
        plain_value(form, env, v),
{
}

/// A map literal whose key forms and value forms are atoms or bound names
/// evaluates to a map with no more entries than the literal, each entry the
/// values of the key form and the value form of one entry of the literal,
/// and the values of the last entry's forms among them: every key form is
/// evaluated like the value forms, in the environment.
pub proof fn law_map_literal_entries(
    m: Seq<(Rc<Value>, Rc<Value>)>,
    env: Seq<(Rc<String>, Rc<Value>)>,
    depth: nat,
    out: Seq<(Rc<Value>, Rc<Value>)>,
)
    requires
        forall|k: int| 0 <= k < m.len() ==> plain_form(#[trigger] m[k].0, env) && plain_form(m[k].1, env),
        entries_eval(m, env, depth, out),
    ensures
        out.len() <= m.len(),
        forall|j: int|
            #![trigger out[j]]
            0 <= j < out.len() ==> exists|k: int|
                0 <= k < m.len() && plain_value(#[trigger] m[k].0, env, out[j].0) && plain_value(
                    m[k].1,
                    env,
                    out[j].1,
                ),
        m.len() > 0 ==> exists|j: int|
            0 <= j < out.len() && plain_value(m.last().0, env, #[trigger] out[j].0) && plain_value(
                m.last().1,
                env,
                out[j].1,
            ),
{
    let ps = choose|ps: Seq<(Rc<Value>, Rc<Value>)>|
        ps.len() == m.len() && out == inserted_pairs(ps) && forall|k: int|
            0 <= k < m.len() ==> #[trigger] entry_evals(m[k], env, depth, ps[k].0, ps[k].1);
    law_inserted_pairs_origin(ps);
    assert forall|k: int| 0 <= k < m.len() implies plain_value(#[trigger] m[k].0, env, ps[k].0)
        && plain_value(m[k].1, env, ps[k].1) by {
        assert(entry_evals(m[k], env, depth, ps[k].0, ps[k].1));
        let (c1, e1) = choose|cs: Seq<Rc<Value>>, eo: Seq<(Rc<String>, Rc<Value>)>|
            eval_basic(*m[k].0, env, cs, depth, Ok((ps[k].0, eo)));
        lemma_plain_eval(m[k].0, env, c1, depth, ps[k].0, e1);
        let (c2, e2) = choose|cs: Seq<Rc<Value>>, eo: Seq<(Rc<String>, Rc<Value>)>|
            eval_basic(*m[k].1, env, cs, depth, Ok((ps[k].1, eo)));
        lemma_plain_eval(m[k].1, env, c2, depth, ps[k].1, e2);
    }
    assert forall|j: int| #![trigger out[j]] 0 <= j < out.len() implies exists|k: int|
        0 <= k < m.len() && plain_value(#[trigger] m[k].0, env, out[j].0) && plain_value(
            m[k].1,
            env,
            out[j].1,
        ) by {
        let k = choose|k: int| 0 <= k < ps.len() && inserted_pairs(ps)[j] == #[trigger] ps[k];
        assert(plain_value(m[k].0, env, ps[k].0));
    }
    if m.len() > 0 {
        let j = choose|j: int| 0 <= j < out.len() && out[j] == ps.last();
        assert(plain_value(m[m.len() - 1].0, env, ps[m.len() - 1].0));
        assert(plain_value(m.last().0, env, out[j].0));
    }
}


/// `d` is a datum that is not a list, array or map, or `(unquote x)` with
/// `x` an atom or a name bound in `env`.
pub open spec fn plain_datum(d: Rc<Value>, env: Seq<(Rc<String>, Rc<Value>)>) -> bool {
    ||| (!(*d is Cons) && !(*d is Array) && !(*d is Dict))
    ||| (head_is(*d, KW_UNQUOTE@) && operands(*d).len() == 1 && plain_form(operands(*d)[0], env))
}

/// `v` is what the datum `d` (see [`plain_datum`]) gives under
/// quasi-quotation: for `(unquote x)` what `x` stands for, else `d` itself.
pub open spec fn plain_quasi(d: Rc<Value>, env: Seq<(Rc<String>, Rc<Value>)>, v: Rc<Value>) -> bool {
    if head_is(*d, KW_UNQUOTE@) {
        plain_value(operands(*d)[0], env, v)
    } else {
        v == d
    }
}

/// Quasi-quoting a datum that is not a collection, or an unquoted atom or
/// bound name, gives what [`plain_quasi`] says.
proof fn lemma_plain_quasi(d: Rc<Value>, env: Seq<(Rc<String>, Rc<Value>)>, depth: nat, v: Rc<Value>)
    requires
        plain_datum(d, env),
        quasi_one(d, env, depth, v),
    ensures
        plain_quasi(d, env, v),
{
    let dv = copy_of(&*d);
    if head_is(dv, KW_UNQUOTE@) {
        let (cs, eo) = choose|cs: Seq<Rc<Value>>, eo: Seq<(Rc<String>, Rc<Value>)>|
            #![trigger eval_basic(*operands(dv)[0], env, cs, (depth - 1) as nat, Ok((v, eo)))]
            eval_basic(*operands(dv)[0], env, cs, (depth - 1) as nat, Ok((v, eo)));
        lemma_plain_eval(operands(dv)[0], env, cs, (depth - 1) as nat, v, eo);
    }
}

/// Quasi-quoting a map whose keys and values are atoms or unquoted atoms
/// and names gives a map with no more entries than the datum, each entry
/// the quasi-quotations of the key and the value of one entry of the datum,
/// and those of the last entry among them: every `(unquote x)` in a key or
/// a value is replaced by what `x` stands for, the rest kept as written.
pub proof fn law_quasi_map_entries(
    m: Seq<(Rc<Value>, Rc<Value>)>,
    env: Seq<(Rc<String>, Rc<Value>)>,
    depth: nat,
    out: Seq<(Rc<Value>, Rc<Value>)>,
)
    requires
        forall|k: int| 0 <= k < m.len() ==> plain_datum(#[trigger] m[k].0, env) && plain_datum(m[k].1, env),
        quasi_entries(m, env, depth, out),
    ensures
        out.len() <= m.len(),
        forall|j: int|
            #![trigger out[j]]
            0 <= j < out.len() ==> exists|k: int|
                0 <= k < m.len() && plain_quasi(#[trigger] m[k].0, env, out[j].0) && plain_quasi(
                    m[k].1,
                    env,
                    out[j].1,
                ),
        m.len() > 0 ==> exists|j: int|
            0 <= j < out.len() && plain_quasi(m.last().0, env, #[trigger] out[j].0) && plain_quasi(
                m.last().1,
                env,
                out[j].1,
            ),
{
    let ps = choose|ps: Seq<(Rc<Value>, Rc<Value>)>|
        ps.len() == m.len() && out == inserted_pairs(ps) && forall|k: int|
            0 <= k < m.len() ==> #[trigger] quasi_one(m[k].0, env, depth, ps[k].0) && quasi_one(
                m[k].1,
                env,
                depth,
                ps[k].1,
            );
    law_inserted_pairs_origin(ps);
    assert forall|k: int| 0 <= k < m.len() implies plain_quasi(#[trigger] m[k].0, env, ps[k].0)
        && plain_quasi(m[k].1, env, ps[k].1) by {
        assert(quasi_one(m[k].0, env, depth, ps[k].0));
        lemma_plain_quasi(m[k].0, env, depth, ps[k].0);
        lemma_plain_quasi(m[k].1, env, depth, ps[k].1);
    }
    assert forall|j: int| #![trigger out[j]] 0 <= j < out.len() implies exists|k: int|
        0 <= k < m.len() && plain_quasi(#[trigger] m[k].0, env, out[j].0) && plain_quasi(
            m[k].1,
            env,
            out[j].1,
        ) by {
        let k = choose|k: int| 0 <= k < ps.len() && inserted_pairs(ps)[j] == #[trigger] ps[k];
        assert(plain_quasi(m[k].0, env, ps[k].0));
    }
    if m.len() > 0 {
        let j = choose|j: int| 0 <= j < out.len() && out[j] == ps.last();
        assert(plain_quasi(m[m.len() - 1].0, env, ps[m.len() - 1].0));
        assert(plain_quasi(m.last().0, env, out[j].0));
    }
}

} // verus!
