//! Running programs: forms read by the parser become runtime values, and
//! top-level forms are evaluated in order.

use crate::parser::grammar::{Failure, parse_program_from};
use crate::parser::{Atomic, Collection, ParseError, Parser, Sexp};
use crate::parser::sexp::views;
use crate::runtime::eval::{eval, items, list_from};
use crate::runtime::semantics::{eval_basic, outcome};
use crate::runtime::value::{Cells, Env, Natives, RuntimeError, Value, share};
use std::rc::Rc;
use vstd::prelude::*;
use vstd::string::StringExecFns;

verus! {

/// Any failure of running a program: reading it or evaluating it.
#[derive(Debug)]
pub enum RizzError {
    ParseError(ParseError),
    RuntimeError(RuntimeError),
}

/// How many cons cells the spine of `s` has.
pub open spec fn spine(s: Sexp) -> nat
    decreases s,
{
    match s {
        Sexp::Exp { tail, .. } => 1 + spine(*tail),
        _ => 0,
    }
}

/// `v` is what the form `s` reads as, nesting no deeper than `fuel`: an
/// atom the matching value (a float literal some float, the host's nearest
/// one), a list a cons chain whose spine spends one unit of `fuel` for all
/// its elements, an array or map its elements' values in order.
pub open spec fn reads_as(s: Sexp, v: Value, fuel: nat) -> bool
    decreases fuel, s, 0nat,
{
    if fuel == 0 {
        false
    } else {
        match s {
            Sexp::Unit => v == Value::Unit,
            Sexp::Atom(Atomic::Int(n)) => v == Value::Int(n),
            Sexp::Atom(Atomic::Str(t)) => v matches Value::Str(u) && u@ == t@,
            Sexp::Atom(Atomic::Ident(n)) => v matches Value::Ident(m) && m@ == n@,
            Sexp::Atom(Atomic::Float(_)) => v is Float,
            Sexp::Exp { .. } => reads_as_spine(s, v, (fuel - 1) as nat),
            Sexp::Collection(Collection::Array(xs)) => v matches Value::Array(ys) && reads_all(
                xs@,
                ys@,
                (fuel - 1) as nat,
            ),
            Sexp::Collection(Collection::Dict(es)) => v matches Value::Dict(ps) && reads_entries(
                es@,
                ps@,
                (fuel - 1) as nat,
            ),
        }
    }
}

/// `ys` are what the forms `xs` read as, one for one (see [`reads_as`]).
pub open spec fn reads_all(xs: Seq<Rc<Sexp>>, ys: Seq<Rc<Value>>, fuel: nat) -> bool
    decreases fuel, xs, 0nat,
{
    if xs.len() == 0 {
        ys.len() == 0
    } else {
        ys.len() == xs.len() && reads_all(xs.drop_last(), ys.drop_last(), fuel) && reads_as(
            *xs.last(),
            *ys.last(),
            fuel,
        )
    }
}

/// `ps` are what the entries `es` read as, key and value, one for one.
pub open spec fn reads_entries(
    es: Seq<(Rc<Sexp>, Rc<Sexp>)>,
    ps: Seq<(Rc<Value>, Rc<Value>)>,
    fuel: nat,
) -> bool
    decreases fuel, es, 0nat,
{
    if es.len() == 0 {
        ps.len() == 0
    } else {
        ps.len() == es.len() && reads_entries(es.drop_last(), ps.drop_last(), fuel) && reads_as(
            *es.last().0,
            *ps.last().0,
            fuel,
        ) && reads_as(*es.last().1, *ps.last().1, fuel)
    }
}

/// The cons chain `v` reads the spine of `s`: each element, and the final
/// tail, as [`reads_as`] says with `fuel`.
pub open spec fn reads_as_spine(s: Sexp, v: Value, fuel: nat) -> bool
    decreases fuel, s, 1nat,
{
    match s {
        Sexp::Exp { head, tail } => v matches Value::Cons { head: h, tail: t } && reads_as(
            *head,
            *h,
            fuel,
        ) && reads_as_spine(*tail, *t, fuel),
        _ => reads_as(s, v, fuel),
    }
}

/// The value behind the reference `x`.
pub open spec fn copy_of<T>(x: &T) -> T {
    *x
}

/// `s` is a spine whose first elements are `hs`, followed by the rest `t`.
pub open spec fn spine_of(s: Sexp, hs: Seq<Rc<Sexp>>, t: Sexp) -> bool
    decreases hs.len(),
{
    if hs.len() == 0 {
        s == t
    } else {
        s matches Sexp::Exp { head, tail } && head == hs[0] && spine_of(*tail, hs.skip(1), t)
    }
}

/// Walking one more cell of a spine.
proof fn lemma_spine_extend(s: &Sexp, hs: Seq<Rc<Sexp>>, c: Sexp, h: Rc<Sexp>, t: Rc<Sexp>)
    requires
        spine_of(*s, hs, c),
        c == (Sexp::Exp { head: h, tail: t }),
    ensures
        spine_of(*s, hs.push(h), *t),
    decreases hs.len(),
{
    if hs.len() == 0 {
        assert(hs.push(h).skip(1) =~= Seq::<Rc<Sexp>>::empty());
        assert(spine_of(*t, Seq::<Rc<Sexp>>::empty(), *t));
        assert(*s == c);
    } else {
        match s {
            Sexp::Exp { head, tail } => {
                lemma_spine_extend(&**tail, hs.skip(1), c, h, t);
                assert(hs.push(h).skip(1) =~= hs.skip(1).push(h));
            },
            _ => {},
        }
    }
}

/// The cell of a spine before its rest `x`.
proof fn lemma_spine_split(s: &Sexp, hs: Seq<Rc<Sexp>>, x: Sexp) -> (x2: Sexp)
    requires
        hs.len() > 0,
        spine_of(*s, hs, x),
    ensures
        spine_of(*s, hs.drop_last(), x2),
        x2 matches Sexp::Exp { head, tail } && head == hs.last() && *tail == x,
    decreases hs.len(),
{
    match s {
        Sexp::Exp { head, tail } => {
            if hs.len() == 1 {
                assert(hs.drop_last() =~= Seq::<Rc<Sexp>>::empty());
                assert(hs.skip(1) =~= Seq::<Rc<Sexp>>::empty());
                assert(spine_of(**tail, hs.skip(1), x));
                assert(**tail == x);
                assert(spine_of(*s, hs.drop_last(), *s));
                *s
            } else {
                let x2 = lemma_spine_split(&**tail, hs.skip(1), x);
                assert(hs.skip(1).drop_last() =~= hs.drop_last().skip(1));
                assert(hs.skip(1).last() == hs.last());
                x2
            }
        },
        _ => *s,
    }
}

/// The runtime value of the form `s`: atoms become the matching values
/// (a float literal the nearest float, by the host), lists cons chains,
/// arrays and maps their values element by element. Each level of nesting
/// spends one unit of `depth`.
#[verifier::loop_isolation(false)]
pub fn from_sexp<N: Natives>(natives: &N, s: &Sexp, depth: usize) -> (r: Result<Rc<Value>, RuntimeError>)
    ensures
        r matches Ok(v) ==> reads_as(*s, *v, depth as nat),
        r matches Err(x) ==> x is RecursionLimit,
        depth > 0 && (*s is Atom || *s is Unit) ==> r is Ok,
        depth > 0 ==> (s matches Sexp::Atom(Atomic::Int(n)) ==> (r matches Ok(v) && *v == Value::Int(*n))),
        depth > 0 ==> (*s == Sexp::Unit ==> (r matches Ok(v) && *v == Value::Unit)),
        depth == 0 ==> r matches Err(RuntimeError::RecursionLimit),
    decreases depth,
{
    if depth == 0 {
        return Err(RuntimeError::RecursionLimit);
    }
    let d = depth - 1;
    match s {
        Sexp::Unit => Ok(Rc::new(Value::Unit)),
        Sexp::Atom(a) => {
            let v = Rc::new(
                match a {
                    Atomic::Int(n) => Value::Int(*n),
                    Atomic::Str(t) => Value::Str(Rc::new(String::from_str(t.as_str()))),
                    Atomic::Ident(n) => Value::Ident(share(n)),
                    Atomic::Float(f) => Value::Float(natives.float_bits(f)),
                },
            );
            proof {
                assert(reads_as(*s, *v, depth as nat));
            }
            Ok(v)
        },
        Sexp::Exp { head, tail } => {
            let mut heads: Vec<Rc<Value>> = Vec::new();
            heads.push(from_sexp(natives, &**head, d)?);
            let ghost mut shs: Seq<Rc<Sexp>> = seq![copy_of(head)];
            let mut cur: Rc<Sexp> = share(tail);
            proof {
                assert(spine_of(*cur, shs.skip(1), *cur));
                assert(shs.skip(1) =~= Seq::<Rc<Sexp>>::empty());
                assert(spine_of(*s, shs, *cur));
            }
            loop
                invariant
                    d < depth,
                    d == depth - 1,
                    spine_of(*s, shs, *cur),
                    heads@.len() == shs.len(),
                    shs.len() > 0,
                    forall|i: int| 0 <= i < shs.len() ==> #[trigger] reads_as(*shs[i], *heads@[i], d as nat),
                decreases spine(*cur),
            {
                let next: Option<Rc<Sexp>> = match &*cur {
                    Sexp::Exp { head: h, tail: t } => {
                        heads.push(from_sexp(natives, &**h, d)?);
                        proof {
                            lemma_spine_extend(s, shs, copy_of(&*cur), copy_of(h), copy_of(t));
                            shs = shs.push(copy_of(h));
                        }
                        Some(share(t))
                    },
                    _ => None,
                };
                match next {
                    Some(t) => {
                        cur = t;
                    },
                    None => {
                        break;
                    },
                }
            }
            let mut acc = from_sexp(natives, &*cur, d)?;
            let ghost mut x: Sexp = copy_of(&*cur);
            proof {
                assert(shs.take(heads@.len() as int) =~= shs);
                assert(reads_as_spine(x, *acc, d as nat));
            }
            while heads.len() > 0
                invariant
                    d == depth - 1,
                    heads@.len() <= shs.len(),
                    spine_of(*s, shs.take(heads@.len() as int), x),
                    reads_as_spine(x, *acc, d as nat),
                    forall|i: int| 0 <= i < heads@.len() ==> #[trigger] reads_as(*shs[i], *heads@[i], d as nat),
                decreases heads@.len(),
            {
                let ghost j = heads@.len() as int;
                let ghost hs0 = heads@;
                let h = heads.pop().unwrap();
                proof {
                    assert(h == hs0[j - 1]);
                    assert(shs.take(j).drop_last() =~= shs.take(j - 1));
                    let x2 = lemma_spine_split(s, shs.take(j), x);
                    assert(shs.take(j).last() == shs[j - 1]);
                    assert(reads_as(*shs[j - 1], *h, d as nat));
                    x = x2;
                }
                acc = Rc::new(Value::Cons { head: h, tail: acc });
            }
            proof {
                assert(shs.take(0) =~= Seq::<Rc<Sexp>>::empty());
                assert(x == *s);
                assert(reads_as_spine(*s, *acc, d as nat));
                assert(reads_as(*s, *acc, depth as nat));
            }
            Ok(acc)
        },
        Sexp::Collection(Collection::Array(xs)) => {
            let mut out: Vec<Rc<Value>> = Vec::new();
            let mut k: usize = 0;
            while k < xs.len()
                invariant
                    k <= xs@.len(),
                    d < depth,
                    d == depth - 1,
                    out@.len() == k,
                    reads_all(xs@.take(k as int), out@, d as nat),
                decreases xs@.len() - k,
            {
                let ghost before = out@;
                out.push(from_sexp(natives, &*xs[k], d)?);
                proof {
                    assert(xs@.take(k as int + 1).drop_last() =~= xs@.take(k as int));
                    assert(out@.drop_last() =~= before);
                }
                k = k + 1;
            }
            proof {
                assert(xs@.take(k as int) =~= xs@);
            }
            let ghost o = out@;
            let v = Rc::new(Value::Array(out));
            proof {
                assert(reads_as(*s, *v, depth as nat));
            }
            Ok(v)
        },
        Sexp::Collection(Collection::Dict(es)) => {
            let mut out: Vec<(Rc<Value>, Rc<Value>)> = Vec::new();
            let mut k: usize = 0;
            while k < es.len()
                invariant
                    k <= es@.len(),
                    d < depth,
                    d == depth - 1,
                    out@.len() == k,
                    reads_entries(es@.take(k as int), out@, d as nat),
                decreases es@.len() - k,
            {
                let key = from_sexp(natives, &*es[k].0, d)?;
                let value = from_sexp(natives, &*es[k].1, d)?;
                let ghost before = out@;
                out.push((key, value));
                proof {
                    assert(es@.take(k as int + 1).drop_last() =~= es@.take(k as int));
                    assert(out@.drop_last() =~= before);
                }
                k = k + 1;
            }
            proof {
                assert(es@.take(k as int) =~= es@);
            }
            let v = Rc::new(Value::Dict(out));
            proof {
                assert(reads_as(*s, *v, depth as nat));
            }
            Ok(v)
        },
    }
}

/// The forms `forms`, each read (as [`reads_as`] says with `depth`) into a
/// value of `vs` and evaluated, in turn, the first in `envs[0]` with the
/// store `stores[0]` and each next one in what the one before left, give
/// `vals` and then `r`: the last value (`()` for no forms) and the last
/// environment, or the error of the first form that could not be read (at
/// the recursion limit) or evaluated.
pub open spec fn ran_forms(
    forms: Seq<Sexp>,
    vs: Seq<Rc<Value>>,
    envs: Seq<Seq<(Rc<String>, Rc<Value>)>>,
    stores: Seq<Seq<Rc<Value>>>,
    vals: Seq<Rc<Value>>,
    depth: nat,
    r: Result<(Rc<Value>, Seq<(Rc<String>, Rc<Value>)>), RuntimeError>,
) -> bool {
    let n = vals.len() as int;
    &&& envs.len() == n + 1
    &&& stores.len() == n + 1
    &&& vs.len() == n
    &&& n <= forms.len()
    &&& forall|i: int|
        #![trigger vs[i]]
        0 <= i < n ==> reads_as(forms[i], *vs[i], depth) && eval_basic(
            *vs[i],
            envs[i],
            stores[i],
            depth,
            Ok((vals[i], envs[i + 1])),
        )
    &&& match r {
        Ok((v, e)) => n == forms.len() && e == envs[n] && (if n == 0 {
            *v == Value::Unit
        } else {
            v == vals[n - 1]
        }),
        Err(x) => n < forms.len() && (x is RecursionLimit || exists|w: Rc<Value>|
            #![trigger eval_basic(*w, envs[n], stores[n], depth, Err(x))]
            reads_as(forms[n], *w, depth) && eval_basic(*w, envs[n], stores[n], depth, Err(x))),
    }
}

/// The forms `forms` read and evaluated in turn from the environment `env`
/// and the store `cells` end in `r` (see [`ran_forms`]).
pub open spec fn runs_forms(
    forms: Seq<Sexp>,
    env: Seq<(Rc<String>, Rc<Value>)>,
    cells: Seq<Rc<Value>>,
    depth: nat,
    r: Result<(Rc<Value>, Seq<(Rc<String>, Rc<Value>)>), RuntimeError>,
) -> bool {
    exists|
        vs: Seq<Rc<Value>>,
        envs: Seq<Seq<(Rc<String>, Rc<Value>)>>,
        stores: Seq<Seq<Rc<Value>>>,
        vals: Seq<Rc<Value>>,
    |
        #![trigger ran_forms(forms, vs, envs, stores, vals, depth, r)]
        envs[0] == env && stores[0] == cells && ran_forms(forms, vs, envs, stores, vals, depth, r)
}

/// What running a program that was read gave, without the environment's
/// wrapper; a parse error (which a program that was read cannot give)
/// maps to the recursion limit.
pub open spec fn run_result(r: Result<(Rc<Value>, Env), RizzError>) -> Result<
    (Rc<Value>, Seq<(Rc<String>, Rc<Value>)>),
    RuntimeError,
> {
    match r {
        Ok((v, e)) => Ok((v, e@)),
        Err(RizzError::RuntimeError(x)) => Err(x),
        Err(RizzError::ParseError(_)) => Err(RuntimeError::RecursionLimit),
    }
}

/// Evaluates `forms` in order, threading the environment from each to the
/// next, and returns the last value (`()` when there are none) with the
/// environment they leave.
#[verifier::loop_isolation(false)]
pub fn eval_forms<N: Natives>(natives: &mut N,
    cells: &mut Cells, forms: &Vec<Sexp>, env: &Env, depth: usize) -> (r: Result<
    (Rc<Value>, Env),
    RuntimeError,
>)
    ensures
        forms@.len() == 0 ==> (r matches Ok((v, e)) && *v == Value::Unit && e@ == env@),
        runs_forms(forms@, env@, old(cells)@, depth as nat, outcome(r)),
{
    let mut cur = env.duplicate();
    let mut last = Rc::new(Value::Unit);
    let mut k: usize = 0;
    let ghost mut vs: Seq<Rc<Value>> = Seq::empty();
    let ghost mut envs: Seq<Seq<(Rc<String>, Rc<Value>)>> = seq![env@];
    let ghost mut stores: Seq<Seq<Rc<Value>>> = seq![cells@];
    let ghost mut vals: Seq<Rc<Value>> = Seq::empty();
    while k < forms.len()
        invariant
            k <= forms@.len(),
            forms@.len() == 0 ==> (*last == Value::Unit && cur@ == env@),
            vals.len() == k,
            vs.len() == k,
            envs.len() == k + 1,
            stores.len() == k + 1,
            envs[0] == env@,
            stores[0] == old(cells)@,
            envs[k as int] == cur@,
            stores[k as int] == cells@,
            k == 0 ==> *last == Value::Unit,
            k > 0 ==> last == vals[k - 1],
            forall|i: int|
                #![trigger vs[i]]
                0 <= i < k ==> reads_as(forms@[i], *vs[i], depth as nat) && eval_basic(
                    *vs[i],
                    envs[i],
                    stores[i],
                    depth as nat,
                    Ok((vals[i], envs[i + 1])),
                ),
        decreases forms@.len() - k,
    {
        let form = match from_sexp(natives, &forms[k], depth) {
            Ok(f) => f,
            Err(x) => {
                let r: Result<(Rc<Value>, Env), RuntimeError> = Err(x);
                proof {
                    assert(outcome(r) == Err::<(Rc<Value>, Seq<(Rc<String>, Rc<Value>)>), RuntimeError>(x));
                    assert(ran_forms(forms@, vs, envs, stores, vals, depth as nat, outcome(r)));
                }
                return r;
            },
        };
        let ghost before = cells@;
        let r0 = eval(natives, cells, share(&form), &cur, depth);
        match r0 {
            Ok((v, e)) => {
                proof {
                    vs = vs.push(form);
                    envs = envs.push(e@);
                    stores = stores.push(cells@);
                    vals = vals.push(v);
                }
                last = v;
                cur = e;
                k = k + 1;
            },
            Err(x) => {
                let r: Result<(Rc<Value>, Env), RuntimeError> = Err(x);
                proof {
                    assert(outcome(r0) == Err::<(Rc<Value>, Seq<(Rc<String>, Rc<Value>)>), RuntimeError>(x));
                    assert(outcome(r) == Err::<(Rc<Value>, Seq<(Rc<String>, Rc<Value>)>), RuntimeError>(x));
                    assert(eval_basic(*form, envs[k as int], stores[k as int], depth as nat, Err(x)));
                    assert(ran_forms(forms@, vs, envs, stores, vals, depth as nat, outcome(r)));
                }
                return r;
            },
        }
    }
    let r: Result<(Rc<Value>, Env), RuntimeError> = Ok((last, cur));
    proof {
        assert(ran_forms(forms@, vs, envs, stores, vals, depth as nat, outcome(r)));
    }
    r
}

/// Reads the program `src` and evaluates its forms in `env`: the last
/// value and the environment the program leaves, or the parse or runtime
/// error. The program must not put a `]`, `}` or `:` where a form should
/// begin (see [`Parser::try_parse`]).
pub fn parse_and_run_with_env<N: Natives>(natives: &mut N,
    cells: &mut Cells, src: &[u8], env: &Env, depth: usize) -> (r:
    Result<(Rc<Value>, Env), RizzError>)
    requires
        src@.len() < usize::MAX,
        !(parse_program_from(src@, 0, 0) matches Err(Failure::StrayDelimiter)),
    ensures
        parse_program_from(src@, 0, 0) matches Err(Failure::Error(e)) ==> (r matches Err(
            RizzError::ParseError(pe),
        ) && pe@ == e),
        parse_program_from(src@, 0, 0) matches Ok(fs) ==> (!(r matches Err(RizzError::ParseError(_)))
            && exists|forms: Seq<Sexp>|
            #![trigger views(forms)]
            views(forms) == fs && runs_forms(forms, env@, old(cells)@, depth as nat, run_result(r))),
{
    let mut parser = Parser::new(src);
    let forms = match parser.parse() {
        Ok(forms) => forms,
        Err(e) => {
            return Err(RizzError::ParseError(e));
        },
    };
    let r1 = eval_forms(natives, cells, &forms, env, depth);
    let r = match r1 {
        Ok(r) => Ok(r),
        Err(e) => Err(RizzError::RuntimeError(e)),
    };
    proof {
        assert(run_result(r) == outcome(r1));
        assert(views(forms@) == views(forms@));
    }
    r
}

} // verus!
