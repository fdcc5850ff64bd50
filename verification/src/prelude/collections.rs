//! The collection builtins: index arithmetic, lookup, and the
//! higher-order `fmap`, `fmapi` and `filter`.

use crate::runtime::error::Arity;
use crate::runtime::eval::{
    apply, is_truthy, items, keyable, law_same_reflexive, list_from, list_items, same, same_value, truthy_in, type_mismatch,
};
use crate::prelude::builtins::{core_at, core_gives};
use crate::runtime::run::copy_of;
use crate::runtime::semantics::{callback_for, gives, lemma_select_extend, runs, select};
use crate::runtime::value::{Cells, Env, Natives, RuntimeError, Value, share, text};
use std::rc::Rc;
use vstd::prelude::*;
use vstd::string::StringExecFns;

verus! {

/// `x` held within `[lo, hi]`.
pub open spec fn clamp(x: int, lo: int, hi: int) -> int {
    if x < lo {
        lo
    } else if x > hi {
        hi
    } else {
        x
    }
}

/// Clamps `[start, end)` to valid indices in `[0, len]`: the start is
/// `start` held within `[0, len]`, and the end is `end` held within
/// `[0, len]` but never before the start, so `s <= e <= len`.
pub fn clamp_range(start: i64, end: i64, len: usize) -> (r: (usize, usize))
    requires
        len <= i64::MAX,
    ensures
        r.0 == clamp(start as int, 0, len as int),
        r.1 == if clamp(end as int, 0, len as int) < r.0 {
            r.0 as int
        } else {
            clamp(end as int, 0, len as int)
        },
        r.0 <= r.1 <= len,
{
    let len = len as i64;
    let s = if start < 0 {
        0
    } else if start > len {
        len
    } else {
        start
    };
    let e = if end < 0 {
        0
    } else if end > len {
        len
    } else {
        end
    };
    let s = s as usize;
    let e = e as usize;
    if e < s {
        (s, s)
    } else {
        (s, e)
    }
}

/// Whether `v` is a cons list (the empty list `()` among them).
pub open spec fn is_list(v: Value) -> bool {
    v is Cons || v is Unit
}

/// The element of `xs` at the int `key`, or `()` when the key is not an
/// index of `xs`.
pub open spec fn element_at(xs: Seq<Rc<Value>>, key: i64) -> Value {
    if 0 <= key < xs.len() {
        *xs[key as int]
    } else {
        Value::Unit
    }
}

/// The index of the first of the first `n` entries of `m` whose key is
/// the same as `key`.
pub open spec fn first_same(m: Seq<(Rc<Value>, Rc<Value>)>, key: Value, n: nat) -> Option<int>
    decreases n,
{
    if n == 0 || n > m.len() {
        None
    } else {
        match first_same(m, key, (n - 1) as nat) {
            Some(i) => Some(i),
            None => if same(*m[n - 1].0, key) {
                Some(n - 1)
            } else {
                None
            },
        }
    }
}

/// `first_same` finds the first of the first `n` entries whose key is the
/// same as `key`, or none when there is none.
pub proof fn law_first_same_is_first(m: Seq<(Rc<Value>, Rc<Value>)>, key: Value, n: nat)
    requires
        n <= m.len(),
    ensures
        match first_same(m, key, n) {
            Some(i) => 0 <= i < n && same(*m[i].0, key) && forall|j: int|
                0 <= j < i ==> !#[trigger] same(*m[j].0, key),
            None => forall|j: int| 0 <= j < n ==> !#[trigger] same(*m[j].0, key),
        },
    decreases n,
{
    if n > 0 {
        law_first_same_is_first(m, key, (n - 1) as nat);
    }
}

/// A map holding an entry whose key is `k` itself (a key without functions
/// or maps in it) has `get` find an entry for `k`: the first whose key is
/// the same as `k`, at or before that entry.
pub proof fn law_get_finds_own_key(m: Seq<(Rc<Value>, Rc<Value>)>, i: int)
    requires
        0 <= i < m.len(),
        keyable(*m[i].0),
    ensures
        first_same(m, *m[i].0, m.len()) matches Some(j) && j <= i && same(*m[j].0, *m[i].0),
{
    law_same_reflexive(copy_of(&*m[i].0));
    law_first_same_is_first(m, copy_of(&*m[i].0), m.len());
}

/// Once found among the first `a` entries, the first same key stays the
/// first among more.
pub(crate) proof fn lemma_first_same_stays(m: Seq<(Rc<Value>, Rc<Value>)>, key: Value, a: nat, b: nat)
    requires
        a <= b <= m.len(),
        first_same(m, key, a) is Some,
    ensures
        first_same(m, key, b) == first_same(m, key, a),
    decreases b - a,
{
    if a < b {
        lemma_first_same_stays(m, key, a, (b - 1) as nat);
    }
}

/// The one-character string of character `i` of `s`.
fn char_at(s: &str, i: usize) -> (r: Rc<Value>)
    requires
        i < s@.len(),
        i < usize::MAX,
    ensures
        *r matches Value::Str(t) && t@ == seq![s@[i as int]],
{
    let piece = s.substring_char(i, i + 1);
    proof {
        assert(piece@ =~= seq![s@[i as int]]);
    }
    Rc::new(Value::Str(Rc::new(String::from_str(piece))))
}

/// `(get coll key)`: the map value at `key`, the array or list element at
/// int index `key`, or the one-character string at int index `key` of a
/// string. A miss or an index out of range gives `()`.
#[verifier::loop_isolation(false)]
pub fn get(coll: &Value, key: &Value) -> (r: Result<Rc<Value>, RuntimeError>)
    ensures
        coll matches Value::Array(xs) ==> (match key {
            Value::Int(i) => r matches Ok(v) && *v == element_at(xs@, *i),
            _ => r matches Err(RuntimeError::TypeMismatch { .. }),
        }),
        is_list(*coll) ==> (match key {
            Value::Int(i) => r matches Ok(v) && *v == element_at(items(*coll), *i),
            _ => r matches Err(RuntimeError::TypeMismatch { .. }),
        }),
        coll matches Value::Str(s) ==> (match key {
            Value::Int(i) => r matches Ok(v) && (if 0 <= *i < s@.len() {
                *v matches Value::Str(t) && t@ == seq![s@[*i as int]]
            } else {
                *v == Value::Unit
            }),
            _ => r matches Err(RuntimeError::TypeMismatch { .. }),
        }),
        coll matches Value::Dict(m) ==> (r matches Ok(v) && match first_same(m@, *key, m@.len()) {
            Some(i) => v == m@[i].1,
            None => *v == Value::Unit,
        }),
        coll matches Value::Dict(m) ==> forall|i: int|
            0 <= i < m@.len() && #[trigger] same(*m@[i].0, *key) && (forall|j: int|
                0 <= j < i ==> !same(*m@[j].0, *key)) ==> r == Ok::<Rc<Value>, RuntimeError>(m@[i].1),
        coll matches Value::Dict(m) ==> ((forall|i: int| 0 <= i < m@.len() ==> !#[trigger] same(*m@[i].0, *key))
            ==> (r matches Ok(v) && *v == Value::Unit)),
        !(coll is Array) && !(coll is Str) && !(coll is Dict) && !is_list(*coll) ==> r matches Err(
            RuntimeError::TypeMismatch { .. },
        ),
{
    match coll {
        Value::Dict(m) => {
            let mut k: usize = 0;
            while k < m.len()
                invariant
                    k <= m@.len(),
                    first_same(m@, *key, k as nat) is None,
                decreases m@.len() - k,
            {
                if same_value(&*m[k].0, key) {
                    proof {
                        assert(first_same(m@, *key, (k + 1) as nat) == Some(k as int));
                        lemma_first_same_stays(m@, *key, (k + 1) as nat, m@.len());
                        law_first_same_is_first(m@, copy_of(key), m@.len());
                    }
                    return Ok(share(&m[k].1));
                }
                k = k + 1;
            }
            proof {
                law_first_same_is_first(m@, copy_of(key), m@.len());
            }
            Ok(Rc::new(Value::Unit))
        },
        Value::Array(xs) => {
            let i = match key {
                Value::Int(i) => *i,
                other => {
                    return Err(type_mismatch("get", "int index", other));
                },
            };
            if 0 <= i && (i as u64) < (xs.len() as u64) {
                Ok(share(&xs[i as usize]))
            } else {
                Ok(Rc::new(Value::Unit))
            }
        },
        Value::Str(s) => {
            let i = match key {
                Value::Int(i) => *i,
                other => {
                    return Err(type_mismatch("get", "int index", other));
                },
            };
            let n = s.as_str().unicode_len();
            if 0 <= i && (i as u64) < (n as u64) {
                Ok(char_at(s.as_str(), i as usize))
            } else {
                Ok(Rc::new(Value::Unit))
            }
        },
        Value::Cons { .. } | Value::Unit => {
            let i = match key {
                Value::Int(i) => *i,
                other => {
                    return Err(type_mismatch("get", "int index", other));
                },
            };
            let rc = match coll {
                Value::Cons { head, tail } => Rc::new(Value::Cons { head: share(head), tail: share(tail) }),
                _ => Rc::new(Value::Unit),
            };
            let xs = list_items(&rc);
            if 0 <= i && (i as u64) < (xs.len() as u64) {
                Ok(share(&xs[i as usize]))
            } else {
                Ok(Rc::new(Value::Unit))
            }
        },
        other => Err(type_mismatch("get", "map/array/str/list", other)),
    }
}

/// `f`, called on the one-character string of `c` at index `j` (and on `j`
/// first when `indexed`), can give the string `y`.
pub open spec fn char_mapped(f: Rc<Value>, j: int, c: char, indexed: bool, depth: nat, y: Rc<Value>) -> bool {
    &&& *y is Str
    &&& exists|x: Rc<Value>| #![trigger mapped(f, j, x, indexed, depth, y)]
        (*x matches Value::Str(t) && t@ == seq![c]) && mapped(f, j, x, indexed, depth, y)
}

/// `f`, called on the key and value of the entry `e` at index `j` (and on
/// `j` first when `indexed`), can give the `[key value]` array `y`.
pub open spec fn entry_mapped(
    f: Rc<Value>,
    j: int,
    e: (Rc<Value>, Rc<Value>),
    indexed: bool,
    depth: nat,
    y: Rc<Value>,
) -> bool {
    &&& *y is Array
    &&& (*y)->Array_0@.len() == 2
    &&& exists|a: Seq<Rc<Value>>| #![trigger gives(f, a, depth, y), callback_for(a, j, entry_args(e), indexed)]
        callback_for(a, j, entry_args(e), indexed) && gives(f, a, depth, y)
}

/// The entries `es` with `key` bound to `value`: the entry of the first key
/// that is the same value replaced, or else a new entry at the end.
pub open spec fn insert_entry(es: Seq<(Rc<Value>, Rc<Value>)>, key: Rc<Value>, value: Rc<Value>) -> Seq<
    (Rc<Value>, Rc<Value>),
> {
    match first_same(es, *key, es.len()) {
        Some(i) => es.update(i, (key, value)),
        None => es.push((key, value)),
    }
}

/// The map made by inserting, in order, each key and value of `ps`.
pub open spec fn inserted_pairs(ps: Seq<(Rc<Value>, Rc<Value>)>) -> Seq<(Rc<Value>, Rc<Value>)>
    decreases ps.len(),
{
    if ps.len() == 0 {
        Seq::empty()
    } else {
        insert_entry(inserted_pairs(ps.drop_last()), ps.last().0, ps.last().1)
    }
}

/// A map built by inserting the pairs `ps` in order holds no more entries
/// than there were pairs, each of its entries is one of the pairs, and the
/// pair inserted last is among them.
pub proof fn law_inserted_pairs_origin(ps: Seq<(Rc<Value>, Rc<Value>)>)
    ensures
        inserted_pairs(ps).len() <= ps.len(),
        forall|j: int|
            #![trigger inserted_pairs(ps)[j]]
            0 <= j < inserted_pairs(ps).len() ==> exists|k: int|
                0 <= k < ps.len() && inserted_pairs(ps)[j] == #[trigger] ps[k],
        ps.len() > 0 ==> inserted_pairs(ps).contains(ps.last()),
    decreases ps.len(),
{
    if ps.len() > 0 {
        let pre = ps.drop_last();
        law_inserted_pairs_origin(pre);
        let prev = inserted_pairs(pre);
        let last = ps.last();
        let out = inserted_pairs(ps);
        assert(out == insert_entry(prev, last.0, last.1));
        let key = copy_of(&*last.0);
        law_first_same_is_first(prev, key, prev.len());
        assert forall|j: int| #![trigger out[j]] 0 <= j < out.len() implies exists|k: int|
            0 <= k < ps.len() && out[j] == #[trigger] ps[k] by {
            let at: int = match first_same(prev, key, prev.len()) {
                Some(i) => i,
                None => prev.len() as int,
            };
            if j == at {
                assert(out[j] == ps[ps.len() - 1]);
            } else {
                assert(out[j] == prev[j]);
                let k = choose|k: int| 0 <= k < pre.len() && prev[j] == #[trigger] pre[k];
                assert(pre[k] == ps[k]);
            }
        }
        match first_same(prev, key, prev.len()) {
            Some(i) => {
                assert(out[i] == last);
            },
            None => {
                assert(out[prev.len() as int] == last);
            },
        }
    }
}

/// With `lo <= hi`, clamping gives a value within `[lo, hi]`: `x` itself
/// when it lies there, else the nearer bound.
pub proof fn law_clamp_bounds(x: int, lo: int, hi: int)
    requires
        lo <= hi,
    ensures
        lo <= clamp(x, lo, hi) <= hi,
        lo <= x <= hi ==> clamp(x, lo, hi) == x,
        x < lo ==> clamp(x, lo, hi) == lo,
        x > hi ==> clamp(x, lo, hi) == hi,
{
}

/// The map made by inserting, in order, each `[key value]` array of `ys`.
pub open spec fn inserted_all(ys: Seq<Rc<Value>>) -> Seq<(Rc<Value>, Rc<Value>)>
    decreases ys.len(),
{
    if ys.len() == 0 {
        Seq::empty()
    } else {
        insert_entry(inserted_all(ys.drop_last()), (*ys.last())->Array_0@[0], (*ys.last())->Array_0@[1])
    }
}

/// The texts of the strings `ys`, joined in order.
pub open spec fn texts_of(ys: Seq<Rc<Value>>) -> Seq<char>
    decreases ys.len(),
{
    if ys.len() == 0 {
        Seq::empty()
    } else {
        texts_of(ys.drop_last()) + ys.last()->Str_0@
    }
}

/// `f`, called on element `x` at index `j` (and on `j` first when
/// `indexed`), can give `y`.
pub open spec fn mapped(f: Rc<Value>, j: int, x: Rc<Value>, indexed: bool, depth: nat, y: Rc<Value>) -> bool {
    exists|a: Seq<Rc<Value>>| #![trigger gives(f, a, depth, y), callback_for(a, j, seq![x], indexed)]
        callback_for(a, j, seq![x], indexed) && gives(f, a, depth, y)
}

/// A call of `f` on `args` that [`apply`] let end in `Ok(v)`: `f` gives
/// `v` on them.
proof fn lemma_gives_of_apply(f: Rc<Value>, args: Seq<Rc<Value>>, depth: nat, v: Rc<Value>)
    requires
        *f matches Value::Closure(c) ==> exists|cs: Seq<Rc<Value>>|
            runs(*c, args, f, cs, depth, Ok::<Rc<Value>, RuntimeError>(v)),
        *f matches Value::Native(id) ==> (core_at(id as int) matches Some(b) ==> exists|
            cs: Seq<Rc<Value>>,
            after: Seq<Rc<Value>>,
        | core_gives(b, args, cs, Ok::<Rc<Value>, RuntimeError>(v), after)),
    ensures
        gives(f, args, depth, v),
{
}

/// `p`, called on `args`, can give a value whose truth is `keep` (with
/// the store as it then stands).
pub open spec fn judged(p: Rc<Value>, args: Seq<Rc<Value>>, depth: nat, keep: bool) -> bool {
    exists|v: Rc<Value>, cs: Seq<Rc<Value>>|
        #![trigger gives(p, args, depth, v), truthy_in(*v, cs, cs.len())]
        gives(p, args, depth, v) && keep == truthy_in(*v, cs, cs.len())
}

/// `ys` is `xs` with the elements kept for which `p` gives a truthy value
/// (on the element alone, or on `f(x)` as `args_of` builds the arguments).
pub open spec fn filtered<A>(
    p: Rc<Value>,
    xs: Seq<A>,
    args_of: spec_fn(A) -> Seq<Rc<Value>>,
    depth: nat,
    ys: Seq<A>,
) -> bool {
    exists|flags: Seq<bool>|
        #![trigger select(xs, flags)]
        flags.len() == xs.len() && ys == select(xs, flags) && forall|j: int|
            0 <= j < xs.len() ==> #[trigger] judged(p, args_of(xs[j]), depth, flags[j])
}

/// `p`, called on the one-character string of `c`, can give a value whose
/// truth is `keep`.
pub open spec fn char_judged(p: Rc<Value>, c: char, depth: nat, keep: bool) -> bool {
    exists|x: Rc<Value>| #![trigger judged(p, element_args(x), depth, keep)]
        (*x matches Value::Str(t) && t@ == seq![c]) && judged(p, element_args(x), depth, keep)
}

/// The arguments `filter` gives its predicate for an element.
pub open spec fn element_args(x: Rc<Value>) -> Seq<Rc<Value>> {
    seq![x]
}

/// The arguments `filter` gives its predicate for a map entry.
pub open spec fn entry_args(e: (Rc<Value>, Rc<Value>)) -> Seq<Rc<Value>> {
    seq![e.0, e.1]
}

/// The shape of collection the higher-order builtins walk.
pub open spec fn is_walkable(v: Value) -> bool {
    v is Str || v is Array || v is Dict || is_list(v)
}

/// The arguments the callback of `fmap`/`fmapi` gets for the element
/// `parts` at index `i`: the index first when `indexed`.
fn callback_args(i: usize, parts: Vec<Rc<Value>>, indexed: bool) -> (r: Vec<Rc<Value>>)
    ensures
        r@.len() == parts@.len() + (if indexed { 1int } else { 0int }),
        callback_for(r@, i as int, parts@, indexed),
{
    if indexed {
        let mut out: Vec<Rc<Value>> = Vec::new();
        out.push(Rc::new(Value::Int(i as i64)));
        let mut k: usize = 0;
        while k < parts.len()
            invariant
                k <= parts@.len(),
                out@.len() == k + 1,
                *out@[0] == Value::Int(i as i64),
                out@.skip(1) == parts@.take(k as int),
            decreases parts@.len() - k,
        {
            proof {
                assert(out@.skip(1) =~= parts@.take(k as int));
            }
            out.push(share(&parts[k]));
            proof {
                assert(out@.skip(1) =~= parts@.take(k as int + 1));
            }
            k = k + 1;
        }
        proof {
            assert(out@.skip(1) =~= parts@);
        }
        out
    } else {
        parts
    }
}

/// `(fmap f coll)` (or `(fmapi f coll)` when `indexed`): `f` applied to
/// each element, giving a collection of the same shape. A string is walked
/// by character, each given as a one-character string, and `f` must return
/// strings, which are joined; a map's entries are given as key and value,
/// and `f` must return a `[key value]` array.
#[verifier::loop_isolation(false)]
pub fn fmap<N: Natives>(
    natives: &mut N,
    cells: &mut Cells,
    f: &Rc<Value>,
    coll: &Rc<Value>,
    env: &Env,
    depth: usize,
    indexed: bool,
) -> (r: Result<Rc<Value>, RuntimeError>)
    requires
        match **coll {
            Value::Array(xs) => xs@.len() <= i64::MAX,
            Value::Dict(m) => m@.len() <= i64::MAX,
            Value::Str(s) => s@.len() <= i64::MAX,
            _ => items(**coll).len() <= i64::MAX,
        },
    ensures
        **coll matches Value::Array(xs) ==> (r is Ok ==> (*r->Ok_0 matches Value::Array(ys)
            && ys@.len() == xs@.len() && forall|j: int|
            0 <= j < ys@.len() ==> #[trigger] mapped(*f, j, xs@[j], indexed, depth as nat, ys@[j]))),
        (is_list(**coll) && r is Ok) ==> (items(*r->Ok_0).len() == items(**coll).len() && forall|j: int|
            0 <= j < items(**coll).len() ==> #[trigger] mapped(
                *f,
                j,
                items(**coll)[j],
                indexed,
                depth as nat,
                items(*r->Ok_0)[j],
            )),
        (**coll is Str && r is Ok) ==> *r->Ok_0 is Str,
        **coll matches Value::Str(s) ==> (r matches Ok(v) ==> exists|ys: Seq<Rc<Value>>|
            #![trigger texts_of(ys)]
            ys.len() == s@.len() && (*v)->Str_0@ == texts_of(ys) && forall|j: int|
                0 <= j < ys.len() ==> #[trigger] char_mapped(*f, j, s@[j], indexed, depth as nat, ys[j])),
        (**coll is Dict && r is Ok) ==> *r->Ok_0 is Dict,
        **coll matches Value::Dict(m) ==> (r matches Ok(v) ==> exists|ys: Seq<Rc<Value>>|
            #![trigger inserted_all(ys)]
            ys.len() == m@.len() && (*v)->Dict_0@ == inserted_all(ys) && forall|j: int|
                0 <= j < ys.len() ==> #[trigger] entry_mapped(*f, j, m@[j], indexed, depth as nat, ys[j])),
        !is_walkable(**coll) ==> r matches Err(RuntimeError::TypeMismatch { .. }),
{
    let name = if indexed {
        "fmapi"
    } else {
        "fmap"
    };
    match &**coll {
        Value::Array(xs) => {
            let mut out: Vec<Rc<Value>> = Vec::new();
            let mut k: usize = 0;
            while k < xs.len()
                invariant
                    k <= xs@.len(),
                    out@.len() == k,
                    forall|j: int| 0 <= j < k ==> #[trigger] mapped(*f, j, xs@[j], indexed, depth as nat, out@[j]),
                decreases xs@.len() - k,
            {
                let parts = vec![share(&xs[k])];
                proof {
                    assert(parts@ =~= seq![xs@[k as int]]);
                }
                let args = callback_args(k, parts, indexed);
                let ghost a = args@;
                let v = apply(natives, cells, f, args, env, depth)?;
                proof {
                    lemma_gives_of_apply(*f, a, depth as nat, v);
                    assert(callback_for(a, k as int, seq![xs@[k as int]], indexed) && gives(*f, a, depth as nat, v));
                }
                out.push(v);
                k = k + 1;
            }
            Ok(Rc::new(Value::Array(out)))
        },
        Value::Str(s) => {
            let n = s.as_str().unicode_len();
            let mut acc = String::new();
            let mut k: usize = 0;
            let ghost mut ys: Seq<Rc<Value>> = Seq::empty();
            while k < n
                invariant
                    k <= n,
                    n == s@.len(),
                    ys.len() == k,
                    acc@ == texts_of(ys),
                    forall|j: int| 0 <= j < k ==> #[trigger] char_mapped(*f, j, s@[j], indexed, depth as nat, ys[j]),
                decreases n - k,
            {
                let c = char_at(s.as_str(), k);
                let parts = vec![share(&c)];
                proof {
                    assert(parts@ =~= seq![c]);
                }
                let args = callback_args(k, parts, indexed);
                let ghost a = args@;
                let x = apply(natives, cells, f, args, env, depth)?;
                match &*x {
                    Value::Str(t) => {
                        proof {
                            lemma_gives_of_apply(*f, a, depth as nat, x);
                            assert(mapped(*f, k as int, c, indexed, depth as nat, x));
                            assert(char_mapped(*f, k as int, s@[k as int], indexed, depth as nat, x));
                            assert(ys.push(x).drop_last() =~= ys);
                        }
                        acc.append(t.as_str());
                        proof {
                            ys = ys.push(x);
                        }
                    },
                    other => {
                        return Err(type_mismatch(name, "lambda to return str", other));
                    },
                }
                k = k + 1;
            }
            Ok(Rc::new(Value::Str(Rc::new(acc))))
        },
        Value::Dict(m) => {
            let mut out: Vec<(Rc<Value>, Rc<Value>)> = Vec::new();
            let mut k: usize = 0;
            let ghost mut got: Seq<Rc<Value>> = Seq::empty();
            while k < m.len()
                invariant
                    k <= m@.len(),
                    got.len() == k,
                    out@ == inserted_all(got),
                    forall|j: int| 0 <= j < k ==> #[trigger] entry_mapped(*f, j, m@[j], indexed, depth as nat, got[j]),
                decreases m@.len() - k,
            {
                let parts = vec![share(&m[k].0), share(&m[k].1)];
                proof {
                    assert(parts@ =~= entry_args(m@[k as int]));
                }
                let args = callback_args(k, parts, indexed);
                let ghost a = args@;
                let pair = apply(natives, cells, f, args, env, depth)?;
                proof {
                    lemma_gives_of_apply(*f, a, depth as nat, pair);
                }
                match &*pair {
                    Value::Array(ys) => {
                        if ys.len() != 2 {
                            return Err(RuntimeError::TypeMismatch {
                                name: text(name),
                                expected: text("lambda to return array of length 2"),
                                got: text("array of another length"),
                            });
                        }
                        proof {
                            assert(entry_mapped(*f, k as int, m@[k as int], indexed, depth as nat, pair));
                            assert(got.push(pair).drop_last() =~= got);
                        }
                        crate::runtime::eval::dict_insert(&mut out, share(&ys[0]), share(&ys[1]));
                        proof {
                            got = got.push(pair);
                        }
                    },
                    other => {
                        return Err(type_mismatch(name, "lambda to return array of length 2", other));
                    },
                }
                k = k + 1;
            }
            Ok(Rc::new(Value::Dict(out)))
        },
        Value::Cons { .. } | Value::Unit => {
            let xs = list_items(coll);
            let mut out: Vec<Rc<Value>> = Vec::new();
            let mut k: usize = 0;
            while k < xs.len()
                invariant
                    k <= xs@.len(),
                    out@.len() == k,
                    xs@ == items(**coll),
                    forall|j: int| 0 <= j < k ==> #[trigger] mapped(*f, j, xs@[j], indexed, depth as nat, out@[j]),
                decreases xs@.len() - k,
            {
                let parts = vec![share(&xs[k])];
                proof {
                    assert(parts@ =~= seq![xs@[k as int]]);
                }
                let args = callback_args(k, parts, indexed);
                let ghost a = args@;
                let v = apply(natives, cells, f, args, env, depth)?;
                proof {
                    lemma_gives_of_apply(*f, a, depth as nat, v);
                    assert(callback_for(a, k as int, seq![xs@[k as int]], indexed) && gives(*f, a, depth as nat, v));
                }
                out.push(v);
                k = k + 1;
            }
            Ok(list_from(out))
        },
        other => Err(type_mismatch(name, "array/map/str/list", other)),
    }
}

/// `(filter pred coll)`: the elements of `coll` for which `pred` gives a
/// truthy value, in order, as a collection of the same shape; a string is
/// walked by character, a map by entry (`pred` gets key and value).
#[verifier::loop_isolation(false)]
pub fn filter<N: Natives>(
    natives: &mut N,
    cells: &mut Cells,
    pred: &Rc<Value>,
    coll: &Rc<Value>,
    env: &Env,
    depth: usize,
) -> (r: Result<Rc<Value>, RuntimeError>)
    ensures
        **coll matches Value::Array(xs) ==> (r is Ok ==> (*r->Ok_0 matches Value::Array(ys)
            && filtered(*pred, xs@, |x: Rc<Value>| element_args(x), depth as nat, ys@))),
        (is_list(**coll) && r is Ok) ==> filtered(
            *pred,
            items(**coll),
            |x: Rc<Value>| element_args(x),
            depth as nat,
            items(*r->Ok_0),
        ),
        **coll matches Value::Dict(m) ==> (r is Ok ==> (*r->Ok_0 matches Value::Dict(n)
            && filtered(*pred, m@, |e: (Rc<Value>, Rc<Value>)| entry_args(e), depth as nat, n@))),
        (**coll is Str && r is Ok) ==> *r->Ok_0 is Str,
        **coll matches Value::Str(s) ==> (r matches Ok(v) ==> exists|flags: Seq<bool>|
            #![trigger select(s@, flags)]
            flags.len() == s@.len() && (*v)->Str_0@ == select(s@, flags) && forall|j: int|
                0 <= j < s@.len() ==> #[trigger] char_judged(*pred, s@[j], depth as nat, flags[j])),
        !is_walkable(**coll) ==> r matches Err(RuntimeError::TypeMismatch { .. }),
{
    match &**coll {
        Value::Array(xs) => {
            let mut out: Vec<Rc<Value>> = Vec::new();
            let mut k: usize = 0;
            let ghost mut flags: Seq<bool> = Seq::empty();
            while k < xs.len()
                invariant
                    k <= xs@.len(),
                    flags.len() == k,
                    out@ == select(xs@.take(k as int), flags),
                    forall|j: int|
                        0 <= j < k ==> #[trigger] judged(*pred, element_args(xs@[j]), depth as nat, flags[j]),
                decreases xs@.len() - k,
            {
                let x = share(&xs[k]);
                let parts = vec![share(&x)];
                let ghost a = parts@;
                proof {
                    assert(a =~= element_args(xs@[k as int]));
                }
                let keep = apply(natives, cells, pred, parts, env, depth)?;
                let b = is_truthy(&*keep, cells);
                proof {
                    lemma_gives_of_apply(*pred, a, depth as nat, keep);
                    assert(judged(*pred, a, depth as nat, b));
                    lemma_select_extend(xs@.take(k as int), flags, x, b);
                    assert(xs@.take(k as int + 1) =~= xs@.take(k as int).push(x));
                    flags = flags.push(b);
                }
                if b {
                    out.push(x);
                }
                k = k + 1;
            }
            proof {
                assert(xs@.take(k as int) =~= xs@);
            }
            Ok(Rc::new(Value::Array(out)))
        },
        Value::Str(s) => {
            let n = s.as_str().unicode_len();
            let mut acc = String::new();
            let mut k: usize = 0;
            let ghost mut flags: Seq<bool> = Seq::empty();
            while k < n
                invariant
                    k <= n,
                    n == s@.len(),
                    flags.len() == k,
                    acc@ == select(s@.take(k as int), flags),
                    forall|j: int| 0 <= j < k ==> #[trigger] char_judged(*pred, s@[j], depth as nat, flags[j]),
                decreases n - k,
            {
                let piece = s.as_str().substring_char(k, k + 1);
                let ch = Rc::new(Value::Str(Rc::new(String::from_str(piece))));
                let parts = vec![share(&ch)];
                let ghost a = parts@;
                proof {
                    assert(a =~= element_args(ch));
                    assert(piece@ =~= seq![s@[k as int]]);
                }
                let keep = apply(natives, cells, pred, parts, env, depth)?;
                let b = is_truthy(&*keep, cells);
                proof {
                    lemma_gives_of_apply(*pred, a, depth as nat, keep);
                    assert(judged(*pred, element_args(ch), depth as nat, b));
                    assert(char_judged(*pred, s@[k as int], depth as nat, b));
                    lemma_select_extend(s@.take(k as int), flags, s@[k as int], b);
                    assert(s@.take(k as int + 1) =~= s@.take(k as int).push(s@[k as int]));
                    flags = flags.push(b);
                }
                if b {
                    acc.append(piece);
                }
                k = k + 1;
            }
            proof {
                assert(s@.take(k as int) =~= s@);
            }
            Ok(Rc::new(Value::Str(Rc::new(acc))))
        },
        Value::Dict(m) => {
            let mut out: Vec<(Rc<Value>, Rc<Value>)> = Vec::new();
            let mut k: usize = 0;
            let ghost mut flags: Seq<bool> = Seq::empty();
            while k < m.len()
                invariant
                    k <= m@.len(),
                    flags.len() == k,
                    out@ == select(m@.take(k as int), flags),
                    forall|j: int|
                        0 <= j < k ==> #[trigger] judged(*pred, entry_args(m@[j]), depth as nat, flags[j]),
                decreases m@.len() - k,
            {
                let e = (share(&m[k].0), share(&m[k].1));
                let parts = vec![share(&e.0), share(&e.1)];
                let ghost a = parts@;
                proof {
                    assert(m@[k as int] == e);
                    assert(a =~= entry_args(m@[k as int]));
                }
                let keep = apply(natives, cells, pred, parts, env, depth)?;
                let b = is_truthy(&*keep, cells);
                proof {
                    lemma_gives_of_apply(*pred, a, depth as nat, keep);
                    assert(judged(*pred, a, depth as nat, b));
                    lemma_select_extend(m@.take(k as int), flags, e, b);
                    assert(m@.take(k as int + 1) =~= m@.take(k as int).push(e));
                    flags = flags.push(b);
                }
                if b {
                    out.push(e);
                }
                k = k + 1;
            }
            proof {
                assert(m@.take(k as int) =~= m@);
            }
            Ok(Rc::new(Value::Dict(out)))
        },
        Value::Cons { .. } | Value::Unit => {
            let xs = list_items(coll);
            let mut out: Vec<Rc<Value>> = Vec::new();
            let mut k: usize = 0;
            let ghost mut flags: Seq<bool> = Seq::empty();
            while k < xs.len()
                invariant
                    k <= xs@.len(),
                    flags.len() == k,
                    out@ == select(xs@.take(k as int), flags),
                    forall|j: int|
                        0 <= j < k ==> #[trigger] judged(*pred, element_args(xs@[j]), depth as nat, flags[j]),
                decreases xs@.len() - k,
            {
                let x = share(&xs[k]);
                let parts = vec![share(&x)];
                let ghost a = parts@;
                proof {
                    assert(a =~= element_args(xs@[k as int]));
                }
                let keep = apply(natives, cells, pred, parts, env, depth)?;
                let b = is_truthy(&*keep, cells);
                proof {
                    lemma_gives_of_apply(*pred, a, depth as nat, keep);
                    assert(judged(*pred, a, depth as nat, b));
                    lemma_select_extend(xs@.take(k as int), flags, x, b);
                    assert(xs@.take(k as int + 1) =~= xs@.take(k as int).push(x));
                    flags = flags.push(b);
                }
                if b {
                    out.push(x);
                }
                k = k + 1;
            }
            proof {
                assert(xs@.take(k as int) =~= xs@);
            }
            Ok(list_from(out))
        },
        other => Err(type_mismatch("filter", "array/map/str/list", other)),
    }
}

} // verus!
