//! The identifier names a form uses, and the pool that holds them.

use crate::parser::grammar::{build_list, dict_insert, find_key, lemma_find_key_found};
use crate::parser::laws::width;
use crate::parser::sexp::{AtomView, SexpView};
use vstd::prelude::*;

verus! {

/// Every identifier `v` uses, at any depth, is among `names`.
pub open spec fn names_within(v: SexpView, names: Set<Seq<char>>) -> bool
    decreases v, 0nat,
{
    match v {
        SexpView::Atom(AtomView::Ident(n)) => names.contains(n),
        SexpView::Exp(h, t) => names_within(*h, names) && names_within(*t, names),
        SexpView::Array(xs) => items_names_within(xs, names, xs.len()),
        SexpView::Dict(es) => entries_names_upto(es, names, es.len()),
        _ => true,
    }
}

/// The first `n` forms of `xs` use only names among `names`.
pub open spec fn items_names_within(xs: Seq<SexpView>, names: Set<Seq<char>>, n: nat) -> bool
    decreases xs, n,
{
    if n == 0 || n > xs.len() {
        true
    } else {
        items_names_within(xs, names, (n - 1) as nat) && names_within(xs[n - 1], names)
    }
}

/// The first `n` entries of `es` use only names among `names`.
pub open spec fn entries_names_upto(
    es: Seq<(SexpView, SexpView)>,
    names: Set<Seq<char>>,
    n: nat,
) -> bool
    decreases es, n,
{
    if n == 0 || n > es.len() {
        true
    } else {
        entries_names_upto(es, names, (n - 1) as nat) && names_within(es[n - 1].0, names)
            && names_within(es[n - 1].1, names)
    }
}

proof fn lemma_items_names(xs: Seq<SexpView>, names: Set<Seq<char>>, n: nat)
    requires
        n <= xs.len(),
    ensures
        items_names_within(xs, names, n) <==> forall|k: int|
            0 <= k < n ==> #[trigger] names_within(xs[k], names),
    decreases n,
{
    if n > 0 {
        lemma_items_names(xs, names, (n - 1) as nat);
        if items_names_within(xs, names, n) {
            assert forall|k: int| 0 <= k < n implies #[trigger] names_within(xs[k], names) by {
                if k < n - 1 {
                    assert(names_within(xs[k], names));
                }
            }
        }
        if forall|k: int| 0 <= k < n ==> #[trigger] names_within(xs[k], names) {
            assert(names_within(xs[n - 1], names));
            assert forall|k: int| 0 <= k < n - 1 implies #[trigger] names_within(xs[k], names) by {
                assert(names_within(xs[k], names));
            }
        }
    }
}

proof fn lemma_entries_names(es: Seq<(SexpView, SexpView)>, names: Set<Seq<char>>, n: nat)
    requires
        n <= es.len(),
    ensures
        entries_names_upto(es, names, n) <==> forall|k: int|
            0 <= k < n ==> #[trigger] entry_names_within(es[k], names),
    decreases n,
{
    if n > 0 {
        lemma_entries_names(es, names, (n - 1) as nat);
        if entries_names_upto(es, names, n) {
            assert forall|k: int| 0 <= k < n implies #[trigger] entry_names_within(es[k], names) by {
                if k < n - 1 {
                    assert(entry_names_within(es[k], names));
                }
            }
        }
        if forall|k: int| 0 <= k < n ==> #[trigger] entry_names_within(es[k], names) {
            assert(entry_names_within(es[n - 1], names));
            assert forall|k: int| 0 <= k < n - 1 implies #[trigger] entry_names_within(
                es[k],
                names,
            ) by {
                assert(entry_names_within(es[k], names));
            }
        }
    }
}

/// An array form uses the names its elements use.
pub proof fn lemma_array_names(xs: Seq<SexpView>, names: Set<Seq<char>>)
    ensures
        names_within(SexpView::Array(xs), names) <==> all_names_within(xs, names),
{
    lemma_items_names(xs, names, xs.len());
}

/// A map form uses the names its entries use.
pub proof fn lemma_dict_names(es: Seq<(SexpView, SexpView)>, names: Set<Seq<char>>)
    ensures
        names_within(SexpView::Dict(es), names) <==> entries_names_within(es, names),
{
    lemma_entries_names(es, names, es.len());
}

/// Both the key and the value of an entry use only names among `names`.
pub open spec fn entry_names_within(e: (SexpView, SexpView), names: Set<Seq<char>>) -> bool {
    names_within(e.0, names) && names_within(e.1, names)
}

/// Every form of `vs` uses only names among `names`.
pub open spec fn all_names_within(vs: Seq<SexpView>, names: Set<Seq<char>>) -> bool {
    forall|k: int| 0 <= k < vs.len() ==> #[trigger] names_within(vs[k], names)
}

/// Every entry of `es` uses only names among `names`.
pub open spec fn entries_names_within(
    es: Seq<(SexpView, SexpView)>,
    names: Set<Seq<char>>,
) -> bool {
    forall|k: int| 0 <= k < es.len() ==> #[trigger] entry_names_within(es[k], names)
}

/// A form whose names are among `a` has them among any larger set.
pub proof fn lemma_names_grow(v: SexpView, a: Set<Seq<char>>, b: Set<Seq<char>>)
    requires
        a.subset_of(b),
        names_within(v, a),
    ensures
        names_within(v, b),
    decreases v, width(v),
{
    match v {
        SexpView::Exp(h, t) => {
            lemma_names_grow(*h, a, b);
            lemma_names_grow(*t, a, b);
        },
        SexpView::Array(xs) => {
            lemma_items_names_grow(xs, a, b, xs.len(), v);
        },
        SexpView::Dict(es) => {
            lemma_entries_names_grow_upto(es, a, b, es.len(), v);
        },
        _ => {},
    }
}

proof fn lemma_items_names_grow(
    xs: Seq<SexpView>,
    a: Set<Seq<char>>,
    b: Set<Seq<char>>,
    n: nat,
    whole: SexpView,
)
    requires
        a.subset_of(b),
        items_names_within(xs, a, n),
        whole == SexpView::Array(xs),
    ensures
        items_names_within(xs, b, n),
    decreases whole, n,
{
    if n > 0 && n <= xs.len() {
        lemma_items_names_grow(xs, a, b, (n - 1) as nat, whole);
        assert(decreases_to!(whole => whole->Array_0));
        assert(decreases_to!(xs => xs[n - 1]));
        lemma_names_grow(xs[n - 1], a, b);
    }
}

proof fn lemma_entries_names_grow_upto(
    es: Seq<(SexpView, SexpView)>,
    a: Set<Seq<char>>,
    b: Set<Seq<char>>,
    n: nat,
    whole: SexpView,
)
    requires
        a.subset_of(b),
        entries_names_upto(es, a, n),
        whole == SexpView::Dict(es),
    ensures
        entries_names_upto(es, b, n),
    decreases whole, n,
{
    if n > 0 && n <= es.len() {
        lemma_entries_names_grow_upto(es, a, b, (n - 1) as nat, whole);
        let e = es[n - 1];
        assert(decreases_to!(whole => whole->Dict_0));
        assert(decreases_to!(es => e));
        assert(decreases_to!(e => e.0));
        assert(decreases_to!(e => e.1));
        lemma_names_grow(e.0, a, b);
        lemma_names_grow(e.1, a, b);
    }
}

/// Forms whose names are among `a` have them among any larger set.
pub proof fn lemma_all_names_grow(vs: Seq<SexpView>, a: Set<Seq<char>>, b: Set<Seq<char>>)
    requires
        a.subset_of(b),
        all_names_within(vs, a),
    ensures
        all_names_within(vs, b),
{
    assert forall|k: int| 0 <= k < vs.len() implies #[trigger] names_within(vs[k], b) by {
        lemma_names_grow(vs[k], a, b);
    }
}

/// Appending a form whose names are among `b` to forms whose names are
/// among `a`, a subset of `b`, gives forms whose names are among `b`.
pub proof fn lemma_push_names(vs: Seq<SexpView>, x: SexpView, a: Set<Seq<char>>, b: Set<Seq<char>>)
    requires
        a.subset_of(b),
        all_names_within(vs, a),
        names_within(x, b),
    ensures
        all_names_within(vs.push(x), b),
{
    lemma_all_names_grow(vs, a, b);
    assert forall|k: int| 0 <= k < vs.push(x).len() implies #[trigger] names_within(
        vs.push(x)[k],
        b,
    ) by {
        if k < vs.len() {
            assert(vs.push(x)[k] == vs[k]);
        }
    }
}

/// Entries whose names are among `a` have them among any larger set.
pub proof fn lemma_entries_names_grow(
    es: Seq<(SexpView, SexpView)>,
    a: Set<Seq<char>>,
    b: Set<Seq<char>>,
)
    requires
        a.subset_of(b),
        entries_names_within(es, a),
    ensures
        entries_names_within(es, b),
{
    assert forall|k: int| 0 <= k < es.len() implies #[trigger] entry_names_within(es[k], b) by {
        assert(entry_names_within(es[k], a));
        lemma_names_grow(es[k].0, a, b);
        lemma_names_grow(es[k].1, a, b);
    }
}

/// A list uses the names of its elements and of its tail.
pub proof fn lemma_build_list_names(elems: Seq<SexpView>, tail: SexpView, names: Set<Seq<char>>)
    requires
        all_names_within(elems, names),
        names_within(tail, names),
    ensures
        names_within(build_list(elems, tail), names),
    decreases elems.len(),
{
    if elems.len() > 0 {
        let next = SexpView::Exp(Box::new(elems.last()), Box::new(tail));
        assert(names_within(elems[elems.len() - 1], names));
        assert(names_within(next, names));
        assert(all_names_within(elems.drop_last(), names)) by {
            assert forall|k: int| 0 <= k < elems.drop_last().len() implies #[trigger] names_within(
                elems.drop_last()[k],
                names,
            ) by {
                assert(elems.drop_last()[k] == elems[k]);
            }
        }
        lemma_build_list_names(elems.drop_last(), next, names);
    }
}

/// Binding a key to a value keeps every entry's names within `names` when
/// the key's and the value's are.
pub proof fn lemma_dict_insert_names(
    es: Seq<(SexpView, SexpView)>,
    k: SexpView,
    v: SexpView,
    names: Set<Seq<char>>,
)
    requires
        entries_names_within(es, names),
        names_within(k, names),
        names_within(v, names),
    ensures
        entries_names_within(dict_insert(es, k, v), names),
{
    let after = dict_insert(es, k, v);
    assert(entry_names_within((k, v), names));
    lemma_find_key_found(es, k, es.len());
    match find_key(es, k, es.len()) {
        Some(i) => {
            assert forall|j: int| 0 <= j < after.len() implies #[trigger] entry_names_within(
                after[j],
                names,
            ) by {
                if j != i {
                    assert(after[j] == es[j]);
                    assert(entry_names_within(es[j], names));
                }
            }
        },
        None => {
            assert forall|j: int| 0 <= j < after.len() implies #[trigger] entry_names_within(
                after[j],
                names,
            ) by {
                if j < es.len() {
                    assert(after[j] == es[j]);
                    assert(entry_names_within(es[j], names));
                }
            }
        },
    }
}

} // verus!
