//! What holds of every reading: properties of the grammar and of the forms
//! it builds, for all inputs.

use crate::parser::error::ParseErrorView;
use crate::parser::grammar::{
    Failure, build_list, dict_insert, eof_at, find_key, lemma_find_key_found, lemma_skip_trivia,
    parse_expr, parse_forms, parse_program, skip_trivia,
};
use crate::parser::position::position_at;
use crate::parser::sexp::{SexpView, entries_within, entry_among, items_equiv, sexp_equiv};
use vstd::prelude::*;

verus! {

/// Reading top-level forms from `i` yields at least one more form than the
/// forms already read, and keeps those in front.
proof fn lemma_forms_grow(s: Seq<u8>, i: int, d: int, forms: Seq<SexpView>)
    ensures
        parse_forms(s, i, d, forms) matches Ok(all) ==> all.len() > forms.len() && all.take(
            forms.len() as int,
        ) == forms,
    decreases s.len() - i,
{
    if 0 <= i <= s.len() {
        if let Ok((e, j, dj)) = parse_expr(s, i, d, 0) {
            if i < j <= s.len() {
                lemma_skip_trivia(s, j);
                let k = skip_trivia(s, j);
                if k < s.len() {
                    lemma_forms_grow(s, k, dj, forms.push(e));
                    if let Ok(all) = parse_forms(s, k, dj, forms.push(e)) {
                        assert(all.take(forms.len() as int) =~= all.take(
                            forms.len() + 1int,
                        ).take(forms.len() as int));
                    }
                } else {
                    assert(forms.push(e).take(forms.len() as int) =~= forms);
                }
            }
        }
    }
}

/// A program that reads successfully has at least one form: reading never
/// succeeds with nothing.
pub proof fn law_program_nonempty(s: Seq<u8>)
    ensures
        parse_program(s) matches Ok(forms) ==> forms.len() > 0,
{
    lemma_skip_trivia(s, 0);
    let j = skip_trivia(s, 0);
    if j < s.len() {
        lemma_forms_grow(s, j, 0, Seq::empty());
    }
}

/// Input that holds nothing but whitespace and `;;` comments — the empty
/// input among them — reads as an unexpected end of input at its end.
pub proof fn law_trivia_only_input_is_eof(s: Seq<u8>)
    requires
        skip_trivia(s, 0) >= s.len(),
    ensures
        parse_program(s) == Err::<Seq<SexpView>, Failure>(
            Failure::Error(ParseErrorView::UnexpectedEof(position_at(s, s.len() as int))),
        ),
{
    lemma_skip_trivia(s, 0);
    assert(eof_at(s, skip_trivia(s, 0)) == eof_at(s, s.len() as int));
}

/// A list whose dotted tail is itself a list is the longer list:
/// `(a . (b c))` is `(a b c)`.
pub proof fn law_dotted_list_tail(xs: Seq<SexpView>, ys: Seq<SexpView>, tail: SexpView)
    ensures
        build_list(xs, build_list(ys, tail)) == build_list(xs + ys, tail),
    decreases ys.len(),
{
    if ys.len() == 0 {
        assert(xs + ys =~= xs);
    } else {
        let last = ys.last();
        let rest = ys.drop_last();
        let inner = SexpView::Exp(Box::new(last), Box::new(tail));
        law_dotted_list_tail(xs, rest, inner);
        assert((xs + ys).drop_last() =~= xs + rest);
        assert((xs + ys).last() == last);
    }
}

/// Once some entry of the first `n` has a key equal to `k`, the lookup
/// finds one.
proof fn lemma_find_key_some(entries: Seq<(SexpView, SexpView)>, k: SexpView, n: nat, i: int)
    requires
        n <= entries.len(),
        0 <= i < n,
        sexp_equiv(entries[i].0, k),
    ensures
        find_key(entries, k, n) matches Some(j) && 0 <= j <= i,
    decreases n,
{
    if i < n - 1 {
        lemma_find_key_some(entries, k, (n - 1) as nat, i);
    } else {
        lemma_find_key_found(entries, k, (n - 1) as nat);
    }
}

/// In a map literal a repeated key takes the later entry: after binding
/// `k` to `v`, looking `k` up finds `v`, and the map grows only when no
/// entry had a key equal to `k`.
pub proof fn law_map_later_entry_wins(
    entries: Seq<(SexpView, SexpView)>,
    k: SexpView,
    v: SexpView,
)
    ensures
        find_key(dict_insert(entries, k, v), k, dict_insert(entries, k, v).len()) matches Some(j)
            && dict_insert(entries, k, v)[j].1 == v,
        dict_insert(entries, k, v).len() == entries.len() + if find_key(
            entries,
            k,
            entries.len(),
        ) is Some {
            0int
        } else {
            1int
        },
{
    let after = dict_insert(entries, k, v);
    lemma_find_key_found(entries, k, entries.len());
    law_equality_reflexive(k);
    match find_key(entries, k, entries.len()) {
        Some(i) => {
            lemma_find_key_some(after, k, after.len(), i);
            let j = find_key(after, k, after.len())->Some_0;
            lemma_find_key_found(after, k, after.len());
            if j < i {
                assert(after[j] == entries[j]);
                lemma_find_key_some(entries, k, entries.len(), j);
            }
        },
        None => {
            let n = entries.len();
            lemma_find_key_some(after, k, after.len(), n as int);
            let j = find_key(after, k, after.len())->Some_0;
            lemma_find_key_found(after, k, after.len());
            if j < n {
                assert(after[j] == entries[j]);
            }
        },
    }
}

/// Every entry of the first `n` of `xs` is among all of `xs`.
proof fn lemma_entries_within_self(xs: Seq<(SexpView, SexpView)>, n: nat, whole: SexpView)
    requires
        n <= xs.len(),
        whole == SexpView::Dict(xs),
    ensures
        entries_within(xs, xs, n),
    decreases whole, n,
{
    if n > 0 {
        lemma_entries_within_self(xs, (n - 1) as nat, whole);
        let x = xs[n - 1];
        assert(decreases_to!(whole => whole->Dict_0));
        assert(decreases_to!(xs => x));
        assert(decreases_to!(x => x.0));
        assert(decreases_to!(x => x.1));
        law_equality_reflexive(x.0);
        law_equality_reflexive(x.1);
        lemma_entry_among_at(x, xs, xs.len(), n - 1);
    }
}

/// An entry equal to the one at `i` is among the first `m` entries when
/// `i < m`.
proof fn lemma_entry_among_at(x: (SexpView, SexpView), ys: Seq<(SexpView, SexpView)>, m: nat, i: int)
    requires
        m <= ys.len(),
        0 <= i < m,
        sexp_equiv(x.0, ys[i].0),
        sexp_equiv(x.1, ys[i].1),
    ensures
        entry_among(x, ys, m),
    decreases m,
{
    if i < m - 1 {
        lemma_entry_among_at(x, ys, (m - 1) as nat, i);
    }
}

/// The first `n` elements of `xs` equal themselves.
proof fn lemma_items_equiv_self(xs: Seq<SexpView>, n: nat, whole: SexpView)
    requires
        n <= xs.len(),
        whole == SexpView::Array(xs),
    ensures
        items_equiv(xs, xs, n),
    decreases whole, n,
{
    if n > 0 {
        lemma_items_equiv_self(xs, (n - 1) as nat, whole);
        assert(decreases_to!(whole => whole->Array_0));
        assert(decreases_to!(xs => xs[n - 1]));
        law_equality_reflexive(xs[n - 1]);
    }
}

/// How many elements a collection form holds, plus one; zero for other
/// forms.
pub open spec fn width(a: SexpView) -> nat {
    match a {
        SexpView::Array(xs) => xs.len() + 1,
        SexpView::Dict(xs) => xs.len() + 1,
        _ => 0,
    }
}

/// Every form equals itself: the structural equality of forms is
/// reflexive, maps included, however their entries are ordered.
pub proof fn law_equality_reflexive(a: SexpView)
    ensures
        sexp_equiv(a, a),
    decreases a, width(a),
{
    match a {
        SexpView::Exp(h, t) => {
            law_equality_reflexive(*h);
            law_equality_reflexive(*t);
        },
        SexpView::Array(xs) => {
            lemma_items_equiv_self(xs, xs.len(), a);
        },
        SexpView::Dict(xs) => {
            lemma_entries_within_self(xs, xs.len(), a);
        },
        _ => {},
    }
}

} // verus!
