//! The reader's output: atoms, cons chains and collection literals, with
//! their mathematical views and the structural equality they obey.

use std::rc::Rc;
use vstd::prelude::*;

verus! {

/// A decimal number literal in canonical form: the sign, the digits before
/// the point without leading zeros, and the digits after it without
/// trailing zeros (all as ASCII digits). Zero is never negative, so two
/// literals denote the same number exactly when their canonical forms are
/// equal: `1.` and `1.0` and `01.00` all read as the same value.
#[derive(Debug, Clone, PartialEq, Eq, Hash)]
pub struct Decimal {
    pub negative: bool,
    pub int_digits: Vec<u8>,
    pub frac_digits: Vec<u8>,
}

impl View for Decimal {
    type V = (bool, Seq<u8>, Seq<u8>);

    open spec fn view(&self) -> (bool, Seq<u8>, Seq<u8>) {
        (self.negative, self.int_digits@, self.frac_digits@)
    }
}

/// A leaf token: a string literal, integer, float, or identifier.
///
/// Identifiers are interned across the parse — equal names share one
/// `Rc<String>` allocation.
#[derive(Debug, Clone, PartialEq, Eq, Hash)]
pub enum Atomic {
    /// A UTF-8 string literal with `\"`, `\\`, `\n`, `\r`, `\t` escapes.
    Str(String),
    /// A 64-bit signed integer. Overflow at parse time is an error.
    Int(i64),
    /// A float literal, as the exact decimal it spells. `1.` reads as `1.0`.
    Float(Decimal),
    /// An identifier — anything that isn't a delimiter, comment, number,
    /// or string. Punctuation like `+`, `<=`, `set!` are valid identifiers.
    Ident(Rc<String>),
}

/// The mathematical value of an [`Atomic`].
pub enum AtomView {
    Str(Seq<char>),
    Int(int),
    Float(bool, Seq<u8>, Seq<u8>),
    Ident(Seq<char>),
}

impl View for Atomic {
    type V = AtomView;

    open spec fn view(&self) -> AtomView {
        match self {
            Atomic::Str(s) => AtomView::Str(s@),
            Atomic::Int(n) => AtomView::Int(*n as int),
            Atomic::Float(d) => AtomView::Float(d.negative, d.int_digits@, d.frac_digits@),
            Atomic::Ident(s) => AtomView::Ident(s@),
        }
    }
}

/// A parsed s-expression. Lists are cons chains of `Exp { head, tail }`
/// ending in `Unit`, which also stands for the empty list `()` (nil).
#[derive(Debug, Clone)]
pub enum Sexp {
    /// The empty list / nil sentinel.
    Unit,
    /// An atom: int, float, string, or identifier.
    Atom(Atomic),
    /// A cons cell `(head . tail)`. Proper lists terminate in `Unit`;
    /// improper (dotted) lists end in some other `Sexp`.
    Exp { head: Rc<Sexp>, tail: Rc<Sexp> },
    /// An array `[...]` or map `{...}` literal.
    Collection(Collection),
}

/// A bracketed collection literal.
#[derive(Debug, Clone)]
pub enum Collection {
    /// `[a b c]` — the element forms in order.
    Array(Vec<Rc<Sexp>>),
    /// `{k: v, ...}` — entries with pairwise distinct keys, in the order
    /// their keys first appeared; a repeated key takes the later entry.
    Dict(Vec<(Rc<Sexp>, Rc<Sexp>)>),
}

/// The mathematical value of a [`Sexp`].
pub enum SexpView {
    Unit,
    Atom(AtomView),
    Exp(Box<SexpView>, Box<SexpView>),
    Array(Seq<SexpView>),
    Dict(Seq<(SexpView, SexpView)>),
}

/// The view of a form.
pub open spec fn sexp_view(s: Sexp) -> SexpView
    decreases s, 0nat,
{
    match s {
        Sexp::Unit => SexpView::Unit,
        Sexp::Atom(a) => SexpView::Atom(a@),
        Sexp::Exp { head, tail } => SexpView::Exp(
            Box::new(sexp_view(*head)),
            Box::new(sexp_view(*tail)),
        ),
        Sexp::Collection(Collection::Array(v)) => SexpView::Array(items_view(v@, v@.len())),
        Sexp::Collection(Collection::Dict(v)) => SexpView::Dict(entries_view(v@, v@.len())),
    }
}

/// The views of the first `n` forms of `items`.
pub open spec fn items_view(items: Seq<Rc<Sexp>>, n: nat) -> Seq<SexpView>
    decreases items, n,
{
    if n == 0 || n > items.len() {
        Seq::empty()
    } else {
        items_view(items, (n - 1) as nat).push(sexp_view(*items[n - 1]))
    }
}

/// The views of the first `n` entries of `entries`.
pub open spec fn entries_view(entries: Seq<(Rc<Sexp>, Rc<Sexp>)>, n: nat) -> Seq<
    (SexpView, SexpView),
>
    decreases entries, n,
{
    if n == 0 || n > entries.len() {
        Seq::empty()
    } else {
        entries_view(entries, (n - 1) as nat).push(
            (sexp_view(*entries[n - 1].0), sexp_view(*entries[n - 1].1)),
        )
    }
}

impl View for Sexp {
    type V = SexpView;

    open spec fn view(&self) -> SexpView {
        sexp_view(*self)
    }
}

impl View for Collection {
    type V = SexpView;

    open spec fn view(&self) -> SexpView {
        sexp_view(Sexp::Collection(*self))
    }
}

/// Structural equality of forms: atoms compare by value, cons cells and
/// arrays element-wise, and maps as sets of entries (the order of entries
/// does not matter).
pub open spec fn sexp_equiv(a: SexpView, b: SexpView) -> bool
    decreases a, 0nat,
{
    match a {
        SexpView::Unit => b is Unit,
        SexpView::Atom(x) => b matches SexpView::Atom(y) && x == y,
        SexpView::Exp(h1, t1) => match b {
            SexpView::Exp(h2, t2) => sexp_equiv(*h1, *h2) && sexp_equiv(*t1, *t2),
            _ => false,
        },
        SexpView::Array(xs) => match b {
            SexpView::Array(ys) => xs.len() == ys.len() && items_equiv(xs, ys, xs.len()),
            _ => false,
        },
        SexpView::Dict(xs) => match b {
            SexpView::Dict(ys) => xs.len() == ys.len() && entries_within(xs, ys, xs.len()),
            _ => false,
        },
    }
}

/// The first `n` elements of `xs` and `ys` are pairwise equal.
pub open spec fn items_equiv(xs: Seq<SexpView>, ys: Seq<SexpView>, n: nat) -> bool
    decreases xs, n,
{
    if n == 0 || n > xs.len() || n > ys.len() {
        n == 0
    } else {
        items_equiv(xs, ys, (n - 1) as nat) && sexp_equiv(xs[n - 1], ys[n - 1])
    }
}

/// Each of the first `n` entries of `xs` has an equal entry in `ys`.
pub open spec fn entries_within(
    xs: Seq<(SexpView, SexpView)>,
    ys: Seq<(SexpView, SexpView)>,
    n: nat,
) -> bool
    decreases xs, n,
{
    if n == 0 || n > xs.len() {
        n == 0
    } else {
        entries_within(xs, ys, (n - 1) as nat) && entry_among(xs[n - 1], ys, ys.len())
    }
}

/// Some of the first `m` entries of `ys` equals the entry `x`.
pub open spec fn entry_among(x: (SexpView, SexpView), ys: Seq<(SexpView, SexpView)>, m: nat) -> bool
    decreases x, m,
{
    if m == 0 || m > ys.len() {
        false
    } else {
        entry_among(x, ys, (m - 1) as nat) || (sexp_equiv(x.0, ys[m - 1].0) && sexp_equiv(
            x.1,
            ys[m - 1].1,
        ))
    }
}

/// The views of a sequence of forms.
pub open spec fn views(forms: Seq<Sexp>) -> Seq<SexpView> {
    Seq::new(forms.len(), |k: int| sexp_view(forms[k]))
}

pub proof fn lemma_views_push(forms: Seq<Sexp>, x: Sexp)
    ensures
        views(forms.push(x)) == views(forms).push(sexp_view(x)),
{
    assert(views(forms.push(x)) =~= views(forms).push(sexp_view(x)));
}

pub proof fn lemma_views_drop_last(forms: Seq<Sexp>)
    requires
        forms.len() > 0,
    ensures
        views(forms.drop_last()) == views(forms).drop_last(),
        views(forms).last() == sexp_view(forms.last()),
{
    assert(views(forms.drop_last()) =~= views(forms).drop_last());
}

pub proof fn lemma_items_view_push(items: Seq<Rc<Sexp>>, x: Rc<Sexp>)
    ensures
        items_view(items.push(x), items.len() + 1) == items_view(items, items.len()).push(
            sexp_view(*x),
        ),
{
    lemma_items_view_len(items.push(x), items.len());
    lemma_items_view_len(items, items.len());
    assert(items_view(items.push(x), items.len()) =~= items_view(items, items.len()));
}

pub proof fn lemma_entries_view_push(entries: Seq<(Rc<Sexp>, Rc<Sexp>)>, x: (Rc<Sexp>, Rc<Sexp>))
    ensures
        entries_view(entries.push(x), entries.len() + 1) == entries_view(
            entries,
            entries.len(),
        ).push((sexp_view(*x.0), sexp_view(*x.1))),
{
    lemma_entries_view_len(entries.push(x), entries.len());
    lemma_entries_view_len(entries, entries.len());
    assert(entries_view(entries.push(x), entries.len()) =~= entries_view(entries, entries.len()));
}

pub proof fn lemma_entries_view_update(
    entries: Seq<(Rc<Sexp>, Rc<Sexp>)>,
    i: int,
    x: (Rc<Sexp>, Rc<Sexp>),
)
    requires
        0 <= i < entries.len(),
    ensures
        entries_view(entries.update(i, x), entries.len()) == entries_view(
            entries,
            entries.len(),
        ).update(i, (sexp_view(*x.0), sexp_view(*x.1))),
{
    lemma_entries_view_len(entries.update(i, x), entries.len());
    lemma_entries_view_len(entries, entries.len());
    assert(entries_view(entries.update(i, x), entries.len()) =~= entries_view(
        entries,
        entries.len(),
    ).update(i, (sexp_view(*x.0), sexp_view(*x.1))));
}

pub proof fn lemma_entries_view_index(entries: Seq<(Rc<Sexp>, Rc<Sexp>)>, i: int)
    requires
        0 <= i < entries.len(),
    ensures
        entries_view(entries, entries.len()).len() == entries.len(),
        entries_view(entries, entries.len())[i] == (
            sexp_view(*entries[i].0),
            sexp_view(*entries[i].1),
        ),
{
    lemma_entries_view_len(entries, entries.len());
}

/// Calls `Rc::clone`: a new handle to the same allocation, so the value is
/// the same.
#[verifier::external_body]
pub(crate) fn share<T>(r: &Rc<T>) -> (res: Rc<T>)
    ensures
        res == *r,
{
    Rc::clone(r)
}

/// Whether two decimal literals are the same number.
fn decimal_eq(a: &Decimal, b: &Decimal) -> (r: bool)
    ensures
        r == (a@ == b@),
{
    if a.negative != b.negative || a.int_digits.len() != b.int_digits.len()
        || a.frac_digits.len() != b.frac_digits.len() {
        return false;
    }
    let mut i: usize = 0;
    while i < a.int_digits.len()
        invariant
            a.int_digits@.len() == b.int_digits@.len(),
            i <= a.int_digits@.len(),
            forall|j: int| 0 <= j < i ==> a.int_digits@[j] == b.int_digits@[j],
        decreases a.int_digits@.len() - i,
    {
        if a.int_digits[i] != b.int_digits[i] {
            return false;
        }
        i = i + 1;
    }
    let mut k: usize = 0;
    while k < a.frac_digits.len()
        invariant
            a.frac_digits@.len() == b.frac_digits@.len(),
            k <= a.frac_digits@.len(),
            forall|j: int| 0 <= j < k ==> a.frac_digits@[j] == b.frac_digits@[j],
        decreases a.frac_digits@.len() - k,
    {
        if a.frac_digits[k] != b.frac_digits[k] {
            return false;
        }
        k = k + 1;
    }
    proof {
        assert(a.int_digits@ =~= b.int_digits@);
        assert(a.frac_digits@ =~= b.frac_digits@);
    }
    true
}

/// Whether two atoms are equal: by content for strings and identifiers, by
/// value for numbers.
pub fn atomic_eq(a: &Atomic, b: &Atomic) -> (r: bool)
    ensures
        r == (a@ == b@),
{
    match (a, b) {
        (Atomic::Str(x), Atomic::Str(y)) => String::eq(x, y),
        (Atomic::Int(x), Atomic::Int(y)) => x == y,
        (Atomic::Float(x), Atomic::Float(y)) => decimal_eq(x, y),
        (Atomic::Ident(x), Atomic::Ident(y)) => {
            let xs: &String = &**x;
            let ys: &String = &**y;
            String::eq(xs, ys)
        },
        _ => false,
    }
}

/// Whether two forms are structurally equal (see [`sexp_equiv`]).
pub fn sexp_eq(a: &Sexp, b: &Sexp) -> (r: bool)
    ensures
        r == sexp_equiv(a@, b@),
    decreases a, 1nat,
{
    match (a, b) {
        (Sexp::Unit, Sexp::Unit) => true,
        (Sexp::Atom(x), Sexp::Atom(y)) => atomic_eq(x, y),
        (Sexp::Exp { head: h1, tail: t1 }, Sexp::Exp { head: h2, tail: t2 }) => {
            sexp_eq(&**h1, &**h2) && sexp_eq(&**t1, &**t2)
        },
        (Sexp::Collection(Collection::Array(xs)), Sexp::Collection(Collection::Array(ys))) => {
            if xs.len() != ys.len() {
                proof {
                    lemma_items_view_len(xs@, xs@.len());
                    lemma_items_view_len(ys@, ys@.len());
                }
                false
            } else {
                items_eq(xs, ys)
            }
        },
        (Sexp::Collection(Collection::Dict(xs)), Sexp::Collection(Collection::Dict(ys))) => {
            if xs.len() != ys.len() {
                proof {
                    lemma_entries_view_len(xs@, xs@.len());
                    lemma_entries_view_len(ys@, ys@.len());
                }
                false
            } else {
                entries_eq(xs, ys)
            }
        },
        _ => false,
    }
}

pub proof fn lemma_items_view_len(items: Seq<Rc<Sexp>>, n: nat)
    requires
        n <= items.len(),
    ensures
        items_view(items, n).len() == n,
        forall|i: int| 0 <= i < n ==> #[trigger] items_view(items, n)[i] == sexp_view(*items[i]),
    decreases n,
{
    if n > 0 {
        lemma_items_view_len(items, (n - 1) as nat);
    }
}

pub proof fn lemma_entries_view_len(entries: Seq<(Rc<Sexp>, Rc<Sexp>)>, n: nat)
    requires
        n <= entries.len(),
    ensures
        entries_view(entries, n).len() == n,
        forall|i: int|
            0 <= i < n ==> #[trigger] entries_view(entries, n)[i] == (
                sexp_view(*entries[i].0),
                sexp_view(*entries[i].1),
            ),
    decreases n,
{
    if n > 0 {
        lemma_entries_view_len(entries, (n - 1) as nat);
    }
}

/// Element-wise equality of two arrays of equal length; `whole` is the
/// array form that holds `xs`.
fn items_eq(xs: &Vec<Rc<Sexp>>, ys: &Vec<Rc<Sexp>>) -> (r: bool)
    requires
        xs@.len() == ys@.len(),
    ensures
        items_view(xs@, xs@.len()).len() == xs@.len(),
        items_view(ys@, ys@.len()).len() == ys@.len(),
        r == items_equiv(items_view(xs@, xs@.len()), items_view(ys@, ys@.len()), xs@.len()),
    decreases xs, 0nat,
{
    let ghost vx = items_view(xs@, xs@.len());
    let ghost vy = items_view(ys@, ys@.len());
    proof {
        lemma_items_view_len(xs@, xs@.len());
        lemma_items_view_len(ys@, ys@.len());
    }
    let mut i: usize = 0;
    while i < xs.len()
        invariant
            i <= xs@.len(),
            xs@.len() == ys@.len(),
            vx == items_view(xs@, xs@.len()),
            vy == items_view(ys@, ys@.len()),
            vx.len() == xs@.len(),
            vy.len() == ys@.len(),
            forall|j: int| 0 <= j < xs@.len() ==> #[trigger] vx[j] == sexp_view(*xs@[j]),
            forall|j: int| 0 <= j < ys@.len() ==> #[trigger] vy[j] == sexp_view(*ys@[j]),
            items_equiv(vx, vy, i as nat),
        decreases xs@.len() - i,
    {
        proof {
            assert(decreases_to!(*xs => *xs@[i as int]));
        }
        let same = sexp_eq(&*xs[i], &*ys[i]);
        if !same {
            proof {
                assert(!items_equiv(vx, vy, (i + 1) as nat));
                lemma_items_equiv_prefix(vx, vy, (i + 1) as nat, xs@.len());
            }
            return false;
        }
        i = i + 1;
    }
    true
}

proof fn lemma_items_equiv_prefix(xs: Seq<SexpView>, ys: Seq<SexpView>, n: nat, m: nat)
    requires
        n <= m <= xs.len(),
        m <= ys.len(),
        !items_equiv(xs, ys, n),
    ensures
        !items_equiv(xs, ys, m),
    decreases m - n,
{
    if n < m {
        lemma_items_equiv_prefix(xs, ys, n, (m - 1) as nat);
    }
}

proof fn lemma_entries_within_prefix(
    xs: Seq<(SexpView, SexpView)>,
    ys: Seq<(SexpView, SexpView)>,
    n: nat,
    m: nat,
)
    requires
        n <= m <= xs.len(),
        !entries_within(xs, ys, n),
    ensures
        !entries_within(xs, ys, m),
    decreases m - n,
{
    if n < m {
        lemma_entries_within_prefix(xs, ys, n, (m - 1) as nat);
    }
}

proof fn lemma_entry_among_prefix(
    x: (SexpView, SexpView),
    ys: Seq<(SexpView, SexpView)>,
    n: nat,
    m: nat,
)
    requires
        n <= m <= ys.len(),
        entry_among(x, ys, n),
    ensures
        entry_among(x, ys, m),
    decreases m - n,
{
    if n < m {
        lemma_entry_among_prefix(x, ys, n, (m - 1) as nat);
    }
}

/// Set equality of two maps with the same number of entries; `whole` is
/// the map form that holds `xs`.
fn entries_eq(xs: &Vec<(Rc<Sexp>, Rc<Sexp>)>, ys: &Vec<(Rc<Sexp>, Rc<Sexp>)>) -> (r: bool)
    requires
        xs@.len() == ys@.len(),
    ensures
        entries_view(xs@, xs@.len()).len() == xs@.len(),
        entries_view(ys@, ys@.len()).len() == ys@.len(),
        r == entries_within(
            entries_view(xs@, xs@.len()),
            entries_view(ys@, ys@.len()),
            xs@.len(),
        ),
    decreases xs, 0nat,
{
    let ghost vx = entries_view(xs@, xs@.len());
    let ghost vy = entries_view(ys@, ys@.len());
    proof {
        lemma_entries_view_len(xs@, xs@.len());
        lemma_entries_view_len(ys@, ys@.len());
    }
    let mut i: usize = 0;
    while i < xs.len()
        invariant
            i <= xs@.len(),
            xs@.len() == ys@.len(),
            vx == entries_view(xs@, xs@.len()),
            vy == entries_view(ys@, ys@.len()),
            vx.len() == xs@.len(),
            vy.len() == ys@.len(),
            forall|j: int|
                0 <= j < xs@.len() ==> #[trigger] vx[j] == (
                    sexp_view(*xs@[j].0),
                    sexp_view(*xs@[j].1),
                ),
            forall|j: int|
                0 <= j < ys@.len() ==> #[trigger] vy[j] == (
                    sexp_view(*ys@[j].0),
                    sexp_view(*ys@[j].1),
                ),
            entries_within(vx, vy, i as nat),
        decreases xs@.len() - i,
    {
        let mut found = false;
        let mut k: usize = 0;
        while k < ys.len()
            invariant
                i < xs@.len(),
                k <= ys@.len(),
                xs@.len() == ys@.len(),
                vx.len() == xs@.len(),
                vy.len() == ys@.len(),
                forall|j: int|
                    0 <= j < xs@.len() ==> #[trigger] vx[j] == (
                        sexp_view(*xs@[j].0),
                        sexp_view(*xs@[j].1),
                    ),
                forall|j: int|
                    0 <= j < ys@.len() ==> #[trigger] vy[j] == (
                        sexp_view(*ys@[j].0),
                        sexp_view(*ys@[j].1),
                    ),
                found == entry_among(vx[i as int], vy, k as nat),
                decreases ys@.len() - k,
        {
            proof {
                assert(decreases_to!(*xs => *xs@[i as int].0));
                assert(decreases_to!(*xs => *xs@[i as int].1));
            }
            if !found {
                let kx: &Sexp = &*xs[i].0;
                let ky: &Sexp = &*ys[k].0;
                if sexp_eq(kx, ky) {
                    let vxs: &Sexp = &*xs[i].1;
                    let vys: &Sexp = &*ys[k].1;
                    found = sexp_eq(vxs, vys);
                }
            } else {
                proof {
                    lemma_entry_among_prefix(vx[i as int], vy, k as nat, (k + 1) as nat);
                }
            }
            k = k + 1;
        }
        if !found {
            proof {
                assert(!entries_within(vx, vy, (i + 1) as nat));
                lemma_entries_within_prefix(vx, vy, (i + 1) as nat, xs@.len());
            }
            return false;
        }
        i = i + 1;
    }
    true
}

impl Drop for Sexp {
    /// Unlinks the cons spine iteratively so that dropping a long list does
    /// not recurse once per element (the derived drop would overflow the
    /// stack on lists tens of thousands of elements long). Nested heads
    /// still drop recursively; their depth is bounded by the reader's
    /// nesting limit. This only releases memory and states nothing.
    #[verifier::external_body]
    fn drop(&mut self)
        opens_invariants none
        no_unwind
    {
        let Sexp::Exp { tail, .. } = self else {
            return;
        };
        let mut cur = std::mem::replace(tail, Rc::new(Sexp::Unit));
        while let Ok(mut node) = Rc::try_unwrap(cur) {
            match &mut node {
                Sexp::Exp { tail, .. } => cur = std::mem::replace(tail, Rc::new(Sexp::Unit)),
                _ => break,
            }
        }
    }
}

impl PartialEq for Sexp {
    fn eq(&self, other: &Self) -> (r: bool) {
        sexp_eq(self, other)
    }
}

impl vstd::std_specs::cmp::PartialEqSpecImpl for Sexp {
    open spec fn obeys_eq_spec() -> bool {
        true
    }

    open spec fn eq_spec(&self, other: &Self) -> bool {
        sexp_equiv(self@, other@)
    }
}

impl PartialEq for Collection {
    fn eq(&self, other: &Self) -> (r: bool) {
        match (self, other) {
            (Collection::Array(xs), Collection::Array(ys)) => {
                if xs.len() != ys.len() {
                    proof {
                        lemma_items_view_len(xs@, xs@.len());
                        lemma_items_view_len(ys@, ys@.len());
                    }
                    false
                } else {
                    items_eq(xs, ys)
                }
            },
            (Collection::Dict(xs), Collection::Dict(ys)) => {
                if xs.len() != ys.len() {
                    proof {
                        lemma_entries_view_len(xs@, xs@.len());
                        lemma_entries_view_len(ys@, ys@.len());
                    }
                    false
                } else {
                    entries_eq(xs, ys)
                }
            },
            _ => false,
        }
    }
}

impl vstd::std_specs::cmp::PartialEqSpecImpl for Collection {
    open spec fn obeys_eq_spec() -> bool {
        true
    }

    open spec fn eq_spec(&self, other: &Self) -> bool {
        sexp_equiv(self@, other@)
    }
}

} // verus!
