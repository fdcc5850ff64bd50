//! Number literals: reading a float literal as its exact decimal, and the
//! facts about digit runs that the scanner relies on.

use crate::parser::grammar::{
    decimal_of, dot_count, first_dot, is_digit, is_number_byte, is_numeral, strip_leading_zeros,
    strip_trailing_zeros,
};
use crate::parser::sexp::Decimal;
use vstd::prelude::*;

verus! {

broadcast use vstd::seq_lib::group_seq_properties;

/// The digits-and-point part of a number literal: `t` without its leading
/// `-`, if any.
pub open spec fn literal_body(t: Seq<u8>) -> Seq<u8> {
    if t.len() > 0 && t[0] == 45u8 {
        t.skip(1)
    } else {
        t
    }
}

/// Whether `t` is a float literal the reader accepts: an optional `-`, then
/// digits and exactly one `.`, with at least one digit.
pub open spec fn is_float_literal(t: Seq<u8>) -> bool {
    let body = literal_body(t);
    &&& forall|k: int| 0 <= k < body.len() ==> is_number_byte(#[trigger] body[k])
    &&& dot_count(body) == 1
    &&& body.len() >= 2
}

/// Whether `t` has the shape of a scanned number literal: a digit, or `-`
/// then a digit, followed by digits and points.
pub open spec fn number_text_form(t: Seq<u8>) -> bool {
    &&& t.len() >= 1
    &&& is_digit(t[0]) || (t[0] == 45u8 && t.len() >= 2 && is_digit(t[1]))
    &&& forall|q: int| 1 <= q < t.len() ==> is_number_byte(#[trigger] t[q])
}

/// A scanned number literal with one point is a float literal.
pub proof fn lemma_float_form(t: Seq<u8>)
    requires
        number_text_form(t),
        dot_count(t) == 1,
    ensures
        is_float_literal(t),
{
    let body = literal_body(t);
    if t[0] == 45u8 {
        lemma_dot_count_first(t);
    }
    assert forall|q: int| 0 <= q < body.len() implies is_number_byte(#[trigger] body[q]) by {
        if t[0] == 45u8 {
            assert(body[q] == t[1 + q]);
        } else {
            assert(body[q] == t[q]);
        }
    }
    if body.len() < 2 {
        assert forall|k: int| 0 <= k < body.len() implies #[trigger] body[k] != 46u8 by {
            if t[0] == 45u8 {
                assert(body[k] == t[1]);
            } else {
                assert(body[k] == t[0]);
            }
        }
        lemma_dot_count_none(body);
    }
}

/// A scanned number literal without points is a numeral.
pub proof fn lemma_numeral_form(t: Seq<u8>)
    requires
        number_text_form(t),
        dot_count(t) == 0,
    ensures
        is_numeral(t),
{
    lemma_dot_count_zero(t);
    let ds = if t.len() > 0 && t[0] == 45u8 {
        t.skip(1)
    } else {
        t
    };
    assert forall|q: int| 0 <= q < ds.len() implies is_digit(#[trigger] ds[q]) by {
        if t[0] == 45u8 {
            assert(ds[q] == t[q + 1]);
        } else {
            assert(ds[q] == t[q]);
        }
    }
}

pub proof fn lemma_dot_count_zero(t: Seq<u8>)
    requires
        dot_count(t) == 0,
    ensures
        forall|k: int| 0 <= k < t.len() ==> #[trigger] t[k] != 46u8,
    decreases t.len(),
{
    if t.len() > 0 {
        lemma_dot_count_zero(t.drop_last());
        assert forall|k: int| 0 <= k < t.len() implies #[trigger] t[k] != 46u8 by {
            if k < t.len() - 1 {
                assert(t[k] == t.drop_last()[k]);
            }
        }
    }
}

pub proof fn lemma_dot_count_none(t: Seq<u8>)
    requires
        forall|k: int| 0 <= k < t.len() ==> #[trigger] t[k] != 46u8,
    ensures
        dot_count(t) == 0,
    decreases t.len(),
{
    if t.len() > 0 {
        assert forall|k: int| 0 <= k < t.drop_last().len() implies #[trigger] t.drop_last()[k]
            != 46u8 by {
            assert(t.drop_last()[k] == t[k]);
        }
        lemma_dot_count_none(t.drop_last());
    }
}

pub proof fn lemma_dot_count_push(t: Seq<u8>, b: u8)
    ensures
        dot_count(t.push(b)) == dot_count(t) + if b == 46u8 {
            1nat
        } else {
            0nat
        },
{
    assert(t.push(b).drop_last() =~= t);
}

pub proof fn lemma_dot_count_first(t: Seq<u8>)
    requires
        t.len() > 0,
    ensures
        dot_count(t) == dot_count(t.skip(1)) + if t[0] == 46u8 {
            1nat
        } else {
            0nat
        },
    decreases t.len(),
{
    if t.len() > 1 {
        lemma_dot_count_first(t.drop_last());
        assert(t.drop_last().skip(1) =~= t.skip(1).drop_last());
    } else {
        assert(t.skip(1) =~= Seq::<u8>::empty());
        assert(t.drop_last() =~= Seq::<u8>::empty());
    }
}

proof fn lemma_first_dot(t: Seq<u8>, k: int)
    requires
        0 <= k < t.len(),
        t[k] == 46u8,
        forall|m: int| 0 <= m < k ==> #[trigger] t[m] != 46u8,
    ensures
        first_dot(t) == k,
    decreases k,
{
    if k > 0 {
        assert forall|m: int| 0 <= m < k - 1 implies #[trigger] t.skip(1)[m] != 46u8 by {
            assert(t.skip(1)[m] == t[m + 1]);
        }
        lemma_first_dot(t.skip(1), k - 1);
    }
}

proof fn lemma_strip_leading(ds: Seq<u8>, z: int)
    requires
        0 <= z <= ds.len(),
        forall|m: int| 0 <= m < z ==> #[trigger] ds[m] == 48u8,
        z == ds.len() || ds[z] != 48u8,
    ensures
        strip_leading_zeros(ds) == ds.skip(z),
    decreases z,
{
    if z > 0 {
        assert forall|m: int| 0 <= m < z - 1 implies #[trigger] ds.skip(1)[m] == 48u8 by {
            assert(ds.skip(1)[m] == ds[m + 1]);
        }
        lemma_strip_leading(ds.skip(1), z - 1);
        assert(ds.skip(1).skip(z - 1) =~= ds.skip(z));
    } else {
        assert(ds.skip(0) =~= ds);
    }
}

proof fn lemma_strip_trailing(ds: Seq<u8>, e: int)
    requires
        0 <= e <= ds.len(),
        forall|m: int| e <= m < ds.len() ==> #[trigger] ds[m] == 48u8,
        e == 0 || ds[e - 1] != 48u8,
    ensures
        strip_trailing_zeros(ds) == ds.take(e),
    decreases ds.len() - e,
{
    if e < ds.len() {
        lemma_strip_trailing(ds.drop_last(), e);
        assert(ds.drop_last().take(e) =~= ds.take(e));
    } else {
        assert(ds.take(e) =~= ds);
        if e > 0 {
            assert(ds.last() != 48u8);
        }
    }
}

/// Copies `t[from..to]` into a new vector.
fn copy_range(t: &[u8], from: usize, to: usize) -> (r: Vec<u8>)
    requires
        from <= to <= t@.len(),
    ensures
        r@ == t@.subrange(from as int, to as int),
{
    let mut r: Vec<u8> = Vec::new();
    let mut k = from;
    while k < to
        invariant
            from <= k <= to <= t@.len(),
            r@ == t@.subrange(from as int, k as int),
        decreases to - k,
    {
        r.push(t[k]);
        proof {
            assert(t@.subrange(from as int, k + 1) =~= t@.subrange(from as int, k as int).push(
                t@[k as int],
            ));
        }
        k = k + 1;
    }
    r
}

/// Scans `t[start..]`: `None` if it holds a byte other than a digit or a
/// point, otherwise how many points it holds and where the first one is
/// (`t.len()` when there is none).
fn scan_points(t: &[u8], start: usize) -> (r: Option<(usize, usize)>)
    requires
        start <= t@.len(),
    ensures
        r is None <==> exists|m: int| start <= m < t@.len() && !is_number_byte(#[trigger] t@[m]),
        r matches Some((dots, first)) ==> {
            &&& dots == dot_count(t@.skip(start as int))
            &&& (dots == 0 <==> first == t@.len())
            &&& first <= t@.len()
            &&& first < t@.len() ==> start <= first && t@[first as int] == 46u8 && forall|m: int|
                start <= m < first ==> #[trigger] t@[m] != 46u8
        },
{
    let ghost body = t@.skip(start as int);
    let mut k: usize = start;
    let mut dots: usize = 0;
    let mut first: usize = t.len();
    while k < t.len()
        invariant
            start <= k <= t@.len(),
            body == t@.skip(start as int),
            dots == dot_count(body.take(k - start)),
            dots <= k - start,
            (dots == 0 <==> first == t@.len()),
            first <= t@.len(),
            first == t@.len() ==> forall|m: int| start <= m < k ==> #[trigger] t@[m] != 46u8,
            first < t@.len() ==> start <= first < k && t@[first as int] == 46u8 && forall|m: int|
                start <= m < first ==> #[trigger] t@[m] != 46u8,
            forall|m: int| start <= m < k ==> is_number_byte(#[trigger] t@[m]),
        decreases t@.len() - k,
    {
        let b = t[k];
        if !((48u8 <= b && b <= 57u8) || b == 46u8) {
            return None;
        }
        proof {
            assert(body.take(k - start + 1) =~= body.take(k - start).push(b));
            lemma_dot_count_push(body.take(k - start), b);
        }
        if b == 46u8 {
            if first == t.len() {
                first = k;
            }
            dots = dots + 1;
        }
        k = k + 1;
    }
    proof {
        assert(body.take(t@.len() - start) =~= body);
    }
    Some((dots, first))
}

/// `strip_leading_zeros(t[from..to])`.
fn int_digits(t: &[u8], from: usize, to: usize) -> (r: Vec<u8>)
    requires
        from <= to <= t@.len(),
    ensures
        r@ == strip_leading_zeros(t@.subrange(from as int, to as int)),
{
    let mut z = from;
    while z < to && t[z] == 48u8
        invariant
            from <= z <= to <= t@.len(),
            forall|m: int| from <= m < z ==> #[trigger] t@[m] == 48u8,
        decreases to - z,
    {
        z = z + 1;
    }
    proof {
        let ip = t@.subrange(from as int, to as int);
        assert forall|m: int| 0 <= m < z - from implies #[trigger] ip[m] == 48u8 by {
            assert(ip[m] == t@[m + from]);
        }
        if z < to {
            assert(ip[z - from] == t@[z as int]);
        }
        lemma_strip_leading(ip, z - from);
        assert(ip.skip(z - from) =~= t@.subrange(z as int, to as int));
    }
    copy_range(t, z, to)
}

/// `strip_trailing_zeros(t[from..])`.
fn frac_digits(t: &[u8], from: usize) -> (r: Vec<u8>)
    requires
        from <= t@.len(),
    ensures
        r@ == strip_trailing_zeros(t@.skip(from as int)),
{
    let mut e = t.len();
    while e > from && t[e - 1] == 48u8
        invariant
            from <= e <= t@.len(),
            forall|m: int| e <= m < t@.len() ==> #[trigger] t@[m] == 48u8,
        decreases e,
    {
        e = e - 1;
    }
    proof {
        let fp = t@.skip(from as int);
        assert forall|m: int| e - from <= m < fp.len() implies #[trigger] fp[m] == 48u8 by {
            assert(fp[m] == t@[m + from]);
        }
        if e > from {
            assert(fp[e - from - 1] == t@[e - 1]);
        }
        lemma_strip_trailing(fp, e - from);
        assert(fp.take(e - from) =~= t@.subrange(from as int, e as int));
    }
    copy_range(t, from, e)
}

impl Decimal {
    /// Reads a float literal — an optional `-`, digits and exactly one `.`
    /// with at least one digit, like `1.5`, `-0.25` or `1.` — as the exact
    /// decimal it spells. `None` for anything else.
    pub fn from_literal(t: &[u8]) -> (r: Option<Decimal>)
        ensures
            r is Some <==> is_float_literal(t@),
            r matches Some(d) ==> d@ == decimal_of(t@),
    {
        let neg = t.len() > 0 && t[0] == 45u8;
        let start: usize = if neg {
            1
        } else {
            0
        };
        let ghost body = literal_body(t@);
        proof {
            if !neg {
                assert(t@.skip(0) =~= t@);
            }
            assert(body =~= t@.skip(start as int));
        }
        let scanned = scan_points(t, start);
        match scanned {
            None => {
                proof {
                    let m = choose|m: int| start <= m < t@.len() && !is_number_byte(#[trigger] t@[m]);
                    assert(body[m - start] == t@[m]);
                }
                None
            },
            Some((dots, first)) => {
                if dots != 1 || t.len() - start < 2 {
                    return None;
                }
                proof {
                    assert forall|m: int| 0 <= m < body.len() implies is_number_byte(
                        #[trigger] body[m],
                    ) by {
                        assert(body[m] == t@[m + start]);
                        if !is_number_byte(t@[m + start]) {
                            assert(exists|q: int|
                                start <= q < t@.len() && !is_number_byte(#[trigger] t@[q]));
                        }
                    }
                    assert forall|m: int| 0 <= m < first - start implies #[trigger] body[m]
                        != 46u8 by {
                        assert(body[m] == t@[m + start]);
                    }
                    lemma_first_dot(body, first - start);
                    assert(body.take(first - start) =~= t@.subrange(start as int, first as int));
                    assert(body.skip(first - start + 1) =~= t@.skip(first + 1));
                }
                let int_part = int_digits(t, start, first);
                let frac_part = frac_digits(t, first + 1);
                let negative = neg && (int_part.len() > 0 || frac_part.len() > 0);
                Some(Decimal { negative, int_digits: int_part, frac_digits: frac_part })
            },
        }
    }
}

} // verus!
