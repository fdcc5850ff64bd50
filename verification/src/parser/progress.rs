//! Every form the reader reads takes up at least one byte, and reading
//! stops short of a value only at a `]`, `}` or `:` that stands where a
//! form should begin.

use crate::parser::grammar::{
    Failure, MAX_NESTING_DEPTH, Read, Run, form_at, is_ws, lemma_run_end, lemma_skip_trivia,
    parse_array_form, parse_array_items, parse_expr, parse_form, parse_list_tail,
    parse_map_entries, parse_map_form, parse_program, read_byte, run_end, scan_atomic,
    skip_trivia, string_body, unescape, wrap_prefix,
};
use crate::parser::grammar::{
    parse_forms, quasi_name, quote_name, second_byte, unquote_name, unquote_splice_name,
};
use crate::parser::sexp::SexpView;
use vstd::prelude::*;

verus! {

/// `b` is a `]`, `}` or `:`: a byte that closes or separates but never
/// begins a form.
pub open spec fn is_stray(b: u8) -> bool {
    b == 93u8 || b == 125u8 || b == 58u8
}

/// Some byte at or after `i` is a `]`, `}` or `:`.
pub open spec fn stray_from(s: Seq<u8>, i: int) -> bool {
    exists|k: int| i <= k < s.len() && #[trigger] is_stray(s[k])
}

/// A read from `i` that succeeds ends after `i` and within the input, and
/// one that stops short does so at a `]`, `}` or `:` from `i` on.
pub open spec fn sound<T>(r: Read<T>, s: Seq<u8>, i: int) -> bool {
    &&& r matches Ok((_, j, _)) ==> i < j <= s.len()
    &&& r matches Err(Failure::StrayDelimiter) ==> stray_from(s, i)
}

/// Like [`sound`], for the element lists of arrays and maps, which stop
/// before their closing byte: success ends at or after `i` and before the
/// end of input.
pub open spec fn sound_items<T>(r: Read<T>, s: Seq<u8>, i: int) -> bool {
    &&& r matches Ok((_, j, _)) ==> i <= j < s.len()
    &&& r matches Err(Failure::StrayDelimiter) ==> stray_from(s, i)
}

proof fn lemma_stray_from_earlier(s: Seq<u8>, i: int, k: int)
    requires
        i <= k,
        stray_from(s, k),
    ensures
        stray_from(s, i),
{
    let m = choose|m: int| k <= m < s.len() && #[trigger] is_stray(s[m]);
    assert(i <= m < s.len() && is_stray(s[m]));
}

/// Reading a string body never stops short.
proof fn lemma_string_body_not_stray(s: Seq<u8>, i: int, d: int, acc: Seq<u8>)
    ensures
        !(string_body(s, i, d, acc) matches Err(Failure::StrayDelimiter)),
    decreases s.len() - i,
{
    if 0 <= i < s.len() {
        let (b, i1, d1) = read_byte(s, i, d)->Ok_0;
        if read_byte(s, i, d) is Ok && b != 34u8 {
            if b == 92u8 {
                if read_byte(s, i1, d1) is Ok {
                    let (e, i2, d2) = read_byte(s, i1, d1)->Ok_0;
                    if unescape(e) is Some {
                        lemma_string_body_not_stray(s, i2, d2, acc.push(unescape(e)->Some_0));
                    }
                }
            } else {
                lemma_string_body_not_stray(s, i1, d1, acc.push(b));
            }
        }
    }
}

/// An atom starting at a byte that is no whitespace, no `;` and opens
/// nothing takes up at least one byte, and stops short only at a `]`, `}`
/// or `:`.
proof fn lemma_atomic(s: Seq<u8>, j: int, d: int)
    requires
        0 <= j < s.len(),
        !is_ws(s[j]),
        s[j] != 59u8 && s[j] != 40u8 && s[j] != 41u8 && s[j] != 91u8 && s[j] != 123u8,
    ensures
        sound(scan_atomic(s, j, d), s, j),
{
    reveal(scan_atomic);
    crate::parser::grammar::lemma_scan_atomic_progress(s, j, d);
    if s[j] == 34u8 {
        lemma_string_body_not_stray(s, j + 1, d, Seq::empty());
    } else {
        lemma_run_end(s, j, Run::Ident);
        if run_end(s, j, Run::Ident) == j {
            assert(is_stray(s[j]));
        }
    }
}

proof fn lemma_expr(s: Seq<u8>, i: int, d: int, depth: nat)
    ensures
        sound(parse_expr(s, i, d, depth), s, i),
    decreases MAX_NESTING_DEPTH - depth, s.len() - i, 0nat,
{
    if depth < MAX_NESTING_DEPTH && 0 <= i <= s.len() {
        lemma_form(s, i, d, depth + 1);
    }
}

proof fn lemma_form(s: Seq<u8>, i: int, d: int, depth: nat)
    ensures
        sound(parse_form(s, i, d, depth), s, i),
    decreases MAX_NESTING_DEPTH - depth, s.len() - i, 2nat,
{
    if depth <= MAX_NESTING_DEPTH && 0 <= i <= s.len() {
        lemma_skip_trivia(s, i);
        let j = skip_trivia(s, i);
        lemma_form_at(s, j, d, depth);
        if parse_form(s, i, d, depth) matches Err(Failure::StrayDelimiter) {
            lemma_stray_from_earlier(s, i, j);
        }
    }
}

proof fn lemma_form_at(s: Seq<u8>, j: int, d: int, depth: nat)
    requires
        0 <= j <= s.len(),
        j < s.len() ==> !is_ws(s[j]),
    ensures
        sound(form_at(s, j, d, depth), s, j),
    decreases MAX_NESTING_DEPTH - depth, s.len() - j, 1nat,
{
    if depth <= MAX_NESTING_DEPTH && j < s.len() {
        let b = s[j];
        let r = form_at(s, j, d, depth);
        if b == 40u8 {
            reveal(parse_list_tail);
            lemma_list(s, j + 1, d + 1, depth, Seq::empty());
            if r matches Err(Failure::StrayDelimiter) {
                lemma_stray_from_earlier(s, j, j + 1);
            }
        } else if b == 91u8 {
            reveal(parse_array_form);
            lemma_array_form(s, j, d, depth);
        } else if b == 123u8 {
            reveal(parse_map_form);
            lemma_map_form(s, j, d, depth);
        } else if b == 39u8 {
            lemma_prefix(s, j, d, depth, j + 1, quote_name());
        } else if b == 96u8 {
            lemma_prefix(s, j, d, depth, j + 1, quasi_name());
        } else if b == 44u8 {
            if second_byte(s, j) == 64u8 {
                lemma_prefix(s, j, d, depth, j + 2, unquote_splice_name());
            } else {
                lemma_prefix(s, j, d, depth, j + 1, unquote_name());
            }
        } else if b != 41u8 && b != 59u8 {
            reveal(scan_atomic);
            lemma_atomic(s, j, d);
        }
    }
}

/// A reader macro at `j` whose operand starts at `k`.
proof fn lemma_prefix(s: Seq<u8>, j: int, d: int, depth: nat, k: int, name: Seq<char>)
    requires
        0 <= j < k <= s.len(),
        depth <= MAX_NESTING_DEPTH,
        form_at(s, j, d, depth) == wrap_prefix(s, k, d, depth, name),
    ensures
        sound(form_at(s, j, d, depth), s, j),
    decreases MAX_NESTING_DEPTH - depth, s.len() - j, 0nat,
{
    lemma_wrap(s, k, d, depth, name);
    if form_at(s, j, d, depth) matches Err(Failure::StrayDelimiter) {
        lemma_stray_from_earlier(s, j, k);
    }
}

proof fn lemma_wrap(s: Seq<u8>, i: int, d: int, depth: nat, name: Seq<char>)
    ensures
        sound(wrap_prefix(s, i, d, depth, name), s, i),
    decreases MAX_NESTING_DEPTH - depth, s.len() - i, 1nat,
{
    if depth <= MAX_NESTING_DEPTH && 1 <= i <= s.len() {
        lemma_expr(s, i, d, depth);
    }
}

proof fn lemma_array_form(s: Seq<u8>, j: int, d: int, depth: nat)
    ensures
        sound(parse_array_form(s, j, d, depth), s, j),
    decreases MAX_NESTING_DEPTH - depth, s.len() - j, 0nat,
{
    reveal(parse_array_form);
    reveal(parse_array_items);
    if depth <= MAX_NESTING_DEPTH && 0 <= j < s.len() {
        lemma_items(s, j + 1, d, depth, Seq::empty());
        if parse_array_form(s, j, d, depth) matches Err(Failure::StrayDelimiter) {
            lemma_stray_from_earlier(s, j, j + 1);
        }
    }
}

proof fn lemma_map_form(s: Seq<u8>, j: int, d: int, depth: nat)
    ensures
        sound(parse_map_form(s, j, d, depth), s, j),
    decreases MAX_NESTING_DEPTH - depth, s.len() - j, 0nat,
{
    reveal(parse_map_form);
    reveal(parse_map_entries);
    if depth <= MAX_NESTING_DEPTH && 0 <= j < s.len() {
        lemma_entries(s, j + 1, d, depth, Seq::empty());
        if parse_map_form(s, j, d, depth) matches Err(Failure::StrayDelimiter) {
            lemma_stray_from_earlier(s, j, j + 1);
        }
    }
}

proof fn lemma_items(s: Seq<u8>, i: int, d: int, depth: nat, items: Seq<SexpView>)
    ensures
        sound_items(parse_array_items(s, i, d, depth, items), s, i),
    decreases MAX_NESTING_DEPTH - depth, s.len() - i, 2nat,
{
    reveal(parse_array_items);
    if depth <= MAX_NESTING_DEPTH && 0 <= i <= s.len() {
        lemma_skip_trivia(s, i);
        let k = skip_trivia(s, i);
        if k < s.len() && s[k] != 93u8 {
            lemma_expr(s, k, d, depth);
            if let Ok((e, k2, d2)) = parse_expr(s, k, d, depth) {
                lemma_items(s, k2, d2, depth, items.push(e));
            }
            if parse_array_items(s, i, d, depth, items) matches Err(Failure::StrayDelimiter) {
                if parse_expr(s, k, d, depth) is Ok {
                    let k2 = parse_expr(s, k, d, depth)->Ok_0.1;
                    lemma_stray_from_earlier(s, i, k2);
                } else {
                    lemma_stray_from_earlier(s, i, k);
                }
            }
        }
    }
}

proof fn lemma_entries(
    s: Seq<u8>,
    i: int,
    d: int,
    depth: nat,
    entries: Seq<(SexpView, SexpView)>,
)
    ensures
        sound_items(parse_map_entries(s, i, d, depth, entries), s, i),
    decreases MAX_NESTING_DEPTH - depth, s.len() - i, 2nat,
{
    reveal(parse_map_entries);
    if depth <= MAX_NESTING_DEPTH && 0 <= i <= s.len() {
        lemma_skip_trivia(s, i);
        let k = skip_trivia(s, i);
        if k < s.len() && s[k] != 125u8 {
            lemma_expr(s, k, d, depth);
            if let Ok((key, k2, d2)) = parse_expr(s, k, d, depth) {
                lemma_skip_trivia(s, k2);
                let k3 = skip_trivia(s, k2);
                if let Ok((c, k4, d4)) = read_byte(s, k3, d2) {
                    if c == 58u8 {
                        lemma_expr(s, k4, d4, depth);
                        if let Ok((v, k5, d5)) = parse_expr(s, k4, d4, depth) {
                            lemma_entries(
                                s,
                                k5,
                                d5,
                                depth,
                                crate::parser::grammar::dict_insert(entries, key, v),
                            );
                            if parse_map_entries(s, i, d, depth, entries) matches Err(
                                Failure::StrayDelimiter,
                            ) {
                                lemma_stray_from_earlier(s, i, k5);
                            }
                        } else if parse_map_entries(s, i, d, depth, entries) matches Err(
                            Failure::StrayDelimiter,
                        ) {
                            lemma_stray_from_earlier(s, i, k4);
                        }
                    }
                }
            } else if parse_map_entries(s, i, d, depth, entries) matches Err(
                Failure::StrayDelimiter,
            ) {
                lemma_stray_from_earlier(s, i, k);
            }
        }
    }
}

proof fn lemma_list(s: Seq<u8>, i: int, d: int, depth: nat, elems: Seq<SexpView>)
    ensures
        sound(parse_list_tail(s, i, d, depth, elems), s, i),
    decreases MAX_NESTING_DEPTH - depth, s.len() - i, 2nat,
{
    reveal(parse_list_tail);
    if depth <= MAX_NESTING_DEPTH && 0 <= i <= s.len() {
        lemma_skip_trivia(s, i);
        let k = skip_trivia(s, i);
        let r = parse_list_tail(s, i, d, depth, elems);
        if k < s.len() && s[k] != 41u8 {
            lemma_expr(s, k, d, depth);
            if let Ok((e, k2, d2)) = parse_expr(s, k, d, depth) {
                lemma_skip_trivia(s, k2);
                let k3 = skip_trivia(s, k2);
                if k3 < s.len() {
                    if crate::parser::grammar::dotted_marker(s, k3) {
                        lemma_skip_trivia(s, k3 + 1);
                        let k4 = skip_trivia(s, k3 + 1);
                        lemma_expr(s, k4, d2, depth);
                        if let Ok((last, k5, d5)) = parse_expr(s, k4, d2, depth) {
                            lemma_skip_trivia(s, k5);
                        } else if r matches Err(Failure::StrayDelimiter) {
                            lemma_stray_from_earlier(s, i, k4);
                        }
                    } else {
                        lemma_list(s, k3, d2, depth, elems.push(e));
                        if r matches Err(Failure::StrayDelimiter) {
                            lemma_stray_from_earlier(s, i, k3);
                        }
                    }
                }
            } else if r matches Err(Failure::StrayDelimiter) {
                lemma_stray_from_earlier(s, i, k);
            }
        }
    }
}

/// A form, when one is read, takes up at least one byte and ends within
/// the input; and reading a form stops short of a value only where a `]`,
/// `}` or `:` stands at or after the place it started.
pub proof fn law_form_progress(s: Seq<u8>, i: int, d: int, depth: nat)
    ensures
        sound(parse_expr(s, i, d, depth), s, i),
{
    lemma_expr(s, i, d, depth);
}

proof fn lemma_forms(s: Seq<u8>, i: int, d: int, forms: Seq<SexpView>)
    ensures
        parse_forms(s, i, d, forms) matches Err(Failure::StrayDelimiter) ==> stray_from(s, i),
    decreases s.len() - i,
{
    if 0 <= i <= s.len() {
        lemma_expr(s, i, d, 0);
        if let Ok((e, j, dj)) = parse_expr(s, i, d, 0) {
            lemma_skip_trivia(s, j);
            let k = skip_trivia(s, j);
            if k < s.len() {
                lemma_forms(s, k, dj, forms.push(e));
                if parse_forms(s, i, d, forms) matches Err(Failure::StrayDelimiter) {
                    lemma_stray_from_earlier(s, i, k);
                }
            }
        }
    }
}

/// A program stops short of its forms only when it holds a `]`, `}` or
/// `:` somewhere: every other input reads to its forms or to a
/// [`ParseError`](crate::ParseError).
pub proof fn law_stray_needs_delimiter(s: Seq<u8>)
    ensures
        parse_program(s) matches Err(Failure::StrayDelimiter) ==> stray_from(s, 0),
{
    lemma_skip_trivia(s, 0);
    let j = skip_trivia(s, 0);
    if j < s.len() {
        lemma_forms(s, j, 0, Seq::empty());
        if parse_program(s) matches Err(Failure::StrayDelimiter) {
            lemma_stray_from_earlier(s, 0, j);
        }
    }
}

} // verus!
