//! The reader's grammar as mathematics: what reading any input yields.
//!
//! Every function here takes the whole input `s` and an offset `i` into it
//! (plus the count `d` of `(` read and not yet closed, which decides whether
//! a `)` is stray) and says what the reader produces from that point: a
//! value with the offset and count after it, or the failure it reports.

use crate::parser::error::ParseErrorView;
use crate::parser::position::position_at;
use crate::parser::sexp::{AtomView, SexpView, sexp_equiv};
use vstd::prelude::*;
use vstd::utf8::{valid_utf8, decode_utf8};

verus! {

/// Maximum nesting depth of forms. Each list/array/map level recurses once;
/// this cap turns pathological inputs (e.g. a million `(`s) into a
/// `TooDeep` error instead of a stack overflow.
pub const MAX_NESTING_DEPTH: usize = 256;

/// How reading can stop short of a value: with a [`ParseError`](crate::ParseError),
/// or at a `]`, `}` or `:` where a form should begin, on which reading
/// cannot go on at all.
pub enum Failure {
    Error(ParseErrorView),
    StrayDelimiter,
}

/// A value read from offset `i`, with the offset and open-paren count after it.
pub type Read<T> = Result<(T, int, int), Failure>;

// ----- bytes -----

pub open spec fn is_ws(b: u8) -> bool {
    b == 10u8 || b == 13u8 || b == 9u8 || b == 32u8
}

/// Bytes that end an identifier.
pub open spec fn is_ident_sep(b: u8) -> bool {
    is_ws(b) || b == 59u8 || b == 40u8 || b == 41u8 || b == 91u8 || b == 93u8 || b == 123u8
        || b == 125u8 || b == 58u8
}

pub open spec fn is_digit(b: u8) -> bool {
    48u8 <= b <= 57u8
}

/// Bytes a number literal continues with: digits and `.`.
pub open spec fn is_number_byte(b: u8) -> bool {
    is_digit(b) || b == 46u8
}

/// The three kinds of byte run the scanner reads in one go.
pub enum Run {
    Whitespace,
    Number,
    Ident,
}

pub open spec fn in_run(run: Run, b: u8) -> bool {
    match run {
        Run::Whitespace => is_ws(b),
        Run::Number => is_number_byte(b),
        Run::Ident => !is_ident_sep(b),
    }
}

/// The end of the run of `run` bytes that starts at `i`.
pub open spec fn run_end(s: Seq<u8>, i: int, run: Run) -> int
    decreases s.len() - i,
{
    if 0 <= i < s.len() && in_run(run, s[i]) {
        run_end(s, i + 1, run)
    } else {
        i
    }
}

/// The offset just past the first newline at or after `i`, or the end of
/// input if there is none.
pub open spec fn line_end(s: Seq<u8>, i: int) -> int
    decreases s.len() - i,
{
    if i < 0 || i >= s.len() {
        s.len() as int
    } else if s[i] == 10u8 {
        i + 1
    } else {
        line_end(s, i + 1)
    }
}

pub proof fn lemma_run_end(s: Seq<u8>, i: int, run: Run)
    requires
        0 <= i <= s.len(),
    ensures
        i <= run_end(s, i, run) <= s.len(),
        forall|k: int| i <= k < run_end(s, i, run) ==> in_run(run, #[trigger] s[k]),
        run_end(s, i, run) < s.len() ==> !in_run(run, s[run_end(s, i, run)]),
    decreases s.len() - i,
{
    if i < s.len() && in_run(run, s[i]) {
        lemma_run_end(s, i + 1, run);
    }
}

pub proof fn lemma_line_end(s: Seq<u8>, i: int)
    requires
        0 <= i <= s.len(),
    ensures
        i <= line_end(s, i) <= s.len(),
        i < s.len() ==> i < line_end(s, i),
        forall|k: int| i <= k < line_end(s, i) - 1 ==> #[trigger] s[k] != 10u8,
        line_end(s, i) < s.len() ==> s[line_end(s, i) - 1] == 10u8,
        line_end(s, i) == s.len() && i < s.len() ==> (s[s.len() - 1] == 10u8 || forall|k: int|
            i <= k < s.len() ==> #[trigger] s[k] != 10u8),
    decreases s.len() - i,
{
    if i < s.len() && s[i] != 10u8 {
        lemma_line_end(s, i + 1);
    }
}

/// `;;` opens a line comment at `j`.
pub open spec fn comment_at(s: Seq<u8>, j: int) -> bool {
    0 <= j && j + 1 < s.len() && s[j] == 59u8 && s[j + 1] == 59u8
}

/// The offset after the whitespace and `;;` comments starting at `i`.
pub open spec fn skip_trivia(s: Seq<u8>, i: int) -> int
    decreases s.len() - i,
{
    if i < 0 || i > s.len() {
        i
    } else {
        let j = run_end(s, i, Run::Whitespace);
        if comment_at(s, j) {
            proof {
                lemma_run_end(s, i, Run::Whitespace);
                lemma_line_end(s, j);
            }
            skip_trivia(s, line_end(s, j))
        } else {
            j
        }
    }
}

pub proof fn lemma_skip_trivia(s: Seq<u8>, i: int)
    requires
        0 <= i <= s.len(),
    ensures
        i <= skip_trivia(s, i) <= s.len(),
        skip_trivia(s, i) < s.len() ==> !is_ws(s[skip_trivia(s, i)]) && !comment_at(
            s,
            skip_trivia(s, i),
        ),
    decreases s.len() - i,
{
    let j = run_end(s, i, Run::Whitespace);
    lemma_run_end(s, i, Run::Whitespace);
    if comment_at(s, j) {
        lemma_line_end(s, j);
        lemma_skip_trivia(s, line_end(s, j));
    }
}

// ----- failures -----

pub open spec fn eof_at(s: Seq<u8>, i: int) -> Failure {
    Failure::Error(ParseErrorView::UnexpectedEof(position_at(s, i)))
}

/// Reading one byte at `i`: a `(` opens, a `)` closes (and is stray when
/// nothing is open).
pub open spec fn read_byte(s: Seq<u8>, i: int, d: int) -> Read<u8> {
    if i < 0 || i >= s.len() {
        Err(eof_at(s, i))
    } else if s[i] == 40u8 {
        Ok((s[i], i + 1, d + 1))
    } else if s[i] == 41u8 {
        if d <= 0 {
            Err(Failure::Error(ParseErrorView::UnexpectedCloseParen(position_at(s, i))))
        } else {
            Ok((s[i], i + 1, d - 1))
        }
    } else {
        Ok((s[i], i + 1, d))
    }
}

/// The two bytes at `i` (the second reads as 0 past the end of input).
pub open spec fn second_byte(s: Seq<u8>, i: int) -> u8 {
    if 0 <= i + 1 < s.len() {
        s[i + 1]
    } else {
        0u8
    }
}

// ----- strings -----

/// The byte an escape `\e` stands for, if `e` is a recognised escape.
pub open spec fn unescape(e: u8) -> Option<u8> {
    if e == 34u8 || e == 92u8 {
        Some(e)
    } else if e == 110u8 {
        Some(10u8)
    } else if e == 114u8 {
        Some(13u8)
    } else if e == 116u8 {
        Some(9u8)
    } else {
        None
    }
}

/// The bytes of a string literal from `i` (just past the opening quote) up
/// to and including the closing quote, appended to `acc`.
pub open spec fn string_body(s: Seq<u8>, i: int, d: int, acc: Seq<u8>) -> Read<Seq<u8>>
    decreases s.len() - i,
{
    match read_byte(s, i, d) {
        Err(f) => Err(f),
        Ok((b, i1, d1)) => if b == 34u8 {
            Ok((acc, i1, d1))
        } else if b == 92u8 {
            match read_byte(s, i1, d1) {
                Err(f) => Err(f),
                Ok((e, i2, d2)) => match unescape(e) {
                    Some(c) => string_body(s, i2, d2, acc.push(c)),
                    None => Err(
                        Failure::Error(
                            ParseErrorView::InvalidEscape(e as char, position_at(s, i2)),
                        ),
                    ),
                },
            }
        } else {
            string_body(s, i1, d1, acc.push(b))
        },
    }
}

/// A string literal whose opening quote is at `i`.
pub open spec fn scan_str(s: Seq<u8>, i: int, d: int) -> Read<SexpView> {
    match read_byte(s, i, d) {
        Err(f) => Err(f),
        Ok((_, i1, d1)) => match string_body(s, i1, d1, Seq::empty()) {
            Err(f) => Err(f),
            Ok((bytes, j, dj)) => if valid_utf8(bytes) {
                Ok((SexpView::Atom(AtomView::Str(decode_utf8(bytes))), j, dj))
            } else {
                Err(Failure::Error(ParseErrorView::Utf8(position_at(s, j))))
            },
        },
    }
}

// ----- numbers -----

/// The value of a run of decimal digits.
pub open spec fn digits_value(ds: Seq<u8>) -> int
    decreases ds.len(),
{
    if ds.len() == 0 {
        0
    } else {
        digits_value(ds.drop_last()) * 10 + (ds.last() - 48)
    }
}

/// The value of an integer numeral: optional `-`, then digits.
pub open spec fn numeral_value(t: Seq<u8>) -> int {
    if t.len() > 0 && t[0] == 45u8 {
        -digits_value(t.skip(1))
    } else {
        digits_value(t)
    }
}

/// Whether `t` is a numeral: an optional `-` followed by one or more digits.
pub open spec fn is_numeral(t: Seq<u8>) -> bool {
    let ds = if t.len() > 0 && t[0] == 45u8 {
        t.skip(1)
    } else {
        t
    };
    ds.len() > 0 && forall|k: int| 0 <= k < ds.len() ==> is_digit(#[trigger] ds[k])
}

/// How many `.` the bytes hold.
pub open spec fn dot_count(t: Seq<u8>) -> nat
    decreases t.len(),
{
    if t.len() == 0 {
        0
    } else {
        dot_count(t.drop_last()) + if t.last() == 46u8 {
            1nat
        } else {
            0nat
        }
    }
}

/// The offset of the first `.` in `t` (its length if there is none).
pub open spec fn first_dot(t: Seq<u8>) -> int
    decreases t.len(),
{
    if t.len() == 0 {
        0
    } else if t[0] == 46u8 {
        0
    } else {
        1 + first_dot(t.skip(1))
    }
}

pub open spec fn strip_leading_zeros(ds: Seq<u8>) -> Seq<u8>
    decreases ds.len(),
{
    if ds.len() > 0 && ds[0] == 48u8 {
        strip_leading_zeros(ds.skip(1))
    } else {
        ds
    }
}

pub open spec fn strip_trailing_zeros(ds: Seq<u8>) -> Seq<u8>
    decreases ds.len(),
{
    if ds.len() > 0 && ds.last() == 48u8 {
        strip_trailing_zeros(ds.drop_last())
    } else {
        ds
    }
}

/// The canonical decimal a float literal `t` (optional `-`, digits, one
/// `.`, digits) spells: sign, integer digits without leading zeros,
/// fraction digits without trailing zeros; zero is not negative.
pub open spec fn decimal_of(t: Seq<u8>) -> (bool, Seq<u8>, Seq<u8>) {
    let neg = t.len() > 0 && t[0] == 45u8;
    let body = if neg {
        t.skip(1)
    } else {
        t
    };
    let k = first_dot(body);
    let int_part = strip_leading_zeros(body.take(k));
    let frac_part = strip_trailing_zeros(body.skip(k + 1));
    (neg && (int_part.len() > 0 || frac_part.len() > 0), int_part, frac_part)
}

/// The atom a number literal `t` (read up to offset `j`) denotes.
pub open spec fn number_atom(s: Seq<u8>, t: Seq<u8>, j: int) -> Result<SexpView, Failure> {
    if !valid_utf8(t) {
        Err(Failure::Error(ParseErrorView::Utf8(position_at(s, j))))
    } else if dot_count(t) > 0 {
        if dot_count(t) == 1 {
            let d = decimal_of(t);
            Ok(SexpView::Atom(AtomView::Float(d.0, d.1, d.2)))
        } else {
            Err(Failure::Error(ParseErrorView::ParseFloat(position_at(s, j))))
        }
    } else if i64::MIN <= numeral_value(t) <= i64::MAX {
        Ok(SexpView::Atom(AtomView::Int(numeral_value(t))))
    } else {
        Err(Failure::Error(ParseErrorView::ParseInt(position_at(s, j))))
    }
}

/// A number literal starting at `i` (a digit, or `-` before a digit).
pub open spec fn scan_number(s: Seq<u8>, i: int, d: int) -> Read<SexpView> {
    let j = run_end(s, i + 1, Run::Number);
    match number_atom(s, s.subrange(i, j), j) {
        Ok(v) => Ok((v, j, d)),
        Err(f) => Err(f),
    }
}

/// An identifier starting at `i`.
pub open spec fn scan_ident(s: Seq<u8>, i: int, d: int) -> Read<SexpView> {
    let j = run_end(s, i, Run::Ident);
    if j == i {
        Err(Failure::StrayDelimiter)
    } else if valid_utf8(s.subrange(i, j)) {
        Ok((SexpView::Atom(AtomView::Ident(decode_utf8(s.subrange(i, j)))), j, d))
    } else {
        Err(Failure::Error(ParseErrorView::Utf8(position_at(s, j))))
    }
}

/// The atom starting at `i`: a string at `"`, a number at a digit (or `-`
/// then a digit), an identifier otherwise.
#[verifier::opaque]
pub open spec fn scan_atomic(s: Seq<u8>, i: int, d: int) -> Read<SexpView> {
    if i < 0 || i >= s.len() {
        Err(eof_at(s, i))
    } else if s[i] == 34u8 {
        scan_str(s, i, d)
    } else if is_digit(s[i]) || (s[i] == 45u8 && is_digit(second_byte(s, i))) {
        scan_number(s, i, d)
    } else {
        scan_ident(s, i, d)
    }
}

/// Reading a string body consumes at least its closing quote.
pub proof fn lemma_string_body_progress(s: Seq<u8>, i: int, d: int, acc: Seq<u8>)
    ensures
        string_body(s, i, d, acc) matches Ok((_, j, _)) ==> i < j <= s.len(),
    decreases s.len() - i,
{
    if 0 <= i < s.len() {
        let (b, i1, d1) = read_byte(s, i, d)->Ok_0;
        if read_byte(s, i, d) is Ok && b != 34u8 {
            if b == 92u8 {
                if read_byte(s, i1, d1) is Ok {
                    let (e, i2, d2) = read_byte(s, i1, d1)->Ok_0;
                    if unescape(e) is Some {
                        lemma_string_body_progress(s, i2, d2, acc.push(unescape(e)->Some_0));
                    }
                }
            } else {
                lemma_string_body_progress(s, i1, d1, acc.push(b));
            }
        }
    }
}

/// An atom, when one is read, takes up at least one byte.
pub proof fn lemma_scan_atomic_progress(s: Seq<u8>, i: int, d: int)
    requires
        0 <= i,
    ensures
        scan_atomic(s, i, d) matches Ok((_, j, _)) ==> i < j <= s.len(),
{
    reveal(scan_atomic);
    if i < s.len() {
        if s[i] == 34u8 {
            lemma_string_body_progress(s, i + 1, d, Seq::empty());
        } else if is_digit(s[i]) || (s[i] == 45u8 && is_digit(second_byte(s, i))) {
            lemma_run_end(s, i + 1, Run::Number);
        } else {
            lemma_run_end(s, i, Run::Ident);
        }
    }
}

// ----- forms -----

/// The list `(e0 e1 ... . tail)`.
pub open spec fn build_list(elems: Seq<SexpView>, tail: SexpView) -> SexpView
    decreases elems.len(),
{
    if elems.len() == 0 {
        tail
    } else {
        build_list(
            elems.drop_last(),
            SexpView::Exp(Box::new(elems.last()), Box::new(tail)),
        )
    }
}

/// The identifier atom named by the ASCII bytes `name`.
pub open spec fn ident_named(name: Seq<char>) -> SexpView {
    SexpView::Atom(AtomView::Ident(name))
}

/// `(name operand)`.
pub open spec fn wrapped(name: Seq<char>, operand: SexpView) -> SexpView {
    SexpView::Exp(
        Box::new(ident_named(name)),
        Box::new(SexpView::Exp(Box::new(operand), Box::new(SexpView::Unit))),
    )
}

/// The index of the first entry of `entries[..n]` whose key equals `k`.
pub open spec fn find_key(entries: Seq<(SexpView, SexpView)>, k: SexpView, n: nat) -> Option<int>
    decreases n,
{
    if n == 0 || n > entries.len() {
        None
    } else {
        match find_key(entries, k, (n - 1) as nat) {
            Some(i) => Some(i),
            None => if sexp_equiv(entries[n - 1].0, k) {
                Some(n - 1)
            } else {
                None
            },
        }
    }
}

/// `entries` with `k` bound to `v`: an entry with an equal key is replaced
/// in place, otherwise the entry goes at the end.
pub open spec fn dict_insert(entries: Seq<(SexpView, SexpView)>, k: SexpView, v: SexpView) -> Seq<
    (SexpView, SexpView),
> {
    match find_key(entries, k, entries.len()) {
        Some(i) => entries.update(i, (k, v)),
        None => entries.push((k, v)),
    }
}

/// What a lookup finds is an entry with an equal key.
pub proof fn lemma_find_key_found(entries: Seq<(SexpView, SexpView)>, k: SexpView, n: nat)
    requires
        n <= entries.len(),
    ensures
        find_key(entries, k, n) matches Some(j) ==> 0 <= j < n && sexp_equiv(entries[j].0, k),
        find_key(entries, k, n) is None ==> forall|j: int|
            0 <= j < n ==> !sexp_equiv(#[trigger] entries[j].0, k),
    decreases n,
{
    if n > 0 {
        lemma_find_key_found(entries, k, (n - 1) as nat);
    }
}

pub open spec fn quote_name() -> Seq<char> {
    "quote"@
}

pub open spec fn quasi_name() -> Seq<char> {
    "quasi"@
}

pub open spec fn unquote_name() -> Seq<char> {
    "unquote"@
}

pub open spec fn unquote_splice_name() -> Seq<char> {
    "unquote-splice"@
}

/// A form starting at or after `i`, read at nesting depth `depth`.
pub open spec fn parse_expr(s: Seq<u8>, i: int, d: int, depth: nat) -> Read<SexpView>
    decreases MAX_NESTING_DEPTH - depth, s.len() - i, 0nat,
{
    if depth >= MAX_NESTING_DEPTH {
        Err(
            Failure::Error(
                ParseErrorView::TooDeep(position_at(s, i), MAX_NESTING_DEPTH as int),
            ),
        )
    } else if i < 0 || i > s.len() {
        Err(eof_at(s, i))
    } else {
        parse_form(s, i, d, depth + 1)
    }
}

/// The body of [`parse_expr`] once the depth guard has passed: trivia,
/// then the form that starts at the first byte after it.
pub open spec fn parse_form(s: Seq<u8>, i: int, d: int, depth: nat) -> Read<SexpView>
    decreases MAX_NESTING_DEPTH - depth, s.len() - i, 2nat,
{
    if depth > MAX_NESTING_DEPTH || i < 0 || i > s.len() {
        Err(eof_at(s, i))
    } else {
        let j = skip_trivia(s, i);
        proof {
            lemma_skip_trivia(s, i);
        }
        form_at(s, j, d, depth)
    }
}

/// The form whose first byte is at `j`, chosen by that byte: `(` a list,
/// `[` an array, `{` a map, `'` `` ` `` `,` `,@` a reader macro, and an
/// atom otherwise; `)` and a lone `;` cannot begin a form.
pub open spec fn form_at(s: Seq<u8>, j: int, d: int, depth: nat) -> Read<SexpView>
    decreases MAX_NESTING_DEPTH - depth, s.len() - j, 1nat,
{
    if depth > MAX_NESTING_DEPTH || j < 0 || j >= s.len() {
        Err(eof_at(s, j))
    } else {
        let b = s[j];
        if b == 40u8 {
            parse_list_tail(s, j + 1, d + 1, depth, Seq::empty())
        } else if b == 91u8 {
            parse_array_form(s, j, d, depth)
        } else if b == 123u8 {
            parse_map_form(s, j, d, depth)
        } else if b == 39u8 {
            wrap_prefix(s, j + 1, d, depth, quote_name())
        } else if b == 96u8 {
            wrap_prefix(s, j + 1, d, depth, quasi_name())
        } else if b == 44u8 {
            if second_byte(s, j) == 64u8 {
                wrap_prefix(s, j + 2, d, depth, unquote_splice_name())
            } else {
                wrap_prefix(s, j + 1, d, depth, unquote_name())
            }
        } else if b == 41u8 {
            Err(Failure::Error(ParseErrorView::UnexpectedCloseParen(position_at(s, j))))
        } else if b == 59u8 {
            Err(Failure::Error(ParseErrorView::StraySemicolon(position_at(s, j))))
        } else {
            scan_atomic(s, j, d)
        }
    }
}

/// The array literal whose `[` is at `j`.
#[verifier::opaque]
pub open spec fn parse_array_form(s: Seq<u8>, j: int, d: int, depth: nat) -> Read<SexpView>
    decreases MAX_NESTING_DEPTH - depth, s.len() - j, 0nat,
{
    if depth > MAX_NESTING_DEPTH || j < 0 || j >= s.len() {
        Err(eof_at(s, j))
    } else {
        match parse_array_items(s, j + 1, d, depth, Seq::empty()) {
            Err(f) => Err(f),
            Ok((items, k, dk)) => match read_byte(s, k, dk) {
                Err(f) => Err(f),
                Ok((c, k1, dk1)) => if c == 93u8 {
                    Ok((SexpView::Array(items), k1, dk1))
                } else {
                    Err(
                        Failure::Error(
                            ParseErrorView::ExpectedToken(']', position_at(s, k), c as char),
                        ),
                    )
                },
            },
        }
    }
}

/// The map literal whose `{` is at `j`.
#[verifier::opaque]
pub open spec fn parse_map_form(s: Seq<u8>, j: int, d: int, depth: nat) -> Read<SexpView>
    decreases MAX_NESTING_DEPTH - depth, s.len() - j, 0nat,
{
    if depth > MAX_NESTING_DEPTH || j < 0 || j >= s.len() {
        Err(eof_at(s, j))
    } else {
        match parse_map_entries(s, j + 1, d, depth, Seq::empty()) {
            Err(f) => Err(f),
            Ok((entries, k, dk)) => match read_byte(s, k, dk) {
                Err(f) => Err(f),
                Ok((c, k1, dk1)) => if c == 125u8 {
                    Ok((SexpView::Dict(entries), k1, dk1))
                } else {
                    Err(
                        Failure::Error(
                            ParseErrorView::ExpectedToken('}', position_at(s, k), c as char),
                        ),
                    )
                },
            },
        }
    }
}

/// `(name X)` where X is the form read from `i`.
pub open spec fn wrap_prefix(s: Seq<u8>, i: int, d: int, depth: nat, name: Seq<char>) -> Read<
    SexpView,
>
    decreases MAX_NESTING_DEPTH - depth, s.len() - i, 1nat,
{
    if depth > MAX_NESTING_DEPTH || i < 1 || i > s.len() {
        Err(eof_at(s, i))
    } else {
        match parse_expr(s, i, d, depth) {
            Err(f) => Err(f),
            Ok((x, k, dk)) => Ok((wrapped(name, x), k, dk)),
        }
    }
}

/// Whether a lone `.` (followed by whitespace or `)`) stands at `k`.
pub open spec fn dotted_marker(s: Seq<u8>, k: int) -> bool {
    s[k] == 46u8 && (is_ws(second_byte(s, k)) || second_byte(s, k) == 41u8)
}

/// The rest of a list after `(` (and after the elements `elems` already
/// read), up to and including its `)`.
#[verifier::opaque]
pub open spec fn parse_list_tail(
    s: Seq<u8>,
    i: int,
    d: int,
    depth: nat,
    elems: Seq<SexpView>,
) -> Read<SexpView>
    decreases MAX_NESTING_DEPTH - depth, s.len() - i, 2nat,
{
    if depth > MAX_NESTING_DEPTH || i < 0 || i > s.len() {
        Err(eof_at(s, i))
    } else {
        let k = skip_trivia(s, i);
        proof {
            lemma_skip_trivia(s, i);
        }
        if k >= s.len() {
            Err(eof_at(s, k))
        } else if s[k] == 41u8 {
            match read_byte(s, k, d) {
                Err(f) => Err(f),
                Ok((_, k1, dk1)) => Ok((build_list(elems, SexpView::Unit), k1, dk1)),
            }
        } else {
            match parse_expr(s, k, d, depth) {
                Err(f) => Err(f),
                Ok((e, k2, d2)) => {
                    let k3 = skip_trivia(s, k2);
                    proof {
                        if 0 <= k2 <= s.len() {
                            lemma_skip_trivia(s, k2);
                        }
                    }
                    if k2 <= k || k2 > s.len() {
                        Err(Failure::StrayDelimiter)
                    } else if k3 >= s.len() {
                        Err(eof_at(s, k3))
                    } else if dotted_marker(s, k3) {
                        let k4 = skip_trivia(s, k3 + 1);
                        proof {
                            lemma_skip_trivia(s, k2);
                            lemma_skip_trivia(s, k3 + 1);
                        }
                        match parse_expr(s, k4, d2, depth) {
                            Err(f) => Err(f),
                            Ok((last, k5, d5)) => {
                                let k6 = skip_trivia(s, k5);
                                match read_byte(s, k6, d5) {
                                    Err(f) => Err(f),
                                    Ok((c, k7, d7)) => if c == 41u8 {
                                        Ok((build_list(elems.push(e), last), k7, d7))
                                    } else {
                                        Err(
                                            Failure::Error(
                                                ParseErrorView::ExpectedToken(
                                                    ')',
                                                    position_at(s, k6),
                                                    c as char,
                                                ),
                                            ),
                                        )
                                    },
                                }
                            },
                        }
                    } else {
                        parse_list_tail(s, k3, d2, depth, elems.push(e))
                    }
                },
            }
        }
    }
}

/// The elements of an array after `[` (and after `items`), stopping before
/// its `]`.
#[verifier::opaque]
pub open spec fn parse_array_items(
    s: Seq<u8>,
    i: int,
    d: int,
    depth: nat,
    items: Seq<SexpView>,
) -> Read<Seq<SexpView>>
    decreases MAX_NESTING_DEPTH - depth, s.len() - i, 2nat,
{
    if depth > MAX_NESTING_DEPTH || i < 0 || i > s.len() {
        Err(eof_at(s, i))
    } else {
        let k = skip_trivia(s, i);
        proof {
            lemma_skip_trivia(s, i);
        }
        if k >= s.len() {
            Err(eof_at(s, k))
        } else if s[k] == 93u8 {
            Ok((items, k, d))
        } else {
            match parse_expr(s, k, d, depth) {
                Err(f) => Err(f),
                Ok((e, k2, d2)) => if k2 <= k || k2 > s.len() {
                    Err(Failure::StrayDelimiter)
                } else {
                    parse_array_items(s, k2, d2, depth, items.push(e))
                },
            }
        }
    }
}

/// The entries of a map after `{` (and after `entries`), stopping before
/// its `}`.
#[verifier::opaque]
pub open spec fn parse_map_entries(
    s: Seq<u8>,
    i: int,
    d: int,
    depth: nat,
    entries: Seq<(SexpView, SexpView)>,
) -> Read<Seq<(SexpView, SexpView)>>
    decreases MAX_NESTING_DEPTH - depth, s.len() - i, 2nat,
{
    if depth > MAX_NESTING_DEPTH || i < 0 || i > s.len() {
        Err(eof_at(s, i))
    } else {
        let k = skip_trivia(s, i);
        proof {
            lemma_skip_trivia(s, i);
        }
        if k >= s.len() {
            Err(eof_at(s, k))
        } else if s[k] == 125u8 {
            Ok((entries, k, d))
        } else {
            match parse_expr(s, k, d, depth) {
                Err(f) => Err(f),
                Ok((key, k2, d2)) => if k2 <= k || k2 > s.len() {
                    Err(Failure::StrayDelimiter)
                } else {
                    let k3 = skip_trivia(s, k2);
                    proof {
                        lemma_skip_trivia(s, k2);
                    }
                    match read_byte(s, k3, d2) {
                        Err(f) => Err(f),
                        Ok((c, k4, d4)) => if c != 58u8 {
                            Err(
                                Failure::Error(
                                    ParseErrorView::ExpectedToken(
                                        ':',
                                        position_at(s, k4),
                                        c as char,
                                    ),
                                ),
                            )
                        } else {
                            match parse_expr(s, k4, d4, depth) {
                                Err(f) => Err(f),
                                Ok((v, k5, d5)) => if k5 <= k || k5 > s.len() {
                                    Err(Failure::StrayDelimiter)
                                } else {
                                    parse_map_entries(
                                        s,
                                        k5,
                                        d5,
                                        depth,
                                        dict_insert(entries, key, v),
                                    )
                                },
                            }
                        },
                    }
                },
            }
        }
    }
}

/// The top-level forms from `i` on, after the forms `forms` already read.
pub open spec fn parse_forms(s: Seq<u8>, i: int, d: int, forms: Seq<SexpView>) -> Result<
    Seq<SexpView>,
    Failure,
>
    decreases s.len() - i,
{
    if i < 0 || i > s.len() {
        Err(eof_at(s, i))
    } else {
        match parse_expr(s, i, d, 0) {
            Err(f) => Err(f),
            Ok((e, j, dj)) => {
                let k = skip_trivia(s, j);
                if j <= i || j > s.len() {
                    Err(Failure::StrayDelimiter)
                } else {
                    proof {
                        lemma_skip_trivia(s, j);
                    }
                    if k >= s.len() {
                        Ok(forms.push(e))
                    } else {
                        parse_forms(s, k, dj, forms.push(e))
                    }
                }
            },
        }
    }
}

/// The top-level forms from offset `i` (with `d` parens open) to the end
/// of input, or the failure reading stops at. No form before the end is
/// an `UnexpectedEof`.
pub open spec fn parse_program_from(s: Seq<u8>, i: int, d: int) -> Result<Seq<SexpView>, Failure> {
    let j = skip_trivia(s, i);
    if j >= s.len() {
        Err(eof_at(s, j))
    } else {
        parse_forms(s, j, d, Seq::empty())
    }
}

/// Everything the reader makes of `s`: the top-level forms in source
/// order, or the failure it stops at. Empty (or comment-only) input is
/// an `UnexpectedEof`.
pub open spec fn parse_program(s: Seq<u8>) -> Result<Seq<SexpView>, Failure> {
    parse_program_from(s, 0, 0)
}

/// Skipping trivia twice is skipping it once.
pub proof fn law_skip_trivia_idempotent(s: Seq<u8>, i: int)
    requires
        0 <= i <= s.len(),
    ensures
        skip_trivia(s, skip_trivia(s, i)) == skip_trivia(s, i),
{
    lemma_skip_trivia(s, i);
    let j = skip_trivia(s, i);
    lemma_run_end(s, j, Run::Whitespace);
    if j < s.len() {
        assert(run_end(s, j, Run::Whitespace) == j);
    }
}

} // verus!
