//! Byte-level scanning: the layer beneath the grammar.
//!
//! [`Scanner`] owns the [`PeekReader`] and the source [`Position`], and turns
//! raw bytes into the primitives the recursive-descent grammar in the parent
//! module is built from: byte access (look-ahead and consuming reads, each
//! keeping the position in sync), leaf tokens (strings, numbers,
//! identifiers), trivia (whitespace and `;;` comments) and identifier
//! interning.

use crate::parser::error::{ParseError, ParseErrorView};
use crate::parser::grammar::{
    Failure, Read, Run, comment_at, dot_count, in_run, is_digit, is_numeral, lemma_line_end,
    lemma_run_end, lemma_scan_atomic_progress, line_end, number_atom, numeral_value, read_byte,
    run_end, scan_atomic, scan_ident, scan_number, scan_str, second_byte, skip_trivia,
    string_body,
};
use crate::parser::number::{lemma_float_form, lemma_numeral_form, number_text_form};
use crate::parser::sexp::{Atomic, Decimal, Sexp, SexpView};
use crate::parser::peeker::PeekReader;
use crate::parser::position::{
    Position, lemma_position_at_bounds, lemma_position_at_next, lemma_position_at_range,
    position_at,
};
use crate::parser::sexp::share;
use crate::parser::names::names_within;
use std::rc::Rc;
use vstd::prelude::*;
use vstd::string::StringSliceAdditionalSpecFns;
use vstd::utf8::*;

verus! {



/// Where reading stopped short of a value: a [`ParseError`], or a `]`,
/// `}` or `:` where a form should begin.
pub enum Stop {
    Error(ParseError),
    StrayDelimiter,
}

impl Stop {
    /// This stop is the failure `f` of the grammar.
    pub open spec fn is(&self, f: Failure) -> bool {
        match f {
            Failure::Error(e) => self matches Stop::Error(pe) && pe@ == e,
            Failure::StrayDelimiter => self is StrayDelimiter,
        }
    }
}

/// Calls `std::str::from_utf8`: `Ok` exactly when the bytes are valid
/// UTF-8, and then the string's bytes are the input bytes.
#[verifier::external_body]
fn utf8_str(bytes: &[u8]) -> (r: Result<&str, std::str::Utf8Error>)
    ensures
        r is Ok <==> valid_utf8(bytes@),
        r matches Ok(s) ==> s.spec_bytes() == bytes@,
{
    std::str::from_utf8(bytes)
}

/// Calls `i64::from_str` on a numeral (an optional `-` and one or more
/// digits): `Ok` with the numeral's value when it lies in the `i64` range,
/// the error otherwise.
#[verifier::external_body]
fn parse_i64(s: &str) -> (r: Result<i64, std::num::ParseIntError>)
    requires
        is_numeral(s.spec_bytes()),
    ensures
        r is Ok <==> i64::MIN <= numeral_value(s.spec_bytes()) <= i64::MAX,
        r matches Ok(v) ==> v == numeral_value(s.spec_bytes()),
{
    s.parse::<i64>()
}

/// The byte-level reader the grammar sits on. Streams from a
/// [`PeekReader`], tracks the source [`Position`], counts the `(` not yet
/// closed, and interns identifier names so equal names share one `Rc`.
pub struct Scanner {
    pub reader: PeekReader,
    pub pos: Position,
    /// Open-paren nesting, maintained by `read_byte`, so a stray `)` is
    /// caught the moment it is consumed.
    pub list_depth: usize,
    pub idents: Vec<Rc<String>>,
    /// The whole input.
    pub input: Ghost<Seq<u8>>,
}

/// `r` is what the grammar says reading from `before` yields (`spec`), and
/// `after` is where the reader then stands; the identifier pool has kept
/// its names and holds every name the form read uses.
pub open spec fn read_as(r: Result<Sexp, Stop>, spec: Read<SexpView>, after: Scanner, before: Scanner) -> bool {
    &&& after.wf()
    &&& after.input@ == before.input@
    &&& before.pool().subset_of(after.pool())
    &&& r matches Ok(x) ==> names_within(x@, after.pool())
    &&& match spec {
        Ok((v, j, dj)) => r matches Ok(x) && x@ == v && after.i() == j && after.d() == dj,
        Err(f) => r matches Err(stop) && stop.is(f),
    }
}

impl Scanner {
    pub open spec fn wf(&self) -> bool {
        &&& self.reader.wf()
        &&& self.input@.len() < usize::MAX
        &&& self.pos.byte <= self.input@.len()
        &&& self.reader@ == self.input@.skip(self.pos.byte as int)
        &&& self.pos@ == position_at(self.input@, self.pos.byte as int)
        &&& self.list_depth <= self.pos.byte
        &&& forall|a: int, b: int|
            0 <= a < b < self.idents@.len() ==> (#[trigger] self.idents@[a])@ != (
            #[trigger] self.idents@[b])@
    }

    /// The offset of the next byte to read.
    pub open spec fn i(&self) -> int {
        self.pos.byte as int
    }

    /// How many `(` have been read and not closed.
    pub open spec fn d(&self) -> int {
        self.list_depth as int
    }

    /// The same input, now at offset `i` with `d` open parens, and the same
    /// identifier pool.
    pub open spec fn now_at(&self, before: Scanner, i: int, d: int) -> bool {
        &&& self.wf()
        &&& self.input@ == before.input@
        &&& self.i() == i
        &&& self.d() == d
        &&& self.idents == before.idents
    }

    /// The names in the identifier pool.
    pub open spec fn pool(&self) -> Set<Seq<char>> {
        self.idents@.map_values(|n: Rc<String>| n@).to_set()
    }

    pub fn new(bytes: Vec<u8>, read_size: usize) -> (r: Self)
        requires
            bytes@.len() < usize::MAX,
            read_size > 0,
        ensures
            r.wf(),
            r.input@ == bytes@,
            r.i() == 0,
            r.d() == 0,
    {
        let ghost input = bytes@;
        let reader = PeekReader::with_read_size(bytes, read_size);
        let r = Scanner {
            reader,
            pos: Position::new(),
            list_depth: 0,
            idents: Vec::new(),
            input: Ghost(input),
        };
        proof {
            assert(input.skip(0) =~= input);
            assert(input.take(0) =~= Seq::<u8>::empty());
        }
        r
    }

    /// The identifier names interned so far.
    pub fn idents(&self) -> (r: &Vec<Rc<String>>)
        ensures
            r == &self.idents,
    {
        &self.idents
    }

    /// Current position — points at the next byte to be consumed.
    pub fn at(&self) -> (r: Position)
        requires
            self.wf(),
        ensures
            r@ == position_at(self.input@, self.i()),
    {
        self.pos
    }

    /// Interns `s` into the shared identifier pool, returning the canonical
    /// `Rc<String>` so equal names share one allocation.
    pub fn intern(&mut self, s: String) -> (r: Rc<String>)
        requires
            old(self).wf(),
        ensures
            final(self).wf(),
            final(self).input@ == old(self).input@,
            final(self).i() == old(self).i(),
            final(self).d() == old(self).d(),
            old(self).pool().subset_of(final(self).pool()),
            final(self).pool().contains(s@),
            r@ == s@,
    {
        let mut k: usize = 0;
        while k < self.idents.len()
            invariant
                self.wf(),
                self == old(self),
                k <= self.idents@.len(),
                forall|a: int| 0 <= a < k ==> (#[trigger] self.idents@[a])@ != s@,
            decreases self.idents@.len() - k,
        {
            let found: &String = &*self.idents[k];
            if String::eq(found, &s) {
                proof {
                    let names = self.idents@.map_values(|n: Rc<String>| n@);
                    assert(names[k as int] == s@);
                }
                return share(&self.idents[k]);
            }
            k = k + 1;
        }
        let ghost old_names = self.idents@.map_values(|n: Rc<String>| n@);
        let rc = Rc::new(s);
        self.idents.push(share(&rc));
        proof {
            let names = self.idents@.map_values(|n: Rc<String>| n@);
            assert(names =~= old_names.push(rc@));
            assert(names[old_names.len() as int] == rc@);
            assert forall|x: Seq<char>| old_names.to_set().contains(x) implies names.to_set().contains(
                x,
            ) by {
                let j = choose|j: int| 0 <= j < old_names.len() && old_names[j] == x;
                assert(names[j] == x);
            }
        }
        rc
    }

    // ----- byte access -----

    pub fn peek_one(&mut self) -> (r: Result<u8, ParseError>)
        requires
            old(self).wf(),
        ensures
            final(self).now_at(*old(self), old(self).i(), old(self).d()),
            old(self).i() >= old(self).input@.len() ==> (r matches Err(e) && e@
                == ParseErrorView::UnexpectedEof(position_at(old(self).input@, old(self).i()))),
            old(self).i() < old(self).input@.len() ==> r == Ok::<u8, ParseError>(
                old(self).input@[old(self).i()],
            ),
    {
        let at = self.at();
        let ghost s = self.input@;
        let ghost i = self.i();
        let avail = self.reader.fill_buf();
        if avail.len() == 0 {
            proof {
                assert(s.skip(i).len() == 0);
            }
            return Err(ParseError::UnexpectedEof { at });
        }
        proof {
            assert(avail@[0] == s.skip(i)[0]);
        }
        Ok(avail[0])
    }

    /// Peeks the next byte without consuming it, returning `None` at a clean
    /// end of input.
    pub fn peek_eof(&mut self) -> (r: Option<u8>)
        requires
            old(self).wf(),
        ensures
            final(self).now_at(*old(self), old(self).i(), old(self).d()),
            old(self).i() >= old(self).input@.len() ==> r is None,
            old(self).i() < old(self).input@.len() ==> r == Some(old(self).input@[old(self).i()]),
    {
        let ghost s = self.input@;
        let ghost i = self.i();
        let avail = self.reader.fill_buf();
        if avail.len() == 0 {
            proof {
                assert(s.skip(i).len() == 0);
            }
            None
        } else {
            proof {
                assert(avail@[0] == s.skip(i)[0]);
            }
            Some(avail[0])
        }
    }

    /// The next two bytes without consuming them; the second reads as 0
    /// when only one byte is left.
    pub fn peek_two(&mut self) -> (r: Result<(u8, u8), ParseError>)
        requires
            old(self).wf(),
        ensures
            final(self).now_at(*old(self), old(self).i(), old(self).d()),
            old(self).i() >= old(self).input@.len() ==> (r matches Err(e) && e@
                == ParseErrorView::UnexpectedEof(position_at(old(self).input@, old(self).i()))),
            old(self).i() < old(self).input@.len() ==> r == Ok::<(u8, u8), ParseError>(
                (
                    old(self).input@[old(self).i()],
                    second_byte(old(self).input@, old(self).i()),
                ),
            ),
    {
        let at = self.at();
        let ghost s = self.input@;
        let ghost i = self.i();
        let avail = self.reader.peek(2);
        if avail.len() == 0 {
            proof {
                assert(s.skip(i).len() == 0);
            }
            return Err(ParseError::UnexpectedEof { at });
        }
        proof {
            assert(avail@[0] == s.skip(i)[0]);
            if avail@.len() >= 2 {
                assert(avail@[1] == s.skip(i)[1]);
            }
        }
        let second = if avail.len() >= 2 {
            avail[1]
        } else {
            0u8
        };
        Ok((avail[0], second))
    }

    /// Whether `;;` opens a comment at the next byte.
    fn at_comment(&mut self) -> (r: bool)
        requires
            old(self).wf(),
        ensures
            final(self).now_at(*old(self), old(self).i(), old(self).d()),
            r == comment_at(old(self).input@, old(self).i()),
    {
        let ghost s = self.input@;
        let ghost i = self.i();
        let avail = self.reader.peek(2);
        proof {
            if avail@.len() >= 2 {
                assert(avail@[0] == s.skip(i)[0]);
                assert(avail@[1] == s.skip(i)[1]);
            }
        }
        avail.len() >= 2 && avail[0] == 59u8 && avail[1] == 59u8
    }

    /// Reads one byte, keeping count of open parens: a `)` with none open is
    /// an [`UnexpectedCloseParen`](ParseError::UnexpectedCloseParen).
    pub fn read_byte(&mut self) -> (r: Result<u8, ParseError>)
        requires
            old(self).wf(),
        ensures
            final(self).wf(),
            final(self).input@ == old(self).input@,
            final(self).idents == old(self).idents,
            match read_byte(old(self).input@, old(self).i(), old(self).d()) {
                Ok((b, i1, d1)) => r == Ok::<u8, ParseError>(b) && final(self).i() == i1
                    && final(self).d() == d1,
                Err(Failure::Error(e)) => r matches Err(pe) && pe@ == e,
                Err(Failure::StrayDelimiter) => false,
            },
    {
        let at = self.at();
        let ghost s = self.input@;
        let ghost i = self.i();
        let avail = self.reader.fill_buf();
        if avail.len() == 0 {
            proof {
                assert(s.skip(i).len() == 0);
            }
            return Err(ParseError::UnexpectedEof { at });
        }
        proof {
            assert(avail@[0] == s.skip(i)[0]);
        }
        let b = avail[0];
        self.reader.consume(1);
        proof {
            lemma_position_at_bounds(self.input@, i);
            lemma_position_at_next(self.input@, i);
            assert(self.reader@ =~= self.input@.skip(i + 1));
        }
        self.pos.advance_one(b);
        if b == 40u8 {
            self.list_depth = self.list_depth + 1;
        } else if b == 41u8 {
            if self.list_depth == 0 {
                return Err(ParseError::UnexpectedCloseParen { at });
            }
            self.list_depth = self.list_depth - 1;
        }
        Ok(b)
    }

    /// Reads the run of `run` bytes at the current offset and returns it.
    pub fn read_while(&mut self, run: Run) -> (r: Vec<u8>)
        requires
            old(self).wf(),
        ensures
            final(self).now_at(
                *old(self),
                run_end(old(self).input@, old(self).i(), run),
                old(self).d(),
            ),
            r@ == old(self).input@.subrange(
                old(self).i(),
                run_end(old(self).input@, old(self).i(), run),
            ),
    {
        let ghost s = self.input@;
        let ghost i0 = self.i();
        let mut buf: Vec<u8> = Vec::new();
        proof {
            lemma_run_end(s, i0, run);
        }
        loop
            invariant
                self.reader.wf(),
                self.input@ == s,
                self.pos == old(self).pos,
                self.list_depth == old(self).list_depth,
                self.idents == old(self).idents,
                old(self).wf(),
                s == old(self).input@,
                i0 == old(self).i(),
                0 <= i0 <= i0 + buf@.len() <= s.len(),
                buf@ == s.subrange(i0, i0 + buf@.len()),
                run_end(s, i0, run) == run_end(s, i0 + buf@.len(), run),
                self.reader@ == s.skip(i0 + buf@.len()),
            ensures
                self.reader.wf(),
                self.input@ == s,
                self.pos == old(self).pos,
                self.list_depth == old(self).list_depth,
                self.idents == old(self).idents,
                buf@ == s.subrange(i0, i0 + buf@.len()),
                i0 + buf@.len() == run_end(s, i0, run),
                self.reader@ == s.skip(i0 + buf@.len()),
            decreases s.len() - buf@.len(),
        {
            let ghost at0 = i0 + buf@.len();
            let avail = self.reader.fill_buf();
            if avail.len() == 0 {
                proof {
                    assert(at0 == s.len());
                }
                break;
            }
            let mut used: usize = 0;
            while used < avail.len() && in_run_byte(&run, avail[used])
                invariant
                    used <= avail@.len(),
                    avail@ == s.skip(at0).take(avail@.len() as int),
                    at0 + avail@.len() <= s.len(),
                    forall|k: int| 0 <= k < used ==> in_run(run, #[trigger] avail@[k]),
                decreases avail@.len() - used,
            {
                used = used + 1;
            }
            let ghost old_len = buf@.len();
            let mut k: usize = 0;
            while k < used
                invariant
                    k <= used <= avail@.len(),
                    buf@.len() == old_len + k,
                    buf@ == s.subrange(i0, at0) + avail@.take(k as int),
                decreases used - k,
            {
                buf.push(avail[k]);
                proof {
                    assert(avail@.take(k as int + 1) =~= avail@.take(k as int).push(avail@[k as int]));
                }
                k = k + 1;
            }
            let total = avail.len();
            proof {
                assert(avail@.take(used as int) =~= s.subrange(at0, at0 + used));
                assert(buf@ =~= s.subrange(i0, at0 + used));
                assert forall|q: int| at0 <= q < at0 + used implies in_run(run, #[trigger] s[q]) by {
                    assert(s[q] == avail@[q - at0]);
                }
                lemma_run_end_skip(s, at0, at0 + used, run);
            }
            self.reader.consume(used);
            proof {
                assert(self.reader@ =~= s.skip(at0 + used));
            }
            if used < total {
                proof {
                    assert(!in_run(run, s[at0 + used]));
                }
                break;
            }
        }
        proof {
            lemma_position_at_bounds(s, i0);
            lemma_position_at_bounds(s, i0 + buf@.len());
            lemma_position_at_range(s, i0, i0 + buf@.len());
        }
        self.pos.advance(buf.as_slice());
        proof {
            assert(self.pos.byte == i0 + buf@.len());
            assert(self.pos@ == position_at(s, i0 + buf@.len()));
            assert(self.reader@ == s.skip(self.pos.byte as int));
            assert(self.wf());
        }
        buf
    }

    /// Reads up to and including the next newline, or to the end of input.
    fn read_line(&mut self)
        requires
            old(self).wf(),
        ensures
            final(self).now_at(*old(self), line_end(old(self).input@, old(self).i()), old(self).d()),
    {
        let ghost s = self.input@;
        let ghost i0 = self.i();
        let mut buf: Vec<u8> = Vec::new();
        proof {
            lemma_line_end(s, i0);
        }
        loop
            invariant_except_break
                line_end(s, i0) == line_end(s, i0 + buf@.len()),
            invariant
                self.reader.wf(),
                self.input@ == s,
                self.pos == old(self).pos,
                self.list_depth == old(self).list_depth,
                self.idents == old(self).idents,
                old(self).wf(),
                s == old(self).input@,
                i0 == old(self).i(),
                0 <= i0 <= i0 + buf@.len() <= s.len(),
                buf@ == s.subrange(i0, i0 + buf@.len()),
                self.reader@ == s.skip(i0 + buf@.len()),
            ensures
                self.reader.wf(),
                self.input@ == s,
                self.pos == old(self).pos,
                self.list_depth == old(self).list_depth,
                self.idents == old(self).idents,
                buf@ == s.subrange(i0, i0 + buf@.len()),
                i0 + buf@.len() == line_end(s, i0),
                self.reader@ == s.skip(i0 + buf@.len()),
            decreases s.len() - buf@.len(),
        {
            let ghost at0 = i0 + buf@.len();
            let avail = self.reader.fill_buf();
            if avail.len() == 0 {
                break;
            }
            let mut used: usize = 0;
            let mut done = false;
            while used < avail.len() && !done
                invariant
                    used <= avail@.len(),
                    avail@ == s.skip(at0).take(avail@.len() as int),
                    at0 + avail@.len() <= s.len(),
                    !done ==> forall|k: int| 0 <= k < used ==> #[trigger] avail@[k] != 10u8,
                    done ==> used >= 1 && avail@[used - 1] == 10u8 && forall|k: int|
                        0 <= k < used - 1 ==> #[trigger] avail@[k] != 10u8,
                decreases avail@.len() - used, if done { 0int } else { 1int },
            {
                if avail[used] == 10u8 {
                    done = true;
                }
                used = used + 1;
            }
            let mut k: usize = 0;
            let ghost old_len = buf@.len();
            while k < used
                invariant
                    k <= used <= avail@.len(),
                    buf@.len() == old_len + k,
                    buf@ == s.subrange(i0, at0) + avail@.take(k as int),
                decreases used - k,
            {
                buf.push(avail[k]);
                proof {
                    assert(avail@.take(k as int + 1) =~= avail@.take(k as int).push(avail@[k as int]));
                }
                k = k + 1;
            }
            proof {
                assert(avail@.take(used as int) =~= s.subrange(at0, at0 + used));
                assert(buf@ =~= s.subrange(i0, at0 + used));
                assert forall|q: int| at0 <= q < at0 + used implies #[trigger] s[q] == avail@[q - at0] by {}
                if done {
                    lemma_line_end_found(s, at0, at0 + used);
                } else {
                    lemma_line_end_skip(s, at0, at0 + used);
                }
            }
            self.reader.consume(used);
            proof {
                assert(self.reader@ =~= s.skip(at0 + used));
            }
            if done {
                break;
            }
        }
        proof {
            lemma_position_at_bounds(s, i0);
            lemma_position_at_bounds(s, i0 + buf@.len());
            lemma_position_at_range(s, i0, i0 + buf@.len());
        }
        self.pos.advance(buf.as_slice());
    }

    // ----- leaf tokens -----

    /// The string literal whose opening `"` is the next byte. Recognises
    /// `\"`, `\\`, `\n`, `\r`, `\t` escape sequences.
    pub fn scan_str(&mut self) -> (r: Result<Sexp, Stop>)
        requires
            old(self).wf(),
            old(self).i() < old(self).input@.len(),
            old(self).input@[old(self).i()] == 34u8,
        ensures
            read_as(r, scan_str(old(self).input@, old(self).i(), old(self).d()), *final(self), *old(self)),
    {
        let ghost s = self.input@;
        let ghost i0 = self.i();
        let ghost d0 = self.d();
        let _ = self.read_byte();
        let mut buf: Vec<u8> = Vec::new();
        loop
            invariant_except_break
                string_body(s, i0 + 1, d0, Seq::empty()) == string_body(
                    s,
                    self.i(),
                    self.d(),
                    buf@,
                ),
            invariant
                self.wf(),
                self.input@ == s,
                self.idents == old(self).idents,
                s == old(self).input@,
                i0 == old(self).i(),
                d0 == old(self).d(),
                i0 < s.len(),
                s[i0] == 34u8,
                i0 < self.i() <= s.len(),
            ensures
                self.wf(),
                self.input@ == s,
                self.idents == old(self).idents,
                string_body(s, i0 + 1, d0, Seq::empty()) == Ok::<(Seq<u8>, int, int), Failure>(
                    (buf@, self.i(), self.d()),
                ),
            decreases s.len() - self.i(),
        {
            let ghost before = *self;
            let b = match self.read_byte() {
                Ok(b) => b,
                Err(e) => {
                    return Err(Stop::Error(e));
                },
            };
            if b == 34u8 {
                break;
            }
            if b == 92u8 {
                let esc = match self.read_byte() {
                    Ok(e) => e,
                    Err(e) => {
                        return Err(Stop::Error(e));
                    },
                };
                if esc == 34u8 || esc == 92u8 {
                    buf.push(esc);
                } else if esc == 110u8 {
                    buf.push(10u8);
                } else if esc == 114u8 {
                    buf.push(13u8);
                } else if esc == 116u8 {
                    buf.push(9u8);
                } else {
                    let at = self.at();
                    return Err(Stop::Error(ParseError::InvalidEscape { got: esc as char, at }));
                }
            } else {
                buf.push(b);
            }
        }
        let at = self.at();
        match utf8_str(buf.as_slice()) {
            Ok(text) => {
                proof {
                    vstd::utf8::encode_utf8_decode_utf8(text@);
                }
                Ok(Sexp::Atom(Atomic::Str(text.to_owned())))
            },
            Err(e) => Err(Stop::Error(ParseError::UTF8Error { source: e, at })),
        }
    }

    /// Reads the bytes of the number literal starting at the next byte.
    fn read_number_text(&mut self) -> (text: Vec<u8>)
        requires
            old(self).wf(),
            old(self).i() < old(self).input@.len(),
            is_digit(old(self).input@[old(self).i()]) || old(self).input@[old(self).i()] == 45u8,
        ensures
            final(self).now_at(
                *old(self),
                run_end(old(self).input@, old(self).i() + 1, Run::Number),
                old(self).d(),
            ),
            text@ == old(self).input@.subrange(
                old(self).i(),
                run_end(old(self).input@, old(self).i() + 1, Run::Number),
            ),
    {
        let ghost s = self.input@;
        let ghost i0 = self.i();
        // read the first byte in case it's `-`
        let first = match self.read_byte() {
            Ok(b) => b,
            Err(_) => 0u8,
        };
        let rest = self.read_while(Run::Number);
        let ghost j = self.i();
        proof {
            lemma_run_end(s, i0 + 1, Run::Number);
        }
        let mut text: Vec<u8> = Vec::new();
        text.push(first);
        let mut k: usize = 0;
        while k < rest.len()
            invariant
                k <= rest@.len(),
                text@ == seq![first] + rest@.take(k as int),
            decreases rest@.len() - k,
        {
            text.push(rest[k]);
            proof {
                assert(rest@.take(k as int + 1) =~= rest@.take(k as int).push(rest@[k as int]));
            }
            k = k + 1;
        }
        proof {
            assert(text@ =~= s.subrange(i0, j));
        }
        text
    }

    /// The number literal starting at the next byte (a digit, or `-` then a
    /// digit).
    pub fn scan_number(&mut self) -> (r: Result<Sexp, Stop>)
        requires
            old(self).wf(),
            old(self).i() < old(self).input@.len(),
            is_digit(old(self).input@[old(self).i()]) || (old(self).input@[old(self).i()] == 45u8
                && is_digit(second_byte(old(self).input@, old(self).i()))),
        ensures
            read_as(r, scan_number(old(self).input@, old(self).i(), old(self).d()), *final(self), *old(self)),
    {
        let ghost s = self.input@;
        let ghost i0 = self.i();
        let text = self.read_number_text();
        let ghost j = self.i();
        let at = self.at();
        proof {
            lemma_run_end(s, i0 + 1, Run::Number);
            let t = text@;
            assert(t[0] == s[i0]);
            assert forall|q: int| 1 <= q < t.len() implies crate::parser::grammar::is_number_byte(
                #[trigger] t[q],
            ) by {
                assert(t[q] == s[i0 + q]);
            }
            if t[0] == 45u8 {
                assert(s[i0 + 1] == t[1]);
            }
        }
        number_from_text(&text, at, Ghost(s), Ghost(j))
    }

    /// The identifier starting at the next byte. Reading stops at a `]`,
    /// `}` or `:` there, where no identifier can start.
    pub fn scan_ident(&mut self) -> (r: Result<Sexp, Stop>)
        requires
            old(self).wf(),
        ensures
            read_as(r, scan_ident(old(self).input@, old(self).i(), old(self).d()), *final(self), *old(self)),
    {
        let ghost s = self.input@;
        let ghost i0 = self.i();
        proof {
            lemma_run_end(s, i0, Run::Ident);
        }
        let buf = self.read_while(Run::Ident);
        if buf.len() == 0 {
            return Err(Stop::StrayDelimiter);
        }
        let at = self.at();
        match utf8_str(buf.as_slice()) {
            Ok(text) => {
                proof {
                    vstd::utf8::encode_utf8_decode_utf8(text@);
                }
                let name = self.intern(text.to_owned());
                Ok(Sexp::Atom(Atomic::Ident(name)))
            },
            Err(e) => Err(Stop::Error(ParseError::UTF8Error { source: e, at })),
        }
    }

    /// Scans the next leaf token, dispatching on the first byte(s): `"` opens a
    /// string, a digit (or `-` then a digit) a number, anything else an
    /// identifier.
    pub fn scan_atomic(&mut self) -> (r: Result<Sexp, Stop>)
        requires
            old(self).wf(),
        ensures
            read_as(r, scan_atomic(old(self).input@, old(self).i(), old(self).d()), *final(self), *old(self)),
            r is Ok ==> final(self).i() > old(self).i(),
    {
        proof {
            reveal(scan_atomic);
            lemma_scan_atomic_progress(self.input@, self.i(), self.d());
        }
        let (a, b) = match self.peek_two() {
            Ok(pair) => pair,
            Err(e) => {
                return Err(Stop::Error(e));
            },
        };
        if a == 34u8 {
            self.scan_str()
        } else if (48u8 <= a && a <= 57u8) || (a == 45u8 && 48u8 <= b && b <= 57u8) {
            self.scan_number()
        } else {
            self.scan_ident()
        }
    }

    // ----- trivia -----

    /// Skips whitespace and `;;` line comments.
    pub fn skip_trivia(&mut self)
        requires
            old(self).wf(),
        ensures
            final(self).now_at(*old(self), skip_trivia(old(self).input@, old(self).i()), old(self).d()),
    {
        let ghost s = self.input@;
        loop
            invariant
                self.now_at(*old(self), self.i(), old(self).d()),
                s == old(self).input@,
                skip_trivia(s, old(self).i()) == skip_trivia(s, self.i()),
            ensures
                self.now_at(*old(self), skip_trivia(s, old(self).i()), old(self).d()),
            decreases s.len() - self.i(),
        {
            let ghost i = self.i();
            self.read_while(Run::Whitespace);
            proof {
                lemma_run_end(s, i, Run::Whitespace);
            }
            if !self.at_comment() {
                break;
            }
            self.read_line();
            proof {
                lemma_line_end(s, run_end(s, i, Run::Whitespace));
            }
        }
    }
}

/// The atom the number literal `text` (read up to offset `j` of `s`, where
/// the position is `at`) denotes.
fn number_from_text(text: &Vec<u8>, at: Position, Ghost(s): Ghost<Seq<u8>>, Ghost(j): Ghost<int>) -> (r: Result<Sexp, Stop>)
    requires
        number_text_form(text@),
        at@ == position_at(s, j),
    ensures
        match number_atom(s, text@, j) {
            Ok(v) => r matches Ok(x) && x@ == v,
            Err(f) => r matches Err(stop) && stop.is(f),
        },
{
    let st = match utf8_str(text.as_slice()) {
        Ok(st) => st,
        Err(e) => {
            return Err(Stop::Error(ParseError::UTF8Error { source: e, at }));
        },
    };
    let mut dots: usize = 0;
    let mut m: usize = 0;
    while m < text.len()
        invariant
            m <= text@.len(),
            dots <= m,
            dots == dot_count(text@.take(m as int)),
        decreases text@.len() - m,
    {
        proof {
            assert(text@.take(m as int + 1) =~= text@.take(m as int).push(text@[m as int]));
            crate::parser::number::lemma_dot_count_push(text@.take(m as int), text@[m as int]);
        }
        if text[m] == 46u8 {
            dots = dots + 1;
        }
        m = m + 1;
    }
    proof {
        assert(text@.take(text@.len() as int) =~= text@);
    }
    if dots > 0 {
        if dots == 1 {
            proof {
                lemma_float_form(text@);
            }
            match Decimal::from_literal(text.as_slice()) {
                Some(dec) => Ok(Sexp::Atom(Atomic::Float(dec))),
                None => Err(Stop::Error(ParseError::ParseFloatError { at })),
            }
        } else {
            Err(Stop::Error(ParseError::ParseFloatError { at }))
        }
    } else {
        proof {
            lemma_numeral_form(text@);
        }
        match parse_i64(st) {
            Ok(v) => Ok(Sexp::Atom(Atomic::Int(v))),
            Err(e) => Err(Stop::Error(ParseError::ParseIntError { source: e, at })),
        }
    }
}

/// Whether `b` belongs to the run `run`.
pub fn in_run_byte(run: &Run, b: u8) -> (r: bool)
    ensures
        r == in_run(*run, b),
{
    let ws = b == 10u8 || b == 13u8 || b == 9u8 || b == 32u8;
    match run {
        Run::Whitespace => ws,
        Run::Number => (48u8 <= b && b <= 57u8) || b == 46u8,
        Run::Ident => !(ws || b == 59u8 || b == 40u8 || b == 41u8 || b == 91u8 || b == 93u8
            || b == 123u8 || b == 125u8 || b == 58u8),
    }
}

proof fn lemma_run_end_skip(s: Seq<u8>, i: int, j: int, run: Run)
    requires
        0 <= i <= j <= s.len(),
        forall|k: int| i <= k < j ==> in_run(run, #[trigger] s[k]),
    ensures
        run_end(s, i, run) == run_end(s, j, run),
    decreases j - i,
{
    if i < j {
        lemma_run_end_skip(s, i + 1, j, run);
    }
}

proof fn lemma_line_end_skip(s: Seq<u8>, i: int, j: int)
    requires
        0 <= i <= j <= s.len(),
        forall|k: int| i <= k < j ==> #[trigger] s[k] != 10u8,
    ensures
        line_end(s, i) == line_end(s, j),
    decreases j - i,
{
    if i < j {
        lemma_line_end_skip(s, i + 1, j);
    }
}

proof fn lemma_line_end_found(s: Seq<u8>, i: int, j: int)
    requires
        0 <= i < j <= s.len(),
        s[j - 1] == 10u8,
        forall|k: int| i <= k < j - 1 ==> #[trigger] s[k] != 10u8,
    ensures
        line_end(s, i) == j,
    decreases j - i,
{
    if i < j - 1 {
        lemma_line_end_found(s, i + 1, j);
    }
}

} // verus!
