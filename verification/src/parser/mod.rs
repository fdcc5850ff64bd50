//! Reads source bytes into a sequence of [`Sexp`] forms.
//!
//! The grammar is minimal: a program is a sequence of one-or-more top-level
//! forms — each form is an atom ([`Atomic`]: strings, ints, floats,
//! identifiers), a parenthesized list, a collection, or a reader-macro form
//! (`'`, `` ` ``, `,`, `,@`). Lists are represented as cons chains terminated
//! by [`Sexp::Unit`] (nil). Multiple top-level forms are implicitly sequenced
//! and evaluated in order, sharing one threaded environment.
//!
//! [`Parser`] streams the input through a look-ahead buffer and tracks a
//! [`Position`] (line/column/byte) so every [`ParseError`] can point at the
//! offending location. Identifiers are interned so repeated names share one
//! `Rc<String>`. What reading any input yields is stated in [`grammar`].

pub mod error;
mod forms;
pub mod grammar;
pub mod laws;
mod lists;
pub mod names;
pub mod number;
pub mod peeker;
pub mod position;
pub mod progress;
pub mod scanner;
pub mod sexp;

pub use error::ParseError;
pub use position::Position;
pub use sexp::{Atomic, Collection, Decimal, Sexp};

use crate::parser::grammar::{
    Failure, MAX_NESTING_DEPTH, lemma_skip_trivia, parse_expr, parse_form, parse_forms,
    parse_program_from,
};
use crate::parser::peeker::PEEK_READER_CAP;
use crate::parser::position::position_at;
use crate::parser::names::{all_names_within, lemma_push_names};
use crate::parser::scanner::{Scanner, Stop, read_as};
use crate::parser::sexp::{SexpView, lemma_views_push, views};
use std::rc::Rc;
use vstd::prelude::*;

verus! {

/// A streaming recursive-descent parser over an input's bytes.
///
/// The bytes pass through a [`PeekReader`](peeker::PeekReader), so the
/// reader only ever looks a couple of bytes ahead of what it has consumed.
/// Identifier names are interned, so repeated names share one `Rc<String>`
/// for the lifetime of the parse.
pub struct Parser {
    scanner: Scanner,
}

impl Parser {
    /// The parser's internal consistency.
    pub closed spec fn wf(&self) -> bool {
        self.scanner.wf()
    }

    /// The whole input.
    pub closed spec fn input(&self) -> Seq<u8> {
        self.scanner.input@
    }

    /// The offset of the next byte to read.
    pub closed spec fn offset(&self) -> int {
        self.scanner.i()
    }

    /// How many `(` have been read and not closed.
    pub closed spec fn open_parens(&self) -> int {
        self.scanner.d()
    }

    /// The identifier names interned so far.
    pub closed spec fn names(&self) -> Set<Seq<char>> {
        self.scanner.pool()
    }

    /// A new parser that reads `src`.
    pub fn new(src: &[u8]) -> (p: Self)
        requires
            src@.len() < usize::MAX,
        ensures
            p.wf(),
            p.input() == src@,
            p.offset() == 0,
            p.open_parens() == 0,
    {
        Self::with_read_size(src, PEEK_READER_CAP)
    }

    /// A new parser that reads `src` as if its source handed out at most
    /// `read_size` bytes per read — the way a pipe or a socket delivers
    /// input in pieces. What is parsed does not depend on it.
    pub fn with_read_size(src: &[u8], read_size: usize) -> (p: Self)
        requires
            src@.len() < usize::MAX,
            read_size > 0,
        ensures
            p.wf(),
            p.input() == src@,
            p.offset() == 0,
            p.open_parens() == 0,
    {
        let mut bytes: Vec<u8> = Vec::with_capacity(src.len());
        let mut k: usize = 0;
        while k < src.len()
            invariant
                k <= src@.len(),
                bytes@ == src@.take(k as int),
            decreases src@.len() - k,
        {
            bytes.push(src[k]);
            proof {
                assert(src@.take(k as int + 1) =~= src@.take(k as int).push(src@[k as int]));
            }
            k = k + 1;
        }
        proof {
            assert(bytes@ =~= src@);
        }
        Parser { scanner: Scanner::new(bytes, read_size) }
    }

    /// Parse every top-level form to the end of input, or find that a `]`,
    /// `}` or `:` stands where a form should begin (`None`), where reading
    /// cannot go on.
    ///
    /// Each form is an atom, list, collection (`[...]` / `{...}`), or
    /// reader-macro form (`'X`, `` `X ``, `,X`, `,@X`). Whitespace and `;;`
    /// line comments between forms are skipped. Empty (or comment-only)
    /// input is a [`ParseError::UnexpectedEof`]; otherwise the forms are
    /// non-empty and in source order.
    pub fn try_parse(&mut self) -> (r: Option<Result<Vec<Sexp>, ParseError>>)
        requires
            old(self).wf(),
        ensures
            final(self).wf(),
            final(self).input() == old(self).input(),
            match parse_program_from(old(self).input(), old(self).offset(), old(self).open_parens()) {
                Ok(forms) => r matches Some(Ok(v)) && views(v@) == forms && final(self).offset()
                    == old(self).input().len(),
                Err(Failure::Error(e)) => r matches Some(Err(pe)) && pe@ == e,
                Err(Failure::StrayDelimiter) => r is None,
            },
            old(self).names().subset_of(final(self).names()),
            r matches Some(Ok(v)) ==> all_names_within(views(v@), final(self).names()),
    {
        let ghost s = self.scanner.input@;
        let ghost i0 = self.scanner.i();
        let ghost d0 = self.scanner.d();
        self.scanner.skip_trivia();
        proof {
            lemma_skip_trivia(s, i0);
        }
        if self.scanner.peek_eof().is_none() {
            let at = self.scanner.at();
            return Some(Err(ParseError::UnexpectedEof { at }));
        }
        let mut forms: Vec<Sexp> = Vec::new();
        proof {
            assert(views(forms@) =~= Seq::<SexpView>::empty());
        }
        loop
            invariant
                self.scanner.wf(),
                self.scanner.input@ == s,
                s == old(self).scanner.input@,
                i0 == old(self).scanner.i(),
                d0 == old(self).scanner.d(),
                0 <= self.scanner.i() < s.len(),
                parse_program_from(s, i0, d0) == parse_forms(
                    s,
                    self.scanner.i(),
                    self.scanner.d(),
                    views(forms@),
                ),
                old(self).scanner.pool().subset_of(self.scanner.pool()),
                all_names_within(views(forms@), self.scanner.pool()),
            decreases s.len() - self.scanner.i(),
        {
            let ghost pool_k = self.scanner.pool();
            let f = match self.parse_expr(0) {
                Ok(f) => f,
                Err(Stop::Error(e)) => {
                    return Some(Err(e));
                },
                Err(Stop::StrayDelimiter) => {
                    return None;
                },
            };
            proof {
                lemma_views_push(forms@, f);
                lemma_push_names(views(forms@), f@, pool_k, self.scanner.pool());
            }
            forms.push(f);
            let ghost j = self.scanner.i();
            self.scanner.skip_trivia();
            proof {
                lemma_skip_trivia(s, j);
            }
            if self.scanner.peek_eof().is_none() {
                return Some(Ok(forms));
            }
        }
    }

    /// Parse every top-level form to the end of input.
    ///
    /// Each form is an atom, list, collection (`[...]` / `{...}`), or
    /// reader-macro form (`'X`, `` `X ``, `,X`, `,@X`). Whitespace and `;;`
    /// line comments between forms are skipped. Empty (or comment-only)
    /// input is a [`ParseError::UnexpectedEof`]; otherwise the returned
    /// `Vec` is non-empty and in source order, ready for the runtime to
    /// evaluate as an implicitly sequenced program. The input must not put
    /// a `]`, `}` or `:` where a form should begin (see
    /// [`try_parse`](Self::try_parse)).
    pub fn parse(&mut self) -> (r: Result<Vec<Sexp>, ParseError>)
        requires
            old(self).wf(),
            !(parse_program_from(
                old(self).input(),
                old(self).offset(),
                old(self).open_parens(),
            ) matches Err(Failure::StrayDelimiter)),
        ensures
            final(self).wf(),
            final(self).input() == old(self).input(),
            match parse_program_from(old(self).input(), old(self).offset(), old(self).open_parens()) {
                Ok(forms) => r matches Ok(v) && views(v@) == forms && final(self).offset()
                    == old(self).input().len(),
                Err(Failure::Error(e)) => r matches Err(pe) && pe@ == e,
                Err(Failure::StrayDelimiter) => false,
            },
            old(self).names().subset_of(final(self).names()),
            r matches Ok(v) ==> all_names_within(views(v@), final(self).names()),
    {
        match self.try_parse() {
            Some(r) => r,
            None => {
                let at = self.scanner.at();
                Err(ParseError::UnexpectedEof { at })
            },
        }
    }

    /// The identifier names interned so far. Repeated identifiers in the
    /// source share a single `Rc<String>` drawn from this pool.
    pub fn idents(&self) -> (r: &Vec<Rc<String>>)
        requires
            self.wf(),
        ensures
            r@.map_values(|n: Rc<String>| n@).to_set() == self.names(),
            forall|a: int, b: int| 0 <= a < b < r@.len() ==> (#[trigger] r@[a])@ != (#[trigger] r@[b])@,
    {
        self.scanner.idents()
    }

    /// Current parser position — points at the next byte to be consumed.
    pub fn position(&self) -> (r: Position)
        requires
            self.wf(),
        ensures
            r@ == position_at(self.input(), self.offset()),
    {
        self.scanner.at()
    }

    /// A form, at nesting depth `depth`.
    fn parse_expr(&mut self, depth: usize) -> (r: Result<Sexp, Stop>)
        requires
            old(self).scanner.wf(),
            depth <= MAX_NESTING_DEPTH,
        ensures
            read_as(
                r,
                parse_expr(
                    old(self).scanner.input@,
                    old(self).scanner.i(),
                    old(self).scanner.d(),
                    depth as nat,
                ),
                final(self).scanner,
                old(self).scanner,
            ),
            r is Ok ==> final(self).scanner.i() > old(self).scanner.i(),
        decreases MAX_NESTING_DEPTH - depth, old(self).scanner.input@.len() - old(self).scanner.i(), 0nat,
    {
        if depth >= MAX_NESTING_DEPTH {
            let at = self.scanner.at();
            return Err(Stop::Error(ParseError::TooDeep { at, limit: MAX_NESTING_DEPTH }));
        }
        self.parse_form(depth + 1)
    }

    /// A form once the depth guard has passed: trivia, then the form that
    /// starts at the next byte.
    fn parse_form(&mut self, depth: usize) -> (r: Result<Sexp, Stop>)
        requires
            old(self).scanner.wf(),
            1 <= depth <= MAX_NESTING_DEPTH,
        ensures
            read_as(
                r,
                parse_form(
                    old(self).scanner.input@,
                    old(self).scanner.i(),
                    old(self).scanner.d(),
                    depth as nat,
                ),
                final(self).scanner,
                old(self).scanner,
            ),
            r is Ok ==> final(self).scanner.i() > old(self).scanner.i(),
        decreases MAX_NESTING_DEPTH - depth, old(self).scanner.input@.len() - old(self).scanner.i(), 2nat,
    {
        let ghost s = self.scanner.input@;
        let ghost i0 = self.scanner.i();
        self.scanner.skip_trivia();
        proof {
            lemma_skip_trivia(s, i0);
        }
        self.form_at(depth)
    }
}

} // verus!
