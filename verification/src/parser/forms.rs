//! The form that starts at the next byte: dispatch on that byte, and the
//! reader macros `'X`, `` `X ``, `,X` and `,@X`.

use crate::parser::error::ParseError;
use crate::parser::grammar::{MAX_NESTING_DEPTH, form_at, wrap_prefix, wrapped};
use crate::parser::names::{lemma_names_grow, names_within};
use crate::parser::scanner::{Stop, read_as};
use crate::parser::sexp::{AtomView, Atomic, Sexp, SexpView};
use crate::parser::Parser;
use std::rc::Rc;
use vstd::prelude::*;

verus! {

impl Parser {
    /// The form whose first byte is the next one: `(` a list, `[` an
    /// array, `{` a map, `'` `` ` `` `,` `,@` a reader macro, an atom
    /// otherwise. `)` and a lone `;` cannot begin a form.
    pub(super) fn form_at(&mut self, depth: usize) -> (r: Result<Sexp, Stop>)
        requires
            old(self).scanner.wf(),
            1 <= depth <= MAX_NESTING_DEPTH,
        ensures
            read_as(
                r,
                form_at(
                    old(self).scanner.input@,
                    old(self).scanner.i(),
                    old(self).scanner.d(),
                    depth as nat,
                ),
                final(self).scanner,
                old(self).scanner,
            ),
            r is Ok ==> final(self).scanner.i() > old(self).scanner.i(),
        decreases MAX_NESTING_DEPTH - depth, old(self).scanner.input@.len() - old(self).scanner.i(), 1nat,
    {
        let b = match self.scanner.peek_one() {
            Ok(b) => b,
            Err(e) => {
                return Err(Stop::Error(e));
            },
        };
        if b == 40u8 {
            let _ = self.scanner.read_byte();
            self.parse_list_tail(depth)
        } else if b == 91u8 {
            self.parse_array(depth)
        } else if b == 123u8 {
            self.parse_map(depth)
        } else if b == 39u8 || b == 96u8 || b == 44u8 {
            self.reader_macro(depth, b)
        } else if b == 41u8 {
            // A `)` cannot begin an expression: an unmatched close at the
            // start of a form (e.g. a top-level `)`).
            let at = self.scanner.at();
            Err(Stop::Error(ParseError::UnexpectedCloseParen { at }))
        } else if b == 59u8 {
            // trivia skipping consumes `;;` as a comment; a `;` here is
            // therefore stray and never begins a form.
            let at = self.scanner.at();
            Err(Stop::Error(ParseError::StraySemicolon { at }))
        } else {
            self.scanner.scan_atomic()
        }
    }

    /// A reader-macro form: `'X`, `` `X ``, `,X` or `,@X`, whose first byte
    /// `b` is the next one.
    fn reader_macro(&mut self, depth: usize, b: u8) -> (r: Result<Sexp, Stop>)
        requires
            old(self).scanner.wf(),
            1 <= depth <= MAX_NESTING_DEPTH,
            old(self).scanner.i() < old(self).scanner.input@.len(),
            b == old(self).scanner.input@[old(self).scanner.i()],
            b == 39u8 || b == 96u8 || b == 44u8,
        ensures
            read_as(
                r,
                form_at(
                    old(self).scanner.input@,
                    old(self).scanner.i(),
                    old(self).scanner.d(),
                    depth as nat,
                ),
                final(self).scanner,
                old(self).scanner,
            ),
            r is Ok ==> final(self).scanner.i() > old(self).scanner.i(),
        decreases MAX_NESTING_DEPTH - depth, old(self).scanner.input@.len() - old(self).scanner.i(), 0nat,
    {
        if b == 39u8 {
            let _ = self.scanner.read_byte();
            self.wrap_prefix(depth, "quote")
        } else if b == 96u8 {
            let _ = self.scanner.read_byte();
            self.wrap_prefix(depth, "quasi")
        } else {
            let (_, second) = match self.scanner.peek_two() {
                Ok(pair) => pair,
                Err(e) => {
                    return Err(Stop::Error(e));
                },
            };
            if second == 64u8 {
                let _ = self.scanner.read_byte();
                let _ = self.scanner.read_byte();
                self.wrap_prefix(depth, "unquote-splice")
            } else {
                let _ = self.scanner.read_byte();
                self.wrap_prefix(depth, "unquote")
            }
        }
    }

    /// Wraps the following expression as `(name operand)`.
    pub(super) fn wrap_prefix(&mut self, depth: usize, name: &str) -> (r: Result<Sexp, Stop>)
        requires
            old(self).scanner.wf(),
            1 <= depth <= MAX_NESTING_DEPTH,
            old(self).scanner.i() >= 1,
        ensures
            read_as(
                r,
                wrap_prefix(
                    old(self).scanner.input@,
                    old(self).scanner.i(),
                    old(self).scanner.d(),
                    depth as nat,
                    name@,
                ),
                final(self).scanner,
                old(self).scanner,
            ),
            r is Ok ==> final(self).scanner.i() > old(self).scanner.i(),
        decreases MAX_NESTING_DEPTH - depth, old(self).scanner.input@.len() - old(self).scanner.i(), 1nat,
    {
        let operand = match self.parse_expr(depth) {
            Ok(x) => x,
            Err(stop) => {
                return Err(stop);
            },
        };
        let ghost before = self.scanner.pool();
        let ident = self.scanner.intern(name.to_owned());
        let head = Sexp::Atom(Atomic::Ident(ident));
        let tail = Sexp::Exp { head: Rc::new(operand), tail: Rc::new(Sexp::Unit) };
        proof {
            assert(Sexp::Unit@ == SexpView::Unit);
            assert(tail@ == SexpView::Exp(Box::new(operand@), Box::new(SexpView::Unit)));
            lemma_names_grow(operand@, before, self.scanner.pool());
            assert(names_within(SexpView::Unit, self.scanner.pool()));
            assert(names_within(tail@, self.scanner.pool()));
        }
        let r = Sexp::Exp { head: Rc::new(head), tail: Rc::new(tail) };
        proof {
            assert(head@ == SexpView::Atom(AtomView::Ident(name@)));
            assert(names_within(head@, self.scanner.pool()));
            assert(r@ == wrapped(name@, operand@));
        }
        Ok(r)
    }
}

} // verus!
