//! Lists, arrays and maps: the forms that hold other forms.

use crate::parser::error::ParseError;
use crate::parser::grammar::{
    Failure, MAX_NESTING_DEPTH, build_list, dict_insert, dotted_marker, find_key,
    lemma_skip_trivia, parse_array_form, parse_array_items,
    parse_list_tail, parse_map_entries, parse_map_form,
};
use crate::parser::position::position_at;
use crate::parser::scanner::{Stop, read_as};
use crate::parser::sexp::{
    Collection, Sexp, SexpView, entries_view, items_view, lemma_entries_view_index,
    lemma_entries_view_len, lemma_entries_view_push, lemma_entries_view_update,
    lemma_items_view_push, lemma_views_drop_last, lemma_views_push, sexp_eq, views,
};
use crate::parser::names::{
    all_names_within, entries_names_within, lemma_all_names_grow, lemma_array_names,
    lemma_build_list_names, lemma_dict_insert_names, lemma_dict_names, lemma_entries_names_grow,
    lemma_names_grow, lemma_push_names, names_within,
};
use crate::parser::Parser;
use std::rc::Rc;
use vstd::prelude::*;

verus! {

/// `(a . rest)`'s list of the forms `elems` ending in `tail`.
fn build_list_exec(elems: Vec<Sexp>, tail: Sexp) -> (r: Sexp)
    ensures
        r@ == build_list(views(elems@), tail@),
{
    let ghost orig = elems@;
    let mut elems = elems;
    let mut acc = tail;
    while elems.len() > 0
        invariant
            build_list(views(elems@), acc@) == build_list(views(orig), tail@),
        decreases elems@.len(),
    {
        proof {
            lemma_views_drop_last(elems@);
        }
        let h = elems.pop().unwrap();
        acc = Sexp::Exp { head: Rc::new(h), tail: Rc::new(acc) };
    }
    proof {
        assert(views(elems@) =~= Seq::<SexpView>::empty());
    }
    acc
}

impl Parser {
    /// Whether a lone `.` (followed by whitespace or `)`) is next: it
    /// introduces a dotted tail. Floats (`1.5`) and identifiers that contain
    /// `.` (`foo.bar`) never trigger this: they are consumed whole before.
    pub(super) fn peek_dotted_marker(&mut self) -> (r: Result<bool, ParseError>)
        requires
            old(self).scanner.wf(),
        ensures
            final(self).scanner.now_at(old(self).scanner, old(self).scanner.i(), old(self).scanner.d()),
            old(self).scanner.i() >= old(self).scanner.input@.len() ==> (r matches Err(e) && e@
                == crate::parser::error::ParseErrorView::UnexpectedEof(
                position_at(old(self).scanner.input@, old(self).scanner.i()),
            )),
            old(self).scanner.i() < old(self).scanner.input@.len() ==> r == Ok::<bool, ParseError>(
                dotted_marker(old(self).scanner.input@, old(self).scanner.i()),
            ),
    {
        let (a, b) = match self.scanner.peek_two() {
            Ok(pair) => pair,
            Err(e) => {
                return Err(e);
            },
        };
        Ok(a == 46u8 && (b == 10u8 || b == 13u8 || b == 9u8 || b == 32u8 || b == 41u8))
    }

    /// Parses the contents of a list after the opening `(` has been
    /// consumed, up to and including the matching `)`. Returns nil for `()`,
    /// otherwise a cons chain `(head . tail)`. An explicit `.` between
    /// form after the dot. Elements are collected iteratively, so list
    /// length never grows the stack — only nesting depth does.
    pub(super) fn parse_list_tail(&mut self, depth: usize) -> (r: Result<Sexp, Stop>)
        requires
            old(self).scanner.wf(),
            1 <= depth <= MAX_NESTING_DEPTH,
        ensures
            read_as(
                r,
                parse_list_tail(
                    old(self).scanner.input@,
                    old(self).scanner.i(),
                    old(self).scanner.d(),
                    depth as nat,
                    Seq::empty(),
                ),
                final(self).scanner,
                old(self).scanner,
            ),
            r is Ok ==> final(self).scanner.i() > old(self).scanner.i(),
        decreases MAX_NESTING_DEPTH - depth, old(self).scanner.input@.len() - old(self).scanner.i(), 2nat,
    {
        let ghost s = self.scanner.input@;
        let ghost i0 = self.scanner.i();
        let ghost d0 = self.scanner.d();
        let ghost total = parse_list_tail(s, i0, d0, depth as nat, Seq::empty());
        let mut elems: Vec<Sexp> = Vec::new();
        proof {
            assert(views(elems@) =~= Seq::<SexpView>::empty());
        }
        loop
            invariant
                self.scanner.wf(),
                self.scanner.input@ == s,
                s == old(self).scanner.input@,
                i0 == old(self).scanner.i(),
                d0 == old(self).scanner.d(),
                1 <= depth <= MAX_NESTING_DEPTH,
                i0 <= self.scanner.i() <= s.len(),
                total == parse_list_tail(s, i0, d0, depth as nat, Seq::empty()),
                total == parse_list_tail(
                    s,
                    self.scanner.i(),
                    self.scanner.d(),
                    depth as nat,
                    views(elems@),
                ),
                old(self).scanner.pool().subset_of(self.scanner.pool()),
                all_names_within(views(elems@), self.scanner.pool()),
            decreases s.len() - self.scanner.i(),
        {
            proof {
                reveal(parse_list_tail);
            }
            let ghost i = self.scanner.i();
            self.scanner.skip_trivia();
            proof {
                lemma_skip_trivia(s, i);
            }
            let b = match self.scanner.peek_one() {
                Ok(b) => b,
                Err(e) => {
                    return Err(Stop::Error(e));
                },
            };
            if b == 41u8 {
                match self.scanner.read_byte() {
                    Ok(_) => {},
                    Err(e) => {
                        return Err(Stop::Error(e));
                    },
                }
                proof {
                    assert(Sexp::Unit@ == SexpView::Unit);
                    assert(names_within(SexpView::Unit, self.scanner.pool()));
                    lemma_build_list_names(views(elems@), SexpView::Unit, self.scanner.pool());
                }
                return Ok(build_list_exec(elems, Sexp::Unit));
            }
            let ghost k = self.scanner.i();
            let ghost pool_k = self.scanner.pool();
            let e = match self.parse_expr(depth) {
                Ok(e) => e,
                Err(stop) => {
                    return Err(stop);
                },
            };
            proof {
                lemma_all_names_grow(views(elems@), pool_k, self.scanner.pool());
            }
            let ghost k2 = self.scanner.i();
            let ghost pool_e = self.scanner.pool();
            self.scanner.skip_trivia();
            proof {
                lemma_skip_trivia(s, k2);
            }
            let dotted = match self.peek_dotted_marker() {
                Ok(m) => m,
                Err(err) => {
                    return Err(Stop::Error(err));
                },
            };
            proof {
                lemma_views_push(elems@, e);
            }
            if dotted {
                let _ = self.scanner.read_byte();
                let ghost k3 = self.scanner.i();
                self.scanner.skip_trivia();
                proof {
                    lemma_skip_trivia(s, k3);
                }
                let last = match self.parse_expr(depth) {
                    Ok(x) => x,
                    Err(stop) => {
                        return Err(stop);
                    },
                };
                proof {
                    lemma_names_grow(e@, pool_e, self.scanner.pool());
                    lemma_push_names(views(elems@), e@, pool_e, self.scanner.pool());
                }
                let ghost k5 = self.scanner.i();
                self.scanner.skip_trivia();
                proof {
                    lemma_skip_trivia(s, k5);
                }
                let at = self.scanner.at();
                match self.scanner.read_byte() {
                    Ok(c) => {
                        if c == 41u8 {
                            elems.push(e);
                            proof {
                                lemma_build_list_names(views(elems@), last@, self.scanner.pool());
                            }
                            return Ok(build_list_exec(elems, last));
                        } else {
                            return Err(
                                Stop::Error(
                                    ParseError::ExpectedToken { expected: ')', at, got: c as char },
                                ),
                            );
                        }
                    },
                    Err(err) => {
                        return Err(Stop::Error(err));
                    },
                }
            }
            proof {
                lemma_push_names(views(elems@), e@, pool_e, pool_e);
            }
            elems.push(e);
        }
    }

    /// Parses an array literal including the opening `[` and closing `]`.
    pub(super) fn parse_array(&mut self, depth: usize) -> (r: Result<Sexp, Stop>)
        requires
            old(self).scanner.wf(),
            1 <= depth <= MAX_NESTING_DEPTH,
            old(self).scanner.i() < old(self).scanner.input@.len(),
            old(self).scanner.input@[old(self).scanner.i()] == 91u8,
        ensures
            read_as(
                r,
                parse_array_form(
                    old(self).scanner.input@,
                    old(self).scanner.i(),
                    old(self).scanner.d(),
                    depth as nat,
                ),
                final(self).scanner,
                old(self).scanner,
            ),
            r is Ok ==> final(self).scanner.i() > old(self).scanner.i(),
        decreases MAX_NESTING_DEPTH - depth, old(self).scanner.input@.len() - old(self).scanner.i(), 0nat,
    {
        let ghost s = self.scanner.input@;
        let ghost i0 = self.scanner.i();
        let ghost d0 = self.scanner.d();
        let _ = self.scanner.read_byte();
        proof {
            reveal(parse_array_form);
            reveal(parse_array_items);
        }
        let ghost total = parse_array_items(s, i0 + 1, d0, depth as nat, Seq::empty());
        let mut items: Vec<Rc<Sexp>> = Vec::new();
        proof {
            lemma_items_view_empty(items@);
        }
        loop
            invariant
                self.scanner.wf(),
                self.scanner.input@ == s,
                s == old(self).scanner.input@,
                i0 == old(self).scanner.i(),
                d0 == old(self).scanner.d(),
                1 <= depth <= MAX_NESTING_DEPTH,
                i0 < self.scanner.i() <= s.len(),
                total == parse_array_items(s, i0 + 1, d0, depth as nat, Seq::empty()),
                total == parse_array_items(
                    s,
                    self.scanner.i(),
                    self.scanner.d(),
                    depth as nat,
                    items_view(items@, items@.len()),
                ),
                old(self).scanner.pool().subset_of(self.scanner.pool()),
                all_names_within(items_view(items@, items@.len()), self.scanner.pool()),
            ensures
                self.scanner.wf(),
                self.scanner.input@ == s,
                i0 < self.scanner.i() < s.len(),
                s[self.scanner.i()] == 93u8,
                total == Ok::<(Seq<SexpView>, int, int), Failure>(
                    (items_view(items@, items@.len()), self.scanner.i(), self.scanner.d()),
                ),
            decreases s.len() - self.scanner.i(),
        {
            proof {
                reveal(parse_array_items);
                reveal(parse_array_form);
            }
            let ghost i = self.scanner.i();
            self.scanner.skip_trivia();
            proof {
                lemma_skip_trivia(s, i);
            }
            let b = match self.scanner.peek_one() {
                Ok(b) => b,
                Err(e) => {
                    return Err(Stop::Error(e));
                },
            };
            if b == 93u8 {
                break;
            }
            let ghost pool_k = self.scanner.pool();
            let e = match self.parse_expr(depth) {
                Ok(e) => e,
                Err(stop) => {
                    return Err(stop);
                },
            };
            let x = Rc::new(e);
            proof {
                lemma_items_view_push(items@, x);
                lemma_push_names(
                    items_view(items@, items@.len()),
                    e@,
                    pool_k,
                    self.scanner.pool(),
                );
            }
            items.push(x);
        }
        proof {
            reveal(parse_array_form);
            reveal(parse_array_items);
        }
        let at = self.scanner.at();
        match self.scanner.read_byte() {
            Ok(c) => {
                if c == 93u8 {
                    proof {
                        lemma_array_names(items_view(items@, items@.len()), self.scanner.pool());
                    }
                    Ok(Sexp::Collection(Collection::Array(items)))
                } else {
                    Err(Stop::Error(ParseError::ExpectedToken { expected: ']', at, got: c as char }))
                }
            },
            Err(e) => Err(Stop::Error(e)),
        }
    }

    /// Binds `key` to `value` among `entries`: an entry with an equal key is
    /// replaced in place, otherwise the entry goes at the end.
    fn insert_entry(entries: &mut Vec<(Rc<Sexp>, Rc<Sexp>)>, key: Sexp, value: Sexp)
        ensures
            entries_view(final(entries)@, final(entries)@.len()) == dict_insert(
                entries_view(old(entries)@, old(entries)@.len()),
                key@,
                value@,
            ),
    {
        let ghost ev = entries_view(entries@, entries@.len());
        proof {
            lemma_entries_view_len(entries@, entries@.len());
        }
        let mut k: usize = 0;
        while k < entries.len()
            invariant
                k <= entries@.len(),
                entries@ == old(entries)@,
                ev == entries_view(entries@, entries@.len()),
                ev.len() == entries@.len(),
                find_key(ev, key@, k as nat) is None,
            decreases entries@.len() - k,
        {
            proof {
                lemma_entries_view_index(entries@, k as int);
            }
            let existing: &Sexp = &*entries[k].0;
            if sexp_eq(existing, &key) {
                proof {
                    lemma_find_key_full(ev, key@, (k + 1) as nat);
                    lemma_entries_view_update(entries@, k as int, (Rc::new(key), Rc::new(value)));
                }
                entries[k] = (Rc::new(key), Rc::new(value));
                return;
            }
            k = k + 1;
        }
        proof {
            lemma_entries_view_push(entries@, (Rc::new(key), Rc::new(value)));
        }
        entries.push((Rc::new(key), Rc::new(value)));
    }

    /// Parses a map literal including the opening `{` and closing `}`.
    pub(super) fn parse_map(&mut self, depth: usize) -> (r: Result<Sexp, Stop>)
        requires
            old(self).scanner.wf(),
            1 <= depth <= MAX_NESTING_DEPTH,
            old(self).scanner.i() < old(self).scanner.input@.len(),
            old(self).scanner.input@[old(self).scanner.i()] == 123u8,
        ensures
            read_as(
                r,
                parse_map_form(
                    old(self).scanner.input@,
                    old(self).scanner.i(),
                    old(self).scanner.d(),
                    depth as nat,
                ),
                final(self).scanner,
                old(self).scanner,
            ),
            r is Ok ==> final(self).scanner.i() > old(self).scanner.i(),
        decreases MAX_NESTING_DEPTH - depth, old(self).scanner.input@.len() - old(self).scanner.i(), 0nat,
    {
        let ghost s = self.scanner.input@;
        let ghost i0 = self.scanner.i();
        let ghost d0 = self.scanner.d();
        let _ = self.scanner.read_byte();
        proof {
            reveal(parse_map_form);
        }
        let ghost total = parse_map_entries(s, i0 + 1, d0, depth as nat, Seq::empty());
        let mut entries: Vec<(Rc<Sexp>, Rc<Sexp>)> = Vec::new();
        proof {
            lemma_entries_view_empty(entries@);
        }
        loop
            invariant
                self.scanner.wf(),
                self.scanner.input@ == s,
                s == old(self).scanner.input@,
                i0 == old(self).scanner.i(),
                d0 == old(self).scanner.d(),
                1 <= depth <= MAX_NESTING_DEPTH,
                i0 < self.scanner.i() <= s.len(),
                total == parse_map_entries(s, i0 + 1, d0, depth as nat, Seq::empty()),
                total == parse_map_entries(
                    s,
                    self.scanner.i(),
                    self.scanner.d(),
                    depth as nat,
                    entries_view(entries@, entries@.len()),
                ),
                old(self).scanner.pool().subset_of(self.scanner.pool()),
                entries_names_within(entries_view(entries@, entries@.len()), self.scanner.pool()),
            ensures
                self.scanner.wf(),
                self.scanner.input@ == s,
                i0 < self.scanner.i() < s.len(),
                s[self.scanner.i()] == 125u8,
                total == Ok::<(Seq<(SexpView, SexpView)>, int, int), Failure>(
                    (entries_view(entries@, entries@.len()), self.scanner.i(), self.scanner.d()),
                ),
            decreases s.len() - self.scanner.i(),
        {
            proof {
                reveal(parse_map_entries);
                reveal(parse_map_form);
            }
            let ghost i = self.scanner.i();
            self.scanner.skip_trivia();
            proof {
                lemma_skip_trivia(s, i);
            }
            let b = match self.scanner.peek_one() {
                Ok(b) => b,
                Err(e) => {
                    return Err(Stop::Error(e));
                },
            };
            if b == 125u8 {
                break;
            }
            let ghost pool_k = self.scanner.pool();
            let key = match self.parse_expr(depth) {
                Ok(e) => e,
                Err(stop) => {
                    return Err(stop);
                },
            };
            let ghost k2 = self.scanner.i();
            self.scanner.skip_trivia();
            proof {
                lemma_skip_trivia(s, k2);
            }
            match self.scanner.read_byte() {
                Ok(c) => {
                    if c != 58u8 {
                        let at = self.scanner.at();
                        return Err(
                            Stop::Error(
                                ParseError::ExpectedToken { expected: ':', at, got: c as char },
                            ),
                        );
                    }
                },
                Err(e) => {
                    return Err(Stop::Error(e));
                },
            }
            let ghost pool_key = self.scanner.pool();
            let value = match self.parse_expr(depth) {
                Ok(e) => e,
                Err(stop) => {
                    return Err(stop);
                },
            };
            proof {
                let pool_v = self.scanner.pool();
                let ev = entries_view(entries@, entries@.len());
                lemma_entries_names_grow(ev, pool_k, pool_v);
                lemma_names_grow(key@, pool_key, pool_v);
                lemma_dict_insert_names(ev, key@, value@, pool_v);
            }
            Self::insert_entry(&mut entries, key, value);
        }
        proof {
            reveal(parse_map_form);
            reveal(parse_map_entries);
        }
        let at = self.scanner.at();
        match self.scanner.read_byte() {
            Ok(c) => {
                if c == 125u8 {
                    proof {
                        lemma_dict_names(entries_view(entries@, entries@.len()), self.scanner.pool());
                    }
                    Ok(Sexp::Collection(Collection::Dict(entries)))
                } else {
                    Err(Stop::Error(ParseError::ExpectedToken { expected: '}', at, got: c as char }))
                }
            },
            Err(e) => Err(Stop::Error(e)),
        }
    }
}


proof fn lemma_items_view_empty(items: Seq<Rc<Sexp>>)
    requires
        items.len() == 0,
    ensures
        items_view(items, items.len()) == Seq::<SexpView>::empty(),
{
    assert(items_view(items, items.len()) =~= Seq::<SexpView>::empty());
}

proof fn lemma_entries_view_empty(entries: Seq<(Rc<Sexp>, Rc<Sexp>)>)
    requires
        entries.len() == 0,
    ensures
        entries_view(entries, entries.len()) == Seq::<(SexpView, SexpView)>::empty(),
{
    assert(entries_view(entries, entries.len()) =~= Seq::<(SexpView, SexpView)>::empty());
}

/// Once a key is found among the first `n` entries, it is the key found
/// among all of them.
proof fn lemma_find_key_full(entries: Seq<(SexpView, SexpView)>, k: SexpView, n: nat)
    requires
        n <= entries.len(),
        find_key(entries, k, n) is Some,
    ensures
        find_key(entries, k, entries.len()) == find_key(entries, k, n),
    decreases entries.len() - n,
{
    if n < entries.len() {
        lemma_find_key_full(entries, k, (n + 1) as nat);
    }
}

} // verus!
