//! The reader's behaviour on concrete sources.

use rizz::parser::grammar::MAX_NESTING_DEPTH;
use rizz::parser::peeker::PEEK_READER_CAP;
use rizz::parser::{Atomic, Collection, Decimal, ParseError, Parser, Sexp};
use std::rc::Rc;

// ----- helpers -----

/// Parses `input` and asserts exactly one top-level form, returning it.
/// Most tests cover a single form; multi-form parsing has its own tests.
fn parse_str(input: &str) -> Result<Sexp, ParseError> {
    parse_all(input).map(|mut forms| {
        assert_eq!(forms.len(), 1, "expected exactly one top-level form");
        forms.pop().unwrap()
    })
}

fn parse_all(input: &str) -> Result<Vec<Sexp>, ParseError> {
    Parser::new(input.as_bytes()).parse()
}

fn parse_ok(input: &str) -> Sexp {
    parse_str(input).expect("expected successful parse")
}

/// Construct a cons-list `Sexp` from a Vec of elements. Mirrors how the
/// parser builds lists so we can assert on full structures concisely.
fn list(elems: Vec<Sexp>) -> Sexp {
    let mut result = Sexp::Unit;
    for e in elems.into_iter().rev() {
        result = Sexp::Exp {
            head: Rc::new(e),
            tail: Rc::new(result),
        };
    }
    result
}

fn num(n: i64) -> Sexp {
    Sexp::Atom(Atomic::Int(n))
}
fn float(f: f64) -> Sexp {
    let literal = format!("{f:?}");
    Sexp::Atom(Atomic::Float(Decimal::from_literal(literal.as_bytes()).unwrap()))
}
fn ident(s: &str) -> Sexp {
    Sexp::Atom(Atomic::Ident(Rc::new(s.to_string())))
}
fn string(s: &str) -> Sexp {
    Sexp::Atom(Atomic::Str(s.to_string()))
}

fn map(entries: Vec<(Sexp, Sexp)>) -> Sexp {
    Sexp::Collection(Collection::Dict(
        entries
            .into_iter()
            .map(|(k, v)| (Rc::new(k), Rc::new(v)))
            .collect(),
    ))
}

fn array(m: &[Rc<Sexp>]) -> Sexp {
    Sexp::Collection(Collection::Array(m.to_vec()))
}

// ----- empty / trivial -----

#[test]
fn mod_empty_list_is_unit() {
    assert_eq!(parse_ok("()"), Sexp::Unit);
}

#[test]
fn mod_leading_whitespace_before_open_is_skipped() {
    assert_eq!(parse_ok("   ()"), Sexp::Unit);
    assert_eq!(parse_ok("\n\r ()"), Sexp::Unit);
}

#[test]
fn mod_whitespace_inside_empty_list_is_skipped() {
    assert_eq!(parse_ok("(   )"), Sexp::Unit);
    assert_eq!(parse_ok("(\n)"), Sexp::Unit);
}

// ----- atoms inside a single-element list -----

#[test]
fn mod_single_int() {
    assert_eq!(parse_ok("(42)"), list(vec![num(42)]));
}

#[test]
fn mod_single_zero() {
    assert_eq!(parse_ok("(0)"), list(vec![num(0)]));
}

#[test]
fn mod_single_float() {
    assert_eq!(parse_ok("(42.069)"), list(vec![float(42.069)]));
}

#[test]
fn mod_float_with_trailing_dot_is_valid() {
    // "1." reads as the number one: a point with no digits after it
    assert_eq!(parse_ok("(1.)"), list(vec![float(1.0)]));
}

#[test]
fn mod_single_ident() {
    assert_eq!(parse_ok("(foo)"), list(vec![ident("foo")]));
}

#[test]
fn mod_single_string() {
    assert_eq!(parse_ok(r#"("hello")"#), list(vec![string("hello")]));
}

#[test]
fn mod_empty_string_literal() {
    assert_eq!(parse_ok(r#"("")"#), list(vec![string("")]));
}

#[test]
fn mod_string_with_spaces_and_punctuation() {
    assert_eq!(
        parse_ok(r#"("hello, world!")"#),
        list(vec![string("hello, world!")])
    );
}

// ----- multi-element lists -----

#[test]
fn mod_list_of_ints() {
    assert_eq!(parse_ok("(1 2 3)"), list(vec![num(1), num(2), num(3)]));
}

#[test]
fn mod_list_of_mixed_atoms() {
    assert_eq!(
        parse_ok(r#"(foo 42 3.5 "bar")"#),
        list(vec![ident("foo"), num(42), float(3.5), string("bar")])
    );
}

#[test]
fn mod_extra_whitespace_between_elements() {
    assert_eq!(
        parse_ok("(  1   2   3  )"),
        list(vec![num(1), num(2), num(3)])
    );
}

#[test]
fn mod_newlines_between_elements() {
    assert_eq!(parse_ok("(1\n2\n3)"), list(vec![num(1), num(2), num(3)]));
}

// ----- nested lists -----

#[test]
fn mod_nested_list() {
    // (a (b c))  =>  cons(a, cons(cons(b, cons(c, nil)), nil))
    let inner = list(vec![ident("b"), ident("c")]);
    let expected = list(vec![ident("a"), inner]);
    assert_eq!(parse_ok("(a (b c))"), expected);
}

#[test]
fn mod_deeply_nested_list() {
    // (((1)))
    let l1 = list(vec![num(1)]);
    let l2 = list(vec![l1]);
    let l3 = list(vec![l2]);
    assert_eq!(parse_ok("(((1)))"), l3);
}

#[test]
fn mod_nested_empty_lists() {
    // (() ())
    let expected = list(vec![Sexp::Unit, Sexp::Unit]);
    assert_eq!(parse_ok("(() ())"), expected);
}

#[test]
fn mod_list_starting_with_nested_list() {
    // ((a) b)
    let inner = list(vec![ident("a")]);
    let expected = list(vec![inner, ident("b")]);
    assert_eq!(parse_ok("((a) b)"), expected);
}

// ----- identifier interning -----

#[test]
fn mod_repeated_identifiers_share_rc() {
    let parsed = parse_ok("(foo foo)");
    // Walk the structure and pull out the two Rc<String> values.
    let (a, b) = match &parsed {
        Sexp::Exp { head, tail } => {
            let a = match &**head {
                Sexp::Atom(Atomic::Ident(s)) => s.clone(),
                other => panic!("expected ident, got {:?}", other),
            };
            let b = match &**tail {
                Sexp::Exp { head, .. } => match &**head {
                    Sexp::Atom(Atomic::Ident(s)) => s.clone(),
                    other => panic!("expected ident, got {:?}", other),
                },
                other => panic!("expected cons, got {:?}", other),
            };
            (a, b)
        }
        other => panic!("expected non-empty list, got {:?}", other),
    };
    assert!(
        Rc::ptr_eq(&a, &b),
        "expected the same Rc<String> for repeated identifiers"
    );
}

#[test]
fn mod_distinct_identifiers_do_not_share_rc() {
    let parsed = parse_ok("(foo bar)");
    let (a, b) = match &parsed {
        Sexp::Exp { head, tail } => {
            let a = match &**head {
                Sexp::Atom(Atomic::Ident(s)) => s.clone(),
                _ => panic!(),
            };
            let b = match &**tail {
                Sexp::Exp { head, .. } => match &**head {
                    Sexp::Atom(Atomic::Ident(s)) => s.clone(),
                    _ => panic!(),
                },
                _ => panic!(),
            };
            (a, b)
        }
        _ => panic!(),
    };
    assert!(!Rc::ptr_eq(&a, &b));
    assert_ne!(&*a, &*b);
}

// ----- numbers -----

#[test]
fn mod_large_positive_int() {
    assert_eq!(parse_ok("(9223372036854775807)"), list(vec![num(i64::MAX)]));
}

#[test]
fn mod_int_overflow_is_error() {
    // i64::MAX + 1
    let err = parse_str("(9223372036854775808)").unwrap_err();
    assert!(
        matches!(err, ParseError::ParseIntError { .. }),
        "got {:?}",
        err
    );
}

#[test]
fn mod_malformed_float_is_error() {
    // Two dots: the literal "1.2.3" is read whole, and no float has two points.
    let err = parse_str("(1.2.3)").unwrap_err();
    assert!(
        matches!(err, ParseError::ParseFloatError { .. }),
        "got {:?}",
        err
    );
}

// ----- collections -----
#[test]
fn map_of_ints() {
    let m = vec![(num(1), num(1)), (num(2), num(5))];
    assert_eq!(parse_ok("({1:1  2: 5})"), list(vec![map(m)]));
}

#[test]
fn zero_element_map() {
    assert_eq!(parse_ok("({})"), list(vec![map(vec![])]));
}

#[test]
fn one_element_map_int() {
    let m = vec![(num(1), num(1))];
    assert_eq!(parse_ok("({1:1})"), list(vec![map(m)]));
}

#[test]
fn one_element_map_str_with_quote() {
    let v = list(vec![ident("quote"), ident("foo")]);
    let m = vec![(string("1"), v)];
    assert_eq!(parse_ok(r#"({"1": 'foo})"#), list(vec![map(m)]));
}

#[test]
fn one_element_map_str_with_quoted_key() {
    let k = list(vec![ident("quote"), ident("foo")]);
    let v = string("1");
    let m = vec![(k, v)];
    assert_eq!(parse_ok(r#"({ 'foo: "1"})"#), list(vec![map(m)]));
}

#[test]
fn array_of_ints() {
    let elems = [Rc::new(num(1)), Rc::new(num(2)), Rc::new(num(3))];
    assert_eq!(parse_ok("([1  2  3])"), list(vec![array(&elems)]));
}

#[test]
fn zero_element_array() {
    assert_eq!(parse_ok("([])"), list(vec![array(&[])]));
}

#[test]
fn single_element_array() {
    let elems = [Rc::new(num(42))];
    assert_eq!(parse_ok("([42])"), list(vec![array(&elems)]));
}

// ----- identifiers: lexer boundaries -----

#[test]
fn mod_ident_with_internal_punctuation_is_one_token() {
    // parse_ident stops only on space or ')'. A leading '-' now dispatches
    // to parse_number, but '-' inside an identifier (after a non-'-' first
    // byte) is fine.
    assert_eq!(parse_ok("(foo-bar)"), list(vec![ident("foo-bar")]));
    assert_eq!(parse_ok("(<=)"), list(vec![ident("<=")]));
    assert_eq!(parse_ok("(+)"), list(vec![ident("+")]));
}

#[test]
fn mod_negative_int() {
    assert_eq!(parse_ok("(-42)"), list(vec![num(-42)]));
}

#[test]
fn mod_negative_float() {
    assert_eq!(parse_ok("(-42.069)"), list(vec![float(-42.069)]));
}

#[test]
fn mod_negative_zero_int() {
    // -0 as an integer is just 0; this verifies the negation path doesn't crash.
    assert_eq!(parse_ok("(-0)"), list(vec![num(0)]));
}

// ----- error cases -----

#[test]
fn top_level_atom_parses() {
    // A program need not be a list: a bare atom is a valid top-level form.
    assert_eq!(parse_ok("foo"), ident("foo"));
    assert_eq!(parse_ok("42"), num(42));
}

#[test]
fn top_level_close_paren_is_error() {
    let err = parse_str(")").unwrap_err();
    assert!(
        matches!(err, ParseError::UnexpectedCloseParen { .. }),
        "got {:?}",
        err
    );
}

#[test]
fn mod_empty_input_is_error() {
    let err = parse_str("").unwrap_err();
    assert!(
        matches!(err, ParseError::UnexpectedEof { .. }),
        "got {:?}",
        err
    );
}

// ----- multiple top-level forms -----

#[test]
fn multiple_top_level_forms_collected_in_order() {
    // Two whitespace-separated lists yield two forms; the program is
    // implicitly sequenced.
    assert_eq!(
        parse_all("(1 2) (3 4)").unwrap(),
        vec![list(vec![num(1), num(2)]), list(vec![num(3), num(4)])],
    );
}

#[test]
fn quoted_form_followed_by_atom_is_two_forms() {
    // `'(1 2)` is a single reader-macro form `(quote (1 2))`; `foo` is the
    // second top-level form.
    let quoted = list(vec![ident("quote"), list(vec![num(1), num(2)])]);
    assert_eq!(parse_all("'(1 2) foo").unwrap(), vec![quoted, ident("foo")]);
}

#[test]
fn comment_between_top_level_forms_is_skipped() {
    // Inter-form trivia (whitespace + line comments) is consumed between
    // top-level forms just like between list elements.
    assert_eq!(
        parse_all("(let x 1) ;; bind\n(+ x 2)").unwrap(),
        vec![
            list(vec![ident("let"), ident("x"), num(1)]),
            list(vec![ident("+"), ident("x"), num(2)]),
        ],
    );
}

#[test]
fn trailing_whitespace_is_allowed() {
    assert_eq!(parse_ok("(1 2)  \n\t"), list(vec![num(1), num(2)]));
}

#[test]
fn unterminated_list_is_eof_error() {
    let err = parse_str("(1 2").unwrap_err();
    assert!(
        matches!(err, ParseError::UnexpectedEof { .. }),
        "got {:?}",
        err
    );
}

#[test]
fn mod_unterminated_string_then_eof_errors() {
    let err = parse_str(r#"("abc"#).unwrap_err();
    assert!(
        matches!(err, ParseError::UnexpectedEof { .. }),
        "got {:?}",
        err
    );
}

#[test]
fn invalid_escape_is_error() {
    let err = parse_str(r#""a\qb""#).unwrap_err();
    assert!(
        matches!(err, ParseError::InvalidEscape { got: 'q', .. }),
        "got {:?}",
        err
    );
}

#[test]
fn nesting_past_depth_limit_is_too_deep_error() {
    let src = "(".repeat(MAX_NESTING_DEPTH + 1);
    let err = parse_str(&src).unwrap_err();
    assert!(matches!(err, ParseError::TooDeep { .. }), "got {:?}", err);
}

#[test]
fn long_flat_list_parses_without_deep_recursion() {
    // List *length* must not consume stack — neither in the parser
    // (iterative element loop) nor when the result is dropped
    // (`Sexp`'s iterative spine drop). Only nesting depth recurses.
    let mut src = String::from("(");
    for i in 0..100_000 {
        src.push_str(&i.to_string());
        src.push(' ');
    }
    src.push(')');
    let forms = parse_all(&src).expect("long flat list should parse");
    assert_eq!(forms.len(), 1);
}

// ----- pos tracking on error -----

#[test]
fn top_level_close_paren_reports_position() {
    let err = parse_str(")").unwrap_err();
    match err {
        ParseError::UnexpectedCloseParen { at } => {
            assert_eq!(at.byte, 0);
            assert_eq!(at.line, 1);
            assert_eq!(at.col, 1);
        }
        other => panic!("expected UnexpectedCloseParen, got {:?}", other),
    }
}

#[test]
fn error_position_accounts_for_skipped_whitespace() {
    // skip_trivia consumes three spaces (byte = 3), then the `)` at the
    // start of the form is reported at that position.
    let err = parse_str("   )").unwrap_err();
    match err {
        ParseError::UnexpectedCloseParen { at } => {
            assert_eq!(at.byte, 3);
            assert_eq!(at.line, 1);
            assert_eq!(at.col, 4);
        }
        other => panic!("expected UnexpectedCloseParen, got {:?}", other),
    }
}

// ----- line/column tracking -----

#[test]
fn position_tracks_lines_after_newlines() {
    // After parsing "(a\nb)" the parser sits just past ')':
    // byte=5, line=2, col=3
    let mut p = Parser::new("(a\nb)".as_bytes());
    p.parse().unwrap();
    let pos = p.position();
    assert_eq!(pos.byte, 5);
    assert_eq!(pos.line, 2);
    assert_eq!(pos.col, 3);
}

#[test]
fn error_reports_line_and_col() {
    // Two newlines, two spaces, then ')' — ')' is at line 3, col 3.
    let err = parse_str("\n\n  )").unwrap_err();
    match err {
        ParseError::UnexpectedCloseParen { at } => {
            assert_eq!(at.byte, 4);
            assert_eq!(at.line, 3);
            assert_eq!(at.col, 3);
        }
        other => panic!("expected UnexpectedCloseParen, got {:?}", other),
    }
}

#[test]
fn unexpected_close_brace_reports_line_and_col() {
    // Newline then ')' at top-level — ')' is at line 2, col 1.
    let err = parse_str("\n)").unwrap_err();
    match err {
        ParseError::UnexpectedCloseParen { at } => {
            assert_eq!(at.byte, 1);
            assert_eq!(at.line, 2);
            assert_eq!(at.col, 1);
        }
        other => panic!("expected UnexpectedCloseBrace, got {:?}", other),
    }
}

#[test]
fn missing_close_brace_reports_line_and_col() {
    // Unterminated list across two lines — EOF reached at line 2, col 2.
    let err = parse_str("(1\n2").unwrap_err();
    match err {
        ParseError::UnexpectedEof { at } => {
            assert_eq!(at.line, 2);
            assert_eq!(at.col, 2);
        }
        other => panic!("expected UnexpectedEof, got {:?}", other),
    }
}

#[test]
fn parse_int_error_reports_line_and_col() {
    // Overflow on line 2.
    let err = parse_str("(\n9223372036854775808)").unwrap_err();
    match err {
        ParseError::ParseIntError { at, .. } => {
            assert_eq!(at.line, 2);
        }
        other => panic!("expected ParseIntError, got {:?}", other),
    }
}

// ----- a source in a buffer of its own -----

#[test]
fn mod_parses_from_cursor() {
    let source = b"(1 2)".to_vec();
    let mut p = Parser::new(&source);
    assert_eq!(p.parse().unwrap(), vec![list(vec![num(1), num(2)])]);
}

// ----- realistic-ish input -----

#[test]
fn mod_realistic_program_like_input() {
    // (defn square (x) (* x x))
    let inner_args = list(vec![ident("x")]);
    let inner_body = list(vec![ident("*"), ident("x"), ident("x")]);
    let expected = list(vec![ident("defn"), ident("square"), inner_args, inner_body]);
    assert_eq!(parse_ok("(defn square (x) (* x x))"), expected);
}

// ----- line comments -----

#[test]
fn comment_at_top_level_before_form() {
    assert_eq!(parse_ok(";; hello\n42"), num(42));
}

#[test]
fn semicolon_terminates_identifier() {
    // `foo;;bar\n` should lex as identifier `foo` then a comment.
    // The whole input is the bare atom `foo` at top level.
    assert_eq!(parse_ok("foo;;bar\n"), ident("foo"));
}

#[test]
fn inline_trailing_comment() {
    assert_eq!(
        parse_ok("(1 2) ;; trailing comment\n"),
        list(vec![num(1), num(2)])
    );
}

#[test]
fn comment_between_list_elements() {
    assert_eq!(parse_ok("(1 ;; middle\n 2)"), list(vec![num(1), num(2)]));
}

#[test]
fn comment_ending_at_eof_without_newline() {
    // No trailing newline after the comment.
    assert_eq!(parse_ok("42 ;; bye"), num(42));
}

#[test]
fn semicolon_inside_string_is_literal() {
    // The `;;` is part of the string, not a comment marker.
    assert_eq!(parse_ok(r#""a;;b""#), string("a;;b"));
}

#[test]
fn comment_only_input_is_error() {
    let err = parse_str(";; just a comment\n").unwrap_err();
    assert!(
        matches!(err, ParseError::UnexpectedEof { .. }),
        "got {:?}",
        err
    );
}

#[test]
fn position_after_comment_tracks_line() {
    // The `)` is the first non-trivia byte and sits on line 2.
    let err = parse_str(";; comment\n)").unwrap_err();
    match err {
        ParseError::UnexpectedCloseParen { at } => {
            assert_eq!(at.line, 2);
            assert_eq!(at.col, 1);
        }
        other => panic!("expected UnexpectedCloseParen, got {:?}", other),
    }
}

// ----- dotted lists -----

/// Build a cons chain ending in `tail` rather than `Unit`.
fn dotted(elems: Vec<Sexp>, tail: Sexp) -> Sexp {
    elems.into_iter().rev().fold(tail, |t, h| Sexp::Exp {
        head: Rc::new(h),
        tail: Rc::new(t),
    })
}

#[test]
fn dotted_pair_two_elements() {
    // (a . b) -> Cons(a, b)
    assert_eq!(parse_ok("(a . b)"), dotted(vec![ident("a")], ident("b")));
}

#[test]
fn dotted_list_collects_prefix_then_tail() {
    // (a b c . d) -> Cons(a, Cons(b, Cons(c, d)))
    assert_eq!(
        parse_ok("(a b c . d)"),
        dotted(vec![ident("a"), ident("b"), ident("c")], ident("d"))
    );
}

#[test]
fn dotted_tail_can_be_arbitrary_form() {
    // (a . (b c)) -> Cons(a, Cons(b, Cons(c, Unit))) -- equivalent to (a b c)
    assert_eq!(
        parse_ok("(a . (b c))"),
        list(vec![ident("a"), ident("b"), ident("c")])
    );
}

#[test]
fn dot_inside_identifier_is_not_a_marker() {
    // (foo.bar baz) -> one ident `foo.bar`, then `baz`, terminated by Unit.
    assert_eq!(
        parse_ok("(foo.bar baz)"),
        list(vec![ident("foo.bar"), ident("baz")])
    );
}

#[test]
fn float_in_list_is_not_a_dotted_marker() {
    // (1.5 2) -> list of floats; the `.` inside the float never reaches the
    // inter-element peek.
    assert_eq!(parse_ok("(1.5 2)"), list(vec![float(1.5), num(2)]));
}

#[test]
fn dotted_pair_with_extra_form_is_error() {
    // (a . b c) -> after the dotted tail `b`, the next byte must be `)`.
    let err = parse_str("(a . b c)").unwrap_err();
    assert!(
        matches!(err, ParseError::ExpectedToken { expected: ')', .. }),
        "got {:?}",
        err
    );
}

#[test]
fn stray_semicolon_is_error() {
    // A lone `;` not followed by another `;` is not a comment and not a
    // valid token. Inside a list it surfaces as StraySemicolon rather
    // than panicking (parse_ident used to assert here).
    let err = parse_str("(foo ;bar)").unwrap_err();
    assert!(
        matches!(err, ParseError::StraySemicolon { .. }),
        "got {:?}",
        err
    );
}

// ----- peek across a refill boundary -----

/// Parses `input` from a source that hands back at most one byte per read.
/// This forces every buffer refill to surface a single byte, so any
/// two-byte lookahead must read ahead across a refill boundary — exactly
/// the case a plain buffered reader mis-lexes. Parsing through it must
/// match parsing the same source from a contiguous slice.
fn parse_dripped(input: &str) -> Result<Vec<Sexp>, ParseError> {
    Parser::with_read_size(input.as_bytes(), 1).parse()
}

#[test]
fn two_byte_tokens_survive_a_split_buffer() {
    // Each of these hinges on a reliable two-byte peek: `,@` vs `,`, the
    // standalone dotted `.`, and the `;;` that opens a comment. Drip-feeding
    // one byte per read splits every such token across reads, which the old
    // fill_buf-only peek could not see past.
    for src in [
        "(a ,@b)",
        "(a ,b)",
        "(a . b)",
        "(a b ;; trailing comment\n c)",
        "(foo.bar ,@xs . tail)",
    ] {
        assert_eq!(
            parse_dripped(src).unwrap(),
            parse_all(src).unwrap(),
            "drip-fed parse of {src:?} diverged from contiguous parse",
        );
    }
}

#[test]
fn peek_reads_ahead_across_a_real_refill_boundary() {
    // Place `,@` so its two bytes straddle byte index PEEK_READER_CAP: pad
    // a list with single-char elements until the `,@` token lands on the
    // buffer seam, then confirm it still lexes as unquote-splice.
    let mut src = String::from("(");
    // Two bytes per element ("a "), so reach one byte short of the seam.
    while src.len() < PEEK_READER_CAP - 1 {
        src.push_str("a ");
    }
    assert_eq!(src.len(), PEEK_READER_CAP - 1);
    src.push_str(",@b)");

    let forms = parse_all(&src).unwrap();
    assert_eq!(forms.len(), 1);

    // Walk to the final cons cell; its head must be (unquote-splice b),
    // not a bare `,` unquote of `@b`.
    let mut node = &forms[0];
    let splice = loop {
        let Sexp::Exp { head, tail } = node else {
            panic!("expected a proper list");
        };
        if matches!(tail.as_ref(), Sexp::Unit) {
            break head.as_ref();
        }
        node = tail;
    };
    assert_eq!(
        splice,
        &list(vec![ident("unquote-splice"), ident("b")]),
        "token straddling the buffer seam mis-lexed",
    );
}

// ----- the same cases, as first written for the reader -----

// ----- empty / trivial -----

#[test]
fn parser_empty_list_is_unit() {
    assert_eq!(parse_ok("()"), Sexp::Unit);
}

#[test]
fn parser_leading_whitespace_before_open_is_skipped() {
    assert_eq!(parse_ok("   ()"), Sexp::Unit);
    assert_eq!(parse_ok("\n\r ()"), Sexp::Unit);
}

#[test]
fn parser_whitespace_inside_empty_list_is_skipped() {
    assert_eq!(parse_ok("(   )"), Sexp::Unit);
    assert_eq!(parse_ok("(\n)"), Sexp::Unit);
}

// ----- atoms inside a single-element list -----

#[test]
fn parser_single_int() {
    assert_eq!(parse_ok("(42)"), list(vec![num(42)]));
}

#[test]
fn parser_single_zero() {
    assert_eq!(parse_ok("(0)"), list(vec![num(0)]));
}

#[test]
fn parser_single_float() {
    assert_eq!(parse_ok("(42.069)"), list(vec![float(42.069)]));
}

#[test]
fn parser_float_with_trailing_dot_is_valid() {
    // "1." reads as the number one: a point with no digits after it
    assert_eq!(parse_ok("(1.)"), list(vec![float(1.0)]));
}

#[test]
fn parser_single_ident() {
    assert_eq!(parse_ok("(foo)"), list(vec![ident("foo")]));
}

#[test]
fn parser_single_string() {
    assert_eq!(parse_ok(r#"("hello")"#), list(vec![string("hello")]));
}

#[test]
fn parser_empty_string_literal() {
    assert_eq!(parse_ok(r#"("")"#), list(vec![string("")]));
}

#[test]
fn parser_string_with_spaces_and_punctuation() {
    assert_eq!(
        parse_ok(r#"("hello, world!")"#),
        list(vec![string("hello, world!")])
    );
}

// ----- multi-element lists -----

#[test]
fn parser_list_of_ints() {
    assert_eq!(parse_ok("(1 2 3)"), list(vec![num(1), num(2), num(3)]));
}

#[test]
fn parser_list_of_mixed_atoms() {
    assert_eq!(
        parse_ok(r#"(foo 42 3.5 "bar")"#),
        list(vec![ident("foo"), num(42), float(3.5), string("bar")])
    );
}

#[test]
fn parser_extra_whitespace_between_elements() {
    assert_eq!(
        parse_ok("(  1   2   3  )"),
        list(vec![num(1), num(2), num(3)])
    );
}

#[test]
fn parser_newlines_between_elements() {
    assert_eq!(parse_ok("(1\n2\n3)"), list(vec![num(1), num(2), num(3)]));
}

// ----- nested lists -----

#[test]
fn parser_nested_list() {
    // (a (b c))  =>  cons(a, cons(cons(b, cons(c, nil)), nil))
    let inner = list(vec![ident("b"), ident("c")]);
    let expected = list(vec![ident("a"), inner]);
    assert_eq!(parse_ok("(a (b c))"), expected);
}

#[test]
fn parser_deeply_nested_list() {
    // (((1)))
    let l1 = list(vec![num(1)]);
    let l2 = list(vec![l1]);
    let l3 = list(vec![l2]);
    assert_eq!(parse_ok("(((1)))"), l3);
}

#[test]
fn parser_nested_empty_lists() {
    // (() ())
    let expected = list(vec![Sexp::Unit, Sexp::Unit]);
    assert_eq!(parse_ok("(() ())"), expected);
}

#[test]
fn parser_list_starting_with_nested_list() {
    // ((a) b)
    let inner = list(vec![ident("a")]);
    let expected = list(vec![inner, ident("b")]);
    assert_eq!(parse_ok("((a) b)"), expected);
}

// ----- identifier interning -----

#[test]
fn parser_repeated_identifiers_share_rc() {
    let parsed = parse_ok("(foo foo)");
    // Walk the structure and pull out the two Rc<String> values.
    let (a, b) = match &parsed {
        Sexp::Exp { head, tail } => {
            let a = match &**head {
                Sexp::Atom(Atomic::Ident(s)) => s.clone(),
                other => panic!("expected ident, got {:?}", other),
            };
            let b = match &**tail {
                Sexp::Exp { head, .. } => match &**head {
                    Sexp::Atom(Atomic::Ident(s)) => s.clone(),
                    other => panic!("expected ident, got {:?}", other),
                },
                other => panic!("expected cons, got {:?}", other),
            };
            (a, b)
        }
        other => panic!("expected non-empty list, got {:?}", other),
    };
    assert!(
        Rc::ptr_eq(&a, &b),
        "expected the same Rc<String> for repeated identifiers"
    );
}

#[test]
fn parser_distinct_identifiers_do_not_share_rc() {
    let parsed = parse_ok("(foo bar)");
    let (a, b) = match &parsed {
        Sexp::Exp { head, tail } => {
            let a = match &**head {
                Sexp::Atom(Atomic::Ident(s)) => s.clone(),
                _ => panic!(),
            };
            let b = match &**tail {
                Sexp::Exp { head, .. } => match &**head {
                    Sexp::Atom(Atomic::Ident(s)) => s.clone(),
                    _ => panic!(),
                },
                _ => panic!(),
            };
            (a, b)
        }
        _ => panic!(),
    };
    assert!(!Rc::ptr_eq(&a, &b));
    assert_ne!(&*a, &*b);
}

// ----- numbers -----

#[test]
fn parser_large_positive_int() {
    assert_eq!(parse_ok("(9223372036854775807)"), list(vec![num(i64::MAX)]));
}

#[test]
fn parser_int_overflow_is_error() {
    // i64::MAX + 1
    let err = parse_str("(9223372036854775808)").unwrap_err();
    assert!(matches!(err, ParseError::ParseIntError { .. }), "got {:?}", err);
}

#[test]
fn parser_malformed_float_is_error() {
    // Two dots: the literal "1.2.3" is read whole, and no float has two points.
    let err = parse_str("(1.2.3)").unwrap_err();
    assert!(
        matches!(err, ParseError::ParseFloatError { .. }),
        "got {:?}",
        err
    );
}

// ----- identifiers: lexer boundaries -----

#[test]
fn parser_ident_with_internal_punctuation_is_one_token() {
    // parse_ident stops only on space or ')'. A leading '-' now dispatches
    // to parse_number, but '-' inside an identifier (after a non-'-' first
    // byte) is fine.
    assert_eq!(parse_ok("(foo-bar)"), list(vec![ident("foo-bar")]));
    assert_eq!(parse_ok("(<=)"), list(vec![ident("<=")]));
    assert_eq!(parse_ok("(+)"), list(vec![ident("+")]));
}

#[test]
fn parser_negative_int() {
    assert_eq!(parse_ok("(-42)"), list(vec![num(-42)]));
}

#[test]
fn parser_negative_float() {
    assert_eq!(parse_ok("(-42.069)"), list(vec![float(-42.069)]));
}

#[test]
fn parser_negative_zero_int() {
    // -0 as an integer is just 0; this verifies the negation path doesn't crash.
    assert_eq!(parse_ok("(-0)"), list(vec![num(0)]));
}


#[test]
fn parser_parses_from_cursor() {
    let source = b"(1 2)".to_vec();
    let mut p = Parser::new(&source);
    assert_eq!(p.parse().unwrap(), vec![list(vec![num(1), num(2)])]);
}

// ----- realistic-ish input -----

#[test]
fn parser_realistic_program_like_input() {
    // (defn square (x) (* x x))
    let inner_args = list(vec![ident("x")]);
    let inner_body = list(vec![ident("*"), ident("x"), ident("x")]);
    let expected = list(vec![ident("defn"), ident("square"), inner_args, inner_body]);
    assert_eq!(parse_ok("(defn square (x) (* x x))"), expected);
}
