//! The library's promises on concrete values: the laws of reading, the
//! error and position details, and the REPL, prelude and runtime helpers.

use rizz::parser::peeker::PeekReader;
use rizz::parser::{Atomic, Collection, Decimal, ParseError, Parser, Position, Sexp};
use rizz::prelude::numbers::{IntFault, IntOp, clamp_int, compare_ints, extreme_int, int_arith};
use rizz::prelude::{clamp_range, special_form_doc};
use rizz::repl::{ColorMode, Command, EditMode, ReplConfig, Validation, repeat_line, validate};
use rizz::runtime::Arity;
use rizz::text::{push_decimal, same_text};
use std::rc::Rc;

fn parse_all(input: &str) -> Result<Vec<Sexp>, ParseError> {
    Parser::new(input.as_bytes()).parse()
}

fn num(n: i64) -> Sexp {
    Sexp::Atom(Atomic::Int(n))
}

fn ident(s: &str) -> Sexp {
    Sexp::Atom(Atomic::Ident(Rc::new(s.to_string())))
}

fn list(elems: Vec<Sexp>) -> Sexp {
    let mut result = Sexp::Unit;
    for e in elems.into_iter().rev() {
        result = Sexp::Exp {
            head: Rc::new(e),
            tail: Rc::new(result),
        };
    }
    result
}

fn map(entries: Vec<(Sexp, Sexp)>) -> Sexp {
    Sexp::Collection(Collection::Dict(
        entries
            .into_iter()
            .map(|(k, v)| (Rc::new(k), Rc::new(v)))
            .collect(),
    ))
}

fn decimal(literal: &str) -> Decimal {
    Decimal::from_literal(literal.as_bytes()).unwrap()
}

// ----- laws of reading -----

#[test]
fn successful_parse_is_never_empty() {
    for src in ["42", "()", "'x", "[1 2] {1: 2}", ";; c\n(a)"] {
        assert!(!parse_all(src).unwrap().is_empty(), "{src:?}");
    }
}

#[test]
fn trivia_only_input_is_eof_at_its_end() {
    let src = ";; note\n  \t;; more";
    match parse_all(src).unwrap_err() {
        ParseError::UnexpectedEof { at } => {
            assert_eq!(at.byte, src.len());
            assert_eq!(at.line, 2);
            assert_eq!(at.col, 11);
        }
        other => panic!("expected UnexpectedEof, got {other:?}"),
    }
}

#[test]
fn dotted_tail_list_is_the_longer_list() {
    assert_eq!(
        parse_all("(a b . (c d))").unwrap(),
        vec![list(vec![ident("a"), ident("b"), ident("c"), ident("d")])]
    );
}

#[test]
fn repeated_map_key_takes_later_value() {
    let forms = parse_all("{1: 2 3: 4 1: 5}").unwrap();
    assert_eq!(forms, vec![map(vec![(num(1), num(5)), (num(3), num(4))])]);
    match &forms[0] {
        Sexp::Collection(Collection::Dict(entries)) => assert_eq!(entries.len(), 2),
        other => panic!("expected a map, got {other:?}"),
    }
}

#[test]
fn equality_is_reflexive_and_ignores_map_order() {
    let a = parse_all("({1: [2 3] 4: 'x} \"s\" 1.50)").unwrap();
    assert_eq!(a, a);
    assert_eq!(parse_all("{1: 1 2: 2}").unwrap(), parse_all("{2: 2 1: 1}").unwrap());
    assert_ne!(parse_all("{1: 1 2: 2}").unwrap(), parse_all("{1: 1 2: 3}").unwrap());
    assert_ne!(parse_all("[1 2]").unwrap(), parse_all("[2 1]").unwrap());
}

#[test]
fn read_size_does_not_change_what_is_read() {
    let src = "(defn f (x . rest) `(+ ,x ,@rest)) ;; c\n{\"k\": [1.5 -2]}";
    let whole = Parser::new(src.as_bytes()).parse().unwrap();
    for size in [1, 2, 3, 7, 4096] {
        assert_eq!(Parser::with_read_size(src.as_bytes(), size).parse().unwrap(), whole);
    }
}

// ----- forms the grammar describes -----

#[test]
fn reader_macros_wrap_the_next_form() {
    assert_eq!(
        parse_all("'a `b ,c ,@d").unwrap(),
        vec![
            list(vec![ident("quote"), ident("a")]),
            list(vec![ident("quasi"), ident("b")]),
            list(vec![ident("unquote"), ident("c")]),
            list(vec![ident("unquote-splice"), ident("d")]),
        ]
    );
}

#[test]
fn string_escapes_are_decoded() {
    assert_eq!(
        parse_all(r#""a\"b\\c\nd\re\tf""#).unwrap(),
        vec![Sexp::Atom(Atomic::Str("a\"b\\c\nd\re\tf".to_string()))]
    );
}

#[test]
fn unicode_in_strings_and_identifiers() {
    assert_eq!(
        parse_all("(λ \"ünï\")").unwrap(),
        vec![list(vec![ident("λ"), Sexp::Atom(Atomic::Str("ünï".to_string()))])]
    );
}

#[test]
fn invalid_utf8_identifier_is_error() {
    let src = [b'(', 0xff, b')'];
    match Parser::new(&src).parse().unwrap_err() {
        ParseError::UTF8Error { at, .. } => assert_eq!(at.byte, 2),
        other => panic!("expected UTF8Error, got {other:?}"),
    }
}

#[test]
fn int_extremes() {
    assert_eq!(parse_all("-9223372036854775808").unwrap(), vec![num(i64::MIN)]);
    assert!(matches!(
        parse_all("-9223372036854775809").unwrap_err(),
        ParseError::ParseIntError { .. }
    ));
}

#[test]
fn float_literals_read_as_exact_decimals() {
    let one = decimal("1.");
    assert_eq!(one, decimal("1.0"));
    assert_eq!(one, decimal("01.00"));
    assert_eq!(one.int_digits, b"1".to_vec());
    assert!(one.frac_digits.is_empty());
    let neg_zero = decimal("-0.0");
    assert!(!neg_zero.negative);
    let x = decimal("-042.0690");
    assert!(x.negative);
    assert_eq!(x.int_digits, b"42".to_vec());
    assert_eq!(x.frac_digits, b"069".to_vec());
    assert!(Decimal::from_literal(b"1.2.3").is_none());
    assert!(Decimal::from_literal(b"12").is_none());
    assert!(Decimal::from_literal(b"1.x").is_none());
}

#[test]
fn missing_colon_in_map_is_expected_token() {
    match parse_all("{1 2}").unwrap_err() {
        ParseError::ExpectedToken { expected, got, .. } => {
            assert_eq!(expected, ':');
            assert_eq!(got, '2');
        }
        other => panic!("expected ExpectedToken, got {other:?}"),
    }
}

#[test]
fn unclosed_array_and_map_report_the_wrong_delimiter() {
    assert!(matches!(
        parse_all("[1 2").unwrap_err(),
        ParseError::UnexpectedEof { .. }
    ));
    assert!(matches!(
        parse_all("{1: 2").unwrap_err(),
        ParseError::UnexpectedEof { .. }
    ));
}

#[test]
fn close_paren_inside_array_is_unexpected() {
    assert!(matches!(
        parse_all("[1 )").unwrap_err(),
        ParseError::UnexpectedCloseParen { .. }
    ));
}

#[test]
fn stray_delimiter_where_a_form_begins_stops_reading() {
    for src in ["]", "(a ]", "}", ":", "{1: }"] {
        assert!(Parser::new(src.as_bytes()).try_parse().is_none(), "{src:?}");
    }
    assert!(matches!(
        Parser::new(b"(a)").try_parse(),
        Some(Ok(_))
    ));
}

#[test]
fn too_deep_reports_the_limit() {
    match parse_all(&"'".repeat(300)).unwrap_err() {
        ParseError::TooDeep { limit, .. } => assert_eq!(limit, 256),
        other => panic!("expected TooDeep, got {other:?}"),
    }
    let just_fits = format!("{}{}", "(".repeat(255), ")".repeat(255));
    assert!(parse_all(&just_fits).is_ok());
}

#[test]
fn idents_pool_holds_each_name_once() {
    let mut p = Parser::new(b"(foo bar foo 'baz)");
    p.parse().unwrap();
    let mut names: Vec<String> = p.idents().iter().map(|n| n.to_string()).collect();
    names.sort();
    assert_eq!(names, vec!["bar", "baz", "foo", "quote"]);
}

// ----- positions -----

#[test]
fn position_new_default_and_describe() {
    let p = Position::new();
    assert_eq!((p.byte, p.line, p.col), (0, 1, 1));
    let d = Position::default();
    assert_eq!((d.byte, d.line, d.col), (0, 0, 0));
    let q = Position { byte: 5, line: 2, col: 3 };
    assert_eq!(q.describe(), "line 2, column 3 (byte 5)");
}

#[test]
fn advancing_in_pieces_is_advancing_at_once() {
    let mut a = Position::new();
    a.advance(b"ab\nc");
    a.advance(b"d\n\nef");
    let mut b = Position::new();
    b.advance(b"ab\ncd\n\nef");
    assert_eq!(a, b);
    assert_eq!((b.byte, b.line, b.col), (9, 4, 3));
}

#[test]
fn position_after_parse_is_end_of_input() {
    let mut p = Parser::new(b"(a)\n(b c)  ");
    p.parse().unwrap();
    let pos = p.position();
    assert_eq!((pos.byte, pos.line, pos.col), (11, 2, 8));
}

#[test]
fn io_error_conversion() {
    let at = Position { byte: 3, line: 1, col: 4 };
    let eof = std::io::Error::from(std::io::ErrorKind::UnexpectedEof);
    match ParseError::from_io_error(eof, Some(at)) {
        ParseError::UnexpectedEof { at: p } => assert_eq!(p, at),
        other => panic!("expected UnexpectedEof, got {other:?}"),
    }
    let other = std::io::Error::from(std::io::ErrorKind::PermissionDenied);
    match ParseError::from_io_error(other, None) {
        ParseError::IOError { source, at: p } => {
            assert_eq!(source.kind(), std::io::ErrorKind::PermissionDenied);
            assert_eq!(p, Position::default());
        }
        other => panic!("expected IOError, got {other:?}"),
    }
}

// ----- the look-ahead buffer -----

#[test]
fn peek_does_not_consume() {
    let mut r = PeekReader::with_read_size(b"abcdef".to_vec(), 1);
    assert_eq!(r.peek(3).to_vec(), b"abc".to_vec());
    assert_eq!(r.peek(2).to_vec()[..2], b"ab"[..]);
    let mut out = Vec::new();
    assert_eq!(r.read(&mut out, 4), 3);
    assert_eq!(out, b"abc".to_vec());
    assert_eq!(r.peek(10).to_vec(), b"def".to_vec());
    r.consume(3);
    assert!(r.fill_buf().is_empty());
}

#[test]
fn peek_gives_at_most_what_was_asked() {
    let mut r = PeekReader::new(b"abc".to_vec());
    let mut one = Vec::new();
    assert_eq!(r.read(&mut one, 1), 1);
    assert_eq!(one, b"a".to_vec());
    assert_eq!(r.peek(1).to_vec(), b"b".to_vec());
    assert_eq!(r.peek(1).to_vec(), b"b".to_vec());
    let mut two = Vec::new();
    assert_eq!(r.read(&mut two, 1), 1);
    assert_eq!(two, b"b".to_vec());
}

#[test]
fn peek_new_reader() {
    let mut r = PeekReader::new(b"xy".to_vec());
    assert_eq!(r.peek(1)[0], b'x');
    assert_eq!(r.fill_buf().to_vec(), b"xy".to_vec());
}

// ----- text -----

#[test]
fn decimal_rendering() {
    for (n, s) in [(0usize, "0"), (7, "7"), (10, "10"), (1234, "1234")] {
        let mut out = String::from("n=");
        push_decimal(&mut out, n);
        assert_eq!(out, format!("n={s}"));
    }
    let mut out = String::new();
    push_decimal(&mut out, usize::MAX);
    assert_eq!(out, usize::MAX.to_string());
}

#[test]
fn same_text_compares_contents() {
    assert!(same_text("let!", "let!"));
    assert!(!same_text("let", "let!"));
    assert!(!same_text("é", "e"));
    assert!(same_text("", ""));
}

#[test]
fn arity_describe() {
    assert_eq!(Arity::Exactly(2).describe(), "2");
    assert_eq!(Arity::AtLeast(1).describe(), "at least 1");
    assert_eq!(Arity::Range(1, 3).describe(), "1 to 3");
}

// ----- prelude -----

#[test]
fn clamp_range_holds_indices_in_bounds() {
    assert_eq!(clamp_range(2, 5, 10), (2, 5));
    assert_eq!(clamp_range(-5, 100, 10), (0, 10));
    assert_eq!(clamp_range(7, 3, 10), (7, 7));
    assert_eq!(clamp_range(20, 30, 10), (10, 10));
    assert_eq!(clamp_range(0, 0, 0), (0, 0));
}

#[test]
fn special_forms_are_documented() {
    let doc = special_form_doc("let").unwrap();
    assert!(doc.starts_with("(let NAME VALUE)\n(let NAME (doc STR+) VALUE)"));
    assert!(special_form_doc("unquote-splice").unwrap().starts_with("(unquote-splice X)"));
    assert!(special_form_doc("load-quoted").unwrap().starts_with("(load-quoted PATH)"));
    assert!(special_form_doc("doc").unwrap().ends_with("See also: (show V)."));
    assert!(special_form_doc("try").is_none());
    assert!(special_form_doc("exception").is_none());
    assert!(special_form_doc("car").is_none());
    assert!(special_form_doc("").is_none());
}

// ----- repl -----

#[test]
fn repeat_commands() {
    assert!(matches!(Command::from_str(";;repeat"), Command::Repeat));
    assert!(matches!(Command::from_str("  \t;;."), Command::Repeat));
    assert!(matches!(Command::from_str("\u{3000};;repeat now"), Command::Repeat));
    match Command::from_str("  (+ 1 2)") {
        Command::Program { line } => assert_eq!(line, "  (+ 1 2)"),
        Command::Repeat => panic!("expected a program"),
    }
    assert!(matches!(Command::from_str(";; note"), Command::Program { .. }));
    assert!(matches!(Command::from_str("x ;;repeat"), Command::Program { .. }));
}

#[test]
fn repeat_line_is_last_program() {
    let history = vec![
        "(let x 1)".to_string(),
        "(+ x 2)".to_string(),
        ";;repeat".to_string(),
        ";; note".to_string(),
    ];
    assert_eq!(repeat_line(&history), "(+ x 2)");
    assert_eq!(repeat_line(&vec![";;.".to_string()]), "");
    assert_eq!(repeat_line(&vec![]), "");
}

#[test]
fn validate_decides_submit_wait_or_reject() {
    assert!(matches!(validate(""), Validation::Valid));
    assert!(matches!(validate("(+ 1\n"), Validation::Valid));
    assert!(matches!(validate("(+ 1 2)"), Validation::Valid));
    assert!(matches!(validate("(+ 1"), Validation::Incomplete));
    assert!(matches!(validate("\"abc"), Validation::Incomplete));
    assert!(matches!(validate("{1 2}"), Validation::Incomplete));
    assert!(matches!(validate("  "), Validation::Incomplete));
    match validate(")") {
        Validation::Invalid(ParseError::UnexpectedCloseParen { at }) => assert_eq!(at.byte, 0),
        _ => panic!("expected an invalid input"),
    }
    assert!(matches!(
        validate("(a ;b)"),
        Validation::Invalid(ParseError::StraySemicolon { .. })
    ));
}

#[test]
fn repl_config_default() {
    let cfg = ReplConfig::default();
    assert_eq!(cfg.edit_mode, EditMode::Vi);
    assert_eq!(cfg.color_mode, ColorMode::Enabled);
    assert_eq!(cfg.history_path, std::path::PathBuf::from(".ff_history"));
    assert!(!cfg.should_write_history);
    assert_ne!(EditMode::Emacs, EditMode::Vi);
    assert_ne!(ColorMode::Disabled, ColorMode::Force);
}

#[test]
fn inputs_without_stray_bytes_never_stop_short() {
    for src in ["", "(", ")", "(a . b c)", "\"x", "'", ",@", "(a ;b)", "1.2.3", "(((", "x y z"] {
        assert!(Parser::new(src.as_bytes()).try_parse().is_some(), "{src:?}");
    }
}

// ----- integer rules of the arithmetic builtins -----

#[test]
fn int_arith_computes_exact_results() {
    assert_eq!(int_arith(IntOp::Add, 40, 2), Ok(42));
    assert_eq!(int_arith(IntOp::Sub, 2, 40), Ok(-38));
    assert_eq!(int_arith(IntOp::Mul, -6, 7), Ok(-42));
    assert_eq!(int_arith(IntOp::Div, 7, 2), Ok(3));
    assert_eq!(int_arith(IntOp::Div, -7, 2), Ok(-3));
    assert_eq!(int_arith(IntOp::Div, 7, -2), Ok(-3));
    assert_eq!(int_arith(IntOp::Div, i64::MIN, 1), Ok(i64::MIN));
    assert_eq!(int_arith(IntOp::Mod, -7, 2), Ok(1));
    assert_eq!(int_arith(IntOp::Mod, 7, -2), Ok(1));
    assert_eq!(int_arith(IntOp::Mod, -7, -2), Ok(1));
}

#[test]
fn int_arith_reports_faults() {
    assert_eq!(int_arith(IntOp::Add, i64::MAX, 1), Err(IntFault::Overflow));
    assert_eq!(int_arith(IntOp::Sub, i64::MIN, 1), Err(IntFault::Overflow));
    assert_eq!(int_arith(IntOp::Mul, i64::MAX, 2), Err(IntFault::Overflow));
    assert_eq!(int_arith(IntOp::Div, 1, 0), Err(IntFault::DivisionByZero));
    assert_eq!(int_arith(IntOp::Mod, 1, 0), Err(IntFault::DivisionByZero));
    assert_eq!(int_arith(IntOp::Div, i64::MIN, -1), Err(IntFault::DivisionByZero));
    assert_eq!(int_arith(IntOp::Mod, i64::MIN, -1), Err(IntFault::DivisionByZero));
    assert_eq!(IntFault::Overflow.reason(), "integer overflow");
    assert_eq!(IntFault::DivisionByZero.reason(), "division by zero");
    assert_eq!(IntFault::LowAboveHigh.reason(), "low limit greater than high limit");
}

#[test]
fn compare_ints_is_three_way() {
    assert_eq!(compare_ints(1, 2), -1);
    assert_eq!(compare_ints(2, 2), 0);
    assert_eq!(compare_ints(3, 2), 1);
}

#[test]
fn clamp_int_holds_within_limits() {
    assert_eq!(clamp_int(5, 0, 10), Ok(5));
    assert_eq!(clamp_int(-5, 0, 10), Ok(0));
    assert_eq!(clamp_int(50, 0, 10), Ok(10));
    assert_eq!(clamp_int(3, 3, 3), Ok(3));
    assert_eq!(clamp_int(5, 10, 0), Err(IntFault::LowAboveHigh));
}

#[test]
fn extreme_int_picks_largest_or_smallest() {
    assert_eq!(extreme_int(&[], true), None);
    assert_eq!(extreme_int(&[3, -1, 7, 2], true), Some(7));
    assert_eq!(extreme_int(&[3, -1, 7, 2], false), Some(-1));
    assert_eq!(extreme_int(&[4], false), Some(4));
}

#[test]
fn advance_works_from_the_default_position() {
    let mut p = Position::default();
    p.advance(b"ab\nc");
    assert_eq!((p.byte, p.line, p.col), (4, 1, 2));
    let mut q = Position::default();
    q.advance(b"ab");
    q.advance(b"\nc");
    assert_eq!((q.byte, q.line, q.col), (p.byte, p.line, p.col));
    let mut e = Position::default();
    e.advance(b"");
    assert_eq!(e, Position::default());
}
