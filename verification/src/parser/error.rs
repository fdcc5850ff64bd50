//! Parse failures, each pointing at the byte where it was detected.

use crate::parser::position::Position;
use vstd::prelude::*;

verus! {

/// The reason `std::str::from_utf8` gives for rejecting bytes.
#[verifier::external_type_specification]
#[verifier::external_body]
pub struct ExUtf8Error(std::str::Utf8Error);

/// The reason `i64::from_str` gives for rejecting a numeral.
#[verifier::external_type_specification]
#[verifier::external_body]
pub struct ExParseIntError(std::num::ParseIntError);

/// An I/O failure reported by a byte source.
#[verifier::external_type_specification]
#[verifier::external_body]
pub struct ExIoError(std::io::Error);

/// A parse failure. Every variant carries the [`Position`] where the
/// problem was detected so callers can point at the offending byte.
#[derive(Debug)]
#[allow(inconsistent_fields)]
pub enum ParseError {
    /// A stray `)` appeared where a form was expected — typically a
    /// mismatched close at the top level.
    UnexpectedCloseParen { at: Position },
    /// A lone `;` that wasn't followed by another `;`. rizz uses `;;` for
    /// line comments.
    StraySemicolon { at: Position },
    /// Wrong delimiter — typically a missing `)`, `]`, `}`, or `:` in a
    /// map entry. `got` is the byte that turned up instead.
    ExpectedToken { expected: char, at: Position, got: char },
    /// The input ended before a complete form was read: empty (or
    /// comment-only) input, an unterminated list/array/map, or an
    /// unterminated string literal. REPLs treat this as "keep reading".
    UnexpectedEof { at: Position },
    /// A `\` escape in a string literal that isn't one of the recognized
    /// sequences (`\"`, `\\`, `\n`, `\r`, `\t`).
    InvalidEscape { got: char, at: Position },
    /// Nesting depth exceeded `limit` — a guard against pathological
    /// inputs overflowing the parser's stack.
    TooDeep { at: Position, limit: usize },
    /// A byte sequence in source that isn't valid UTF-8.
    UTF8Error { source: std::str::Utf8Error, at: Position },
    /// A float literal that didn't parse — two `.`s or other malformation.
    ParseFloatError { at: Position },
    /// An int literal that didn't parse — overflow past the `i64` range.
    ParseIntError { source: std::num::ParseIntError, at: Position },
    /// An underlying I/O failure from the source reader. End-of-input is
    /// **not** reported here — that's [`UnexpectedEof`](Self::UnexpectedEof).
    IOError { source: std::io::Error, at: Position },
}

/// What a [`ParseError`] says, without the underlying error values.
pub enum ParseErrorView {
    UnexpectedCloseParen((int, int, int)),
    StraySemicolon((int, int, int)),
    ExpectedToken(char, (int, int, int), char),
    UnexpectedEof((int, int, int)),
    InvalidEscape(char, (int, int, int)),
    TooDeep((int, int, int), int),
    Utf8((int, int, int)),
    ParseFloat((int, int, int)),
    ParseInt((int, int, int)),
    Io((int, int, int)),
}

impl View for ParseError {
    type V = ParseErrorView;

    open spec fn view(&self) -> ParseErrorView {
        match self {
            ParseError::UnexpectedCloseParen { at } => ParseErrorView::UnexpectedCloseParen(at@),
            ParseError::StraySemicolon { at } => ParseErrorView::StraySemicolon(at@),
            ParseError::ExpectedToken { expected, at, got } => ParseErrorView::ExpectedToken(
                *expected,
                at@,
                *got,
            ),
            ParseError::UnexpectedEof { at } => ParseErrorView::UnexpectedEof(at@),
            ParseError::InvalidEscape { got, at } => ParseErrorView::InvalidEscape(*got, at@),
            ParseError::TooDeep { at, limit } => ParseErrorView::TooDeep(at@, *limit as int),
            ParseError::UTF8Error { at, .. } => ParseErrorView::Utf8(at@),
            ParseError::ParseFloatError { at } => ParseErrorView::ParseFloat(at@),
            ParseError::ParseIntError { at, .. } => ParseErrorView::ParseInt(at@),
            ParseError::IOError { at, .. } => ParseErrorView::Io(at@),
        }
    }
}

/// Calls `std::io::Error::kind` and tells whether it is
/// `ErrorKind::UnexpectedEof`. Nothing is claimed of the answer: the kind
/// is whatever the error's producer chose.
#[verifier::external_body]
fn reports_unexpected_eof(err: &std::io::Error) -> bool {
    err.kind() == std::io::ErrorKind::UnexpectedEof
}

impl ParseError {
    /// Wrap an [`std::io::Error`] as a [`ParseError`] at `pos`, falling back
    /// to [`Position::default`] when no position is available.
    /// `ErrorKind::UnexpectedEof` becomes [`UnexpectedEof`](Self::UnexpectedEof);
    /// everything else is an [`IOError`](Self::IOError).
    pub fn from_io_error(err: std::io::Error, pos: Option<Position>) -> (r: Self)
        ensures
            r is UnexpectedEof || (r matches ParseError::IOError { source, .. } && source == err),
            r matches ParseError::UnexpectedEof { at } ==> at == match pos {
                Some(p) => p,
                None => Position { byte: 0, line: 0, col: 0 },
            },
            r matches ParseError::IOError { at, .. } ==> at == match pos {
                Some(p) => p,
                None => Position { byte: 0, line: 0, col: 0 },
            },
    {
        let unexpected_eof = reports_unexpected_eof(&err);
        Self::from_io_kind(err, unexpected_eof, pos)
    }

    /// The error [`from_io_error`](Self::from_io_error) builds once the
    /// error's kind is known: `UnexpectedEof` when `unexpected_eof` holds,
    /// otherwise `IOError` carrying `err`, both at `pos` or the origin.
    pub fn from_io_kind(err: std::io::Error, unexpected_eof: bool, pos: Option<Position>) -> (r: Self)
        ensures
            unexpected_eof ==> r == (ParseError::UnexpectedEof {
                at: match pos {
                    Some(p) => p,
                    None => Position { byte: 0, line: 0, col: 0 },
                },
            }),
            !unexpected_eof ==> r == (ParseError::IOError {
                source: err,
                at: match pos {
                    Some(p) => p,
                    None => Position { byte: 0, line: 0, col: 0 },
                },
            }),
    {
        let at = match pos {
            Some(p) => p,
            None => Position::default(),
        };
        if unexpected_eof {
            ParseError::UnexpectedEof { at }
        } else {
            ParseError::IOError { source: err, at }
        }
    }
}

} // verus!
