//! The REPL's decisions: whether an input line is complete, which command
//! a line is, and which line `;;repeat` runs again. The terminal itself
//! (line editing, history files, printing) is driven by the binary.

use crate::parser::error::ParseError;
use crate::parser::grammar::{Failure, parse_program};
use crate::parser::Parser;
use vstd::prelude::*;
use vstd::string::StringSliceAdditionalSpecFns;
use vstd::utf8::encode_utf8;

verus! {

#[verifier::external_type_specification]
#[verifier::external_body]
pub struct ExPathBuf(std::path::PathBuf);

/// `PathBuf::clone`, which the derived `Clone` of [`ReplConfig`] calls:
/// nothing is claimed of the copy.
pub assume_specification[ <std::path::PathBuf as std::clone::Clone>::clone ](p: &std::path::PathBuf) -> std::path::PathBuf;

/// Whether `c` has the Unicode `White_Space` property.
pub open spec fn is_white_space(c: char) -> bool {
    let u = c as u32;
    ||| 9 <= u <= 13
    ||| u == 32
    ||| u == 0x85
    ||| u == 0xa0
    ||| u == 0x1680
    ||| 0x2000 <= u <= 0x200a
    ||| u == 0x2028
    ||| u == 0x2029
    ||| u == 0x202f
    ||| u == 0x205f
    ||| u == 0x3000
}

/// How many characters of white space `s` starts with.
pub open spec fn leading_white_space(s: Seq<char>) -> nat
    decreases s.len(),
{
    if s.len() > 0 && is_white_space(s[0]) {
        1 + leading_white_space(s.skip(1))
    } else {
        0
    }
}

/// Whether `c` has the Unicode `White_Space` property.
fn is_white_space_char(c: char) -> (r: bool)
    ensures
        r == is_white_space(c),
{
    let u = c as u32;
    (9 <= u && u <= 13) || u == 32 || u == 0x85 || u == 0xa0 || u == 0x1680 || (0x2000 <= u && u
        <= 0x200a) || u == 0x2028 || u == 0x2029 || u == 0x202f || u == 0x205f || u == 0x3000
}

/// `s` without the white space it starts with, as `str::trim_start` gives
/// it.
fn trim_start(s: &str) -> (r: &str)
    ensures
        r@ == s@.skip(leading_white_space(s@) as int),
{
    let n = s.unicode_len();
    let mut k: usize = 0;
    proof {
        assert(s@.skip(0) =~= s@);
    }
    while k < n && is_white_space_char(s.get_char(k))
        invariant
            k <= n,
            n == s@.len(),
            leading_white_space(s@) == k + leading_white_space(s@.skip(k as int)),
        decreases n - k,
    {
        proof {
            assert(s@.skip(k as int)[0] == s@[k as int]);
            assert(s@.skip(k as int).skip(1) =~= s@.skip(k as int + 1));
        }
        k = k + 1;
    }
    proof {
        if k < n {
            assert(s@.skip(k as int)[0] == s@[k as int]);
        } else {
            assert(s@.skip(k as int).len() == 0);
        }
        assert(s@.subrange(k as int, n as int) =~= s@.skip(k as int));
    }
    s.substring_char(k, n)
}

/// Whether the bytes of `s` begin with those of `p`, as `str::starts_with`
/// tests it.
pub open spec fn starts_with_text(s: Seq<char>, p: Seq<char>) -> bool {
    encode_utf8(p).len() <= encode_utf8(s).len() && encode_utf8(s).take(
        encode_utf8(p).len() as int,
    ) == encode_utf8(p)
}

/// Whether `s` begins with `p`.
fn starts_with(s: &str, p: &str) -> (r: bool)
    ensures
        r == starts_with_text(s@, p@),
{
    let a = s.as_bytes();
    let b = p.as_bytes();
    if b.len() > a.len() {
        return false;
    }
    let mut i: usize = 0;
    while i < b.len()
        invariant
            a@ == s.spec_bytes(),
            b@ == p.spec_bytes(),
            b@.len() <= a@.len(),
            i <= b@.len(),
            forall|j: int| 0 <= j < i ==> a@[j] == b@[j],
        decreases b@.len() - i,
    {
        if a[i] != b[i] {
            return false;
        }
        i = i + 1;
    }
    proof {
        assert(a@.take(b@.len() as int) =~= b@);
    }
    true
}

/// A line typed at the REPL.
pub enum Command<'a> {
    /// Run the last program line again (`;;repeat` or `;;.`).
    Repeat,
    /// Run `line` as a program.
    Program { line: &'a str },
}

impl<'a> Command<'a> {
    /// The command a line is: after any leading white space, `;;repeat`
    /// or `;;.` repeats the last program line; anything else is a program.
    pub fn from_str(s: &'a str) -> (r: Self)
        ensures
            r is Repeat <==> (starts_with_text(
                s@.skip(leading_white_space(s@) as int),
                ";;repeat"@,
            ) || starts_with_text(s@.skip(leading_white_space(s@) as int), ";;."@)),
            r matches Command::Program { line } ==> line == s,
    {
        let trimmed = trim_start(s);
        if starts_with(trimmed, ";;repeat") || starts_with(trimmed, ";;.") {
            return Command::Repeat;
        }
        Command::Program { line: s }
    }
}

/// Whether a history line is a comment (starts with `;;`), which
/// `;;repeat` passes over.
pub open spec fn is_comment_line(s: Seq<char>) -> bool {
    starts_with_text(s, ";;"@)
}

/// The index of the last of the first `n` lines that is not a comment.
pub open spec fn last_program_index(history: Seq<Seq<char>>, n: int) -> Option<int>
    decreases n,
{
    if n <= 0 || n > history.len() {
        None
    } else if !is_comment_line(history[n - 1]) {
        Some(n - 1)
    } else {
        last_program_index(history, n - 1)
    }
}

/// The line `;;repeat` runs: the most recent history line that is not a
/// comment, or the empty line when there is none.
pub fn repeat_line(history: &Vec<String>) -> (r: String)
    ensures
        match last_program_index(history@.map_values(|l: String| l@), history@.len() as int) {
            Some(k) => r@ == history@[k]@,
            None => r@ == Seq::<char>::empty(),
        },
{
    let ghost lines = history@.map_values(|l: String| l@);
    let mut n: usize = history.len();
    while n > 0
        invariant
            n <= history@.len(),
            lines == history@.map_values(|l: String| l@),
            last_program_index(lines, history@.len() as int) == last_program_index(
                lines,
                n as int,
            ),
        decreases n,
    {
        let line: &String = &history[n - 1];
        if !starts_with(line.as_str(), ";;") {
            return line.clone();
        }
        n = n - 1;
    }
    String::new()
}

/// What the line editor should do with the input typed so far.
pub enum Validation {
    /// Submit the input.
    Valid,
    /// Keep reading: the input stops before a form is complete.
    Incomplete,
    /// Reject the input with this error.
    Invalid(ParseError),
}

/// Whether the input typed so far is ready: empty input, or input whose
/// last line is blank (the user pressed Enter on an empty line to submit
/// or abort a multi-line input), is submitted; otherwise it is parsed, and
/// a complete program is submitted, a missing delimiter or an early end of
/// input means keep reading, and any other error rejects the input.
/// The input must not put a `]`, `}` or `:` where a form should begin.
pub fn validate(input: &str) -> (r: Validation)
    requires
        input.spec_bytes().len() < usize::MAX,
        !(parse_program(input.spec_bytes()) matches Err(Failure::StrayDelimiter)),
    ensures
        input.spec_bytes().len() == 0 ==> r is Valid,
        input.spec_bytes().len() > 0 && input.spec_bytes().last() == 10u8 ==> r is Valid,
        input.spec_bytes().len() > 0 && input.spec_bytes().last() != 10u8 ==> match parse_program(
            input.spec_bytes(),
        ) {
            Ok(_) => r is Valid,
            Err(Failure::Error(e)) => if e is ExpectedToken || e is UnexpectedEof {
                r is Incomplete
            } else {
                r matches Validation::Invalid(pe) && pe@ == e
            },
            Err(Failure::StrayDelimiter) => false,
        },
{
    let bytes = input.as_bytes();
    if bytes.len() == 0 {
        return Validation::Valid;
    }
    if bytes[bytes.len() - 1] == 10u8 {
        return Validation::Valid;
    }
    let mut parser = Parser::new(bytes);
    match parser.parse() {
        Ok(_) => Validation::Valid,
        Err(e) => {
            let keep_reading = match &e {
                ParseError::ExpectedToken { .. } => true,
                ParseError::UnexpectedEof { .. } => true,
                _ => false,
            };
            if keep_reading {
                Validation::Incomplete
            } else {
                Validation::Invalid(e)
            }
        },
    }
}

/// The REPL's line editor settings.
#[derive(Debug, Clone, PartialEq, Eq)]
pub struct ReplConfig {
    pub edit_mode: EditMode,
    pub color_mode: ColorMode,
    pub history_path: std::path::PathBuf,
    pub should_write_history: bool,
}

/// Owned version of the line editor's edit mode.
#[derive(Debug, Clone, Copy, PartialEq, Eq, Structural)]
pub enum EditMode {
    Emacs,
    Vi,
}

/// Owned version of the line editor's color mode.
#[derive(Debug, Clone, Copy, PartialEq, Eq, Structural)]
pub enum ColorMode {
    Enabled,
    Disabled,
    Force,
}

/// Calls `PathBuf::from` on a path given as text.
#[verifier::external_body]
fn path_from(s: &str) -> std::path::PathBuf {
    std::path::PathBuf::from(s)
}

impl Default for ReplConfig {
    /// Vi editing, color enabled, history in `.ff_history`, not written.
    fn default() -> (r: Self)
        ensures
            r.edit_mode == EditMode::Vi,
            r.color_mode == ColorMode::Enabled,
            !r.should_write_history,
    {
        ReplConfig {
            edit_mode: EditMode::Vi,
            color_mode: ColorMode::Enabled,
            history_path: path_from(".ff_history"),
            should_write_history: false,
        }
    }
}

} // verus!
