//! Source positions: a byte offset plus a 1-based line and column.

use crate::text::{decimal, push_decimal};
use vstd::prelude::*;
use vstd::string::StringExecFns;

verus! {

/// A location in source text. Tracked by [`Parser`](crate::Parser) as bytes
/// are consumed and embedded in every [`ParseError`](crate::ParseError).
///
/// - `byte` is a 0-based byte offset from the start of input.
/// - `line` and `col` are 1-based — `line: 1, col: 1` is the very first
///   byte.
///
/// `Default` yields the byte/line/col-zero origin, which is what
/// `ParseError::from_io_error` falls back to when no position is known.
#[derive(Debug, Clone, Copy, PartialEq, Eq, Structural)]
pub struct Position {
    pub byte: usize,
    pub line: usize,
    pub col: usize,
}

/// The position reached after reading one byte `b` from position `p`
/// (given as `(byte, line, col)`): a newline starts a new line at column 1,
/// every other byte moves one column right.
pub open spec fn step(p: (int, int, int), b: u8) -> (int, int, int) {
    if b == 10u8 {
        (p.0 + 1, p.1 + 1, 1)
    } else {
        (p.0 + 1, p.1, p.2 + 1)
    }
}

/// The position reached after reading all of `bytes`, in order, from `p`.
pub open spec fn advance_by(p: (int, int, int), bytes: Seq<u8>) -> (int, int, int)
    decreases bytes.len(),
{
    if bytes.len() == 0 {
        p
    } else {
        step(advance_by(p, bytes.drop_last()), bytes.last())
    }
}

/// The position of the very first byte of input.
pub open spec fn start_position() -> (int, int, int) {
    (0, 1, 1)
}

/// The position of the byte at offset `i` of `input`.
pub open spec fn position_at(input: Seq<u8>, i: int) -> (int, int, int) {
    advance_by(start_position(), input.take(i))
}

impl View for Position {
    type V = (int, int, int);

    open spec fn view(&self) -> (int, int, int) {
        (self.byte as int, self.line as int, self.col as int)
    }
}

/// Reading `a` then `b` ends where reading `a + b` ends.
pub proof fn law_advance_concat(p: (int, int, int), a: Seq<u8>, b: Seq<u8>)
    ensures
        advance_by(p, a + b) == advance_by(advance_by(p, a), b),
    decreases b.len(),
{
    if b.len() == 0 {
        assert(a + b =~= a);
    } else {
        assert((a + b).drop_last() =~= a + b.drop_last());
        assert((a + b).last() == b.last());
        law_advance_concat(p, a, b.drop_last());
    }
}

/// Bounds on the position after reading `bytes`: the offset grows by
/// exactly the number of bytes, the line and column by at most that many.
pub proof fn lemma_advance_bounds(p: (int, int, int), bytes: Seq<u8>)
    requires
        p.1 >= 0,
        p.2 >= 0,
    ensures
        advance_by(p, bytes).0 == p.0 + bytes.len(),
        p.1 <= advance_by(p, bytes).1 <= p.1 + bytes.len(),
        0 <= advance_by(p, bytes).2 <= p.2 + bytes.len(),
        p.2 >= 1 ==> 1 <= advance_by(p, bytes).2,
    decreases bytes.len(),
{
    if bytes.len() > 0 {
        lemma_advance_bounds(p, bytes.drop_last());
    }
}

/// Positions inside an input of `n` bytes fit comfortably in a `usize`.
pub proof fn lemma_position_at_bounds(input: Seq<u8>, i: int)
    requires
        0 <= i <= input.len(),
    ensures
        position_at(input, i).0 == i,
        1 <= position_at(input, i).1 <= 1 + i,
        1 <= position_at(input, i).2 <= 1 + i,
{
    lemma_advance_bounds(start_position(), input.take(i));
}

/// Advancing one more byte from offset `i` reaches offset `i + 1`.
pub proof fn lemma_position_at_next(input: Seq<u8>, i: int)
    requires
        0 <= i < input.len(),
    ensures
        position_at(input, i + 1) == step(position_at(input, i), input[i]),
{
    assert(input.take(i + 1).drop_last() =~= input.take(i));
}

/// Reading `input[i..j]` from offset `i` reaches offset `j`.
pub proof fn lemma_position_at_range(input: Seq<u8>, i: int, j: int)
    requires
        0 <= i <= j <= input.len(),
    ensures
        position_at(input, j) == advance_by(position_at(input, i), input.subrange(i, j)),
{
    assert(input.take(j) =~= input.take(i) + input.subrange(i, j));
    law_advance_concat(start_position(), input.take(i), input.subrange(i, j));
}

impl Position {
    /// A position at the start of input: byte 0, line 1, column 1.
    pub fn new() -> (p: Self)
        ensures
            p@ == start_position(),
    {
        Self { byte: 0, line: 1, col: 1 }
    }

    /// Advance the position as if `bytes` had just been read. `\n` bumps
    /// the line and resets the column to 1; every other byte advances the
    /// column. Used by the parser to keep `byte`/`line`/`col` in sync as
    /// it consumes the source.
    pub fn advance(&mut self, bytes: &[u8])
        requires
            old(self).byte + bytes@.len() <= usize::MAX,
            old(self).line + bytes@.len() <= usize::MAX,
            old(self).col + bytes@.len() <= usize::MAX,
        ensures
            final(self)@ == advance_by(old(self)@, bytes@),
    {
        let ghost start = self@;
        let mut i: usize = 0;
        while i < bytes.len()
            invariant
                i <= bytes@.len(),
                start.1 >= 0,
                start.2 >= 0,
                start.0 + bytes@.len() <= usize::MAX,
                start.1 + bytes@.len() <= usize::MAX,
                start.2 + bytes@.len() <= usize::MAX,
                self@ == advance_by(start, bytes@.take(i as int)),
            decreases bytes@.len() - i,
        {
            proof {
                lemma_advance_bounds(start, bytes@.take(i as int));
                assert(bytes@.take(i as int + 1).drop_last() =~= bytes@.take(i as int));
            }
            let b = bytes[i];
            self.byte = self.byte + 1;
            if b == 10u8 {
                self.line = self.line + 1;
                self.col = 1;
            } else {
                self.col = self.col + 1;
            }
            i = i + 1;
        }
        proof {
            assert(bytes@.take(i as int) =~= bytes@);
        }
    }
}

impl Position {
    /// Advance past the single byte `b`.
    pub(crate) fn advance_one(&mut self, b: u8)
        requires
            old(self).byte < usize::MAX,
            old(self).line < usize::MAX,
            old(self).col < usize::MAX,
        ensures
            final(self)@ == step(old(self)@, b),
    {
        self.byte = self.byte + 1;
        if b == 10u8 {
            self.line = self.line + 1;
            self.col = 1;
        } else {
            self.col = self.col + 1;
        }
    }
}

/// How a position reads: `line L, column C (byte B)`.
pub open spec fn position_text(p: (int, int, int)) -> Seq<char> {
    "line "@ + decimal(p.1 as nat) + ", column "@ + decimal(p.2 as nat) + " (byte "@ + decimal(
        p.0 as nat,
    ) + ")"@
}

impl Position {
    /// The position as text: `line L, column C (byte B)`.
    pub fn describe(&self) -> (r: String)
        ensures
            r@ == position_text(self@),
    {
        let mut out = String::new();
        out.append("line ");
        push_decimal(&mut out, self.line);
        out.append(", column ");
        push_decimal(&mut out, self.col);
        out.append(" (byte ");
        push_decimal(&mut out, self.byte);
        out.append(")");
        out
    }
}

impl Default for Position {
    /// The origin `byte: 0, line: 0, col: 0`.
    fn default() -> (p: Self)
        ensures
            p@ == (0int, 0int, 0int),
    {
        Position { byte: 0, line: 0, col: 0 }
    }
}

} // verus!
