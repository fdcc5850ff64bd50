//! How many arguments a callable expected, for arity-mismatch errors.

use crate::text::{decimal, push_decimal};
use vstd::prelude::*;
use vstd::string::StringExecFns;

verus! {

/// How many arguments a callable expected, for an arity mismatch.
///
/// Closures with a rest parameter and native fns check a lower bound only,
/// so a bare count would over-promise; this type keeps the error message
/// honest about which contract was violated.
#[derive(Debug, Clone, Copy, PartialEq, Eq, Structural)]
pub enum Arity {
    /// Exactly `n` arguments.
    Exactly(usize),
    /// At least `n` arguments (variadic callables, min-arity native fns).
    AtLeast(usize),
    /// Between `lo` and `hi` arguments, inclusive (forms with optional args).
    Range(usize, usize),
}

/// The text an arity reads as: `n`, `at least n`, or `lo to hi`.
pub open spec fn arity_text(a: Arity) -> Seq<char> {
    match a {
        Arity::Exactly(n) => decimal(n as nat),
        Arity::AtLeast(n) => "at least "@ + decimal(n as nat),
        Arity::Range(lo, hi) => decimal(lo as nat) + " to "@ + decimal(hi as nat),
    }
}

impl Arity {
    /// Whether `got` arguments meet this arity.
    pub open spec fn spec_admits(self, got: nat) -> bool {
        match self {
            Arity::Exactly(n) => got == n,
            Arity::AtLeast(n) => got >= n,
            Arity::Range(lo, hi) => lo <= got <= hi,
        }
    }

    /// Whether a call with `got` arguments meets this arity.
    pub fn admits(&self, got: usize) -> (r: bool)
        ensures
            r == self.spec_admits(got as nat),
    {
        match self {
            Arity::Exactly(n) => got == *n,
            Arity::AtLeast(n) => got >= *n,
            Arity::Range(lo, hi) => *lo <= got && got <= *hi,
        }
    }

    /// The arity as text: `n`, `at least n`, or `lo to hi`.
    pub fn describe(&self) -> (r: String)
        ensures
            r@ == arity_text(*self),
    {
        let mut out = String::new();
        match self {
            Arity::Exactly(n) => {
                push_decimal(&mut out, *n);
                proof {
                    assert(out@ =~= decimal(*n as nat));
                }
            },
            Arity::AtLeast(n) => {
                out.append("at least ");
                push_decimal(&mut out, *n);
            },
            Arity::Range(lo, hi) => {
                push_decimal(&mut out, *lo);
                out.append(" to ");
                push_decimal(&mut out, *hi);
            },
        }
        out
    }
}

} // verus!
