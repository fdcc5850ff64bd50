//! rizz — a small, dynamically typed lisp: the reader, and the pieces of
//! the runtime, prelude and REPL that decide things on plain values.

pub mod cli;
pub mod consts;
pub mod parser;
pub mod prelude;
pub mod repl;
pub mod runtime;
pub mod text;

pub use parser::{ParseError, Parser, Position};
