//! The command line's one decision: where the source comes from.

use vstd::prelude::*;

verus! {

/// Where the binary reads its source from.
pub enum Source {
    /// The file given with `--file`.
    File(std::path::PathBuf),
    /// Piped standard input.
    Stdin,
    /// No source: start the REPL (`--interactive` at a terminal).
    Repl,
    /// No file, nothing piped, and no REPL asked for: an error.
    Missing,
}

/// Where the source comes from: the file when one is given; otherwise the
/// REPL when asked for at a terminal, piped standard input when standard
/// input is not a terminal, and nothing at all when it is a terminal and
/// no REPL was asked for.
pub fn pick_source(file: Option<std::path::PathBuf>, interactive: bool, stdin_is_terminal: bool) -> (r: Source)
    ensures
        file matches Some(path) ==> r == Source::File(path),
        file is None && interactive && stdin_is_terminal ==> r is Repl,
        file is None && !stdin_is_terminal ==> r is Stdin,
        file is None && !interactive && stdin_is_terminal ==> r is Missing,
{
    match file {
        Some(path) => Source::File(path),
        None => {
            if interactive && stdin_is_terminal {
                Source::Repl
            } else if !stdin_is_terminal {
                Source::Stdin
            } else {
                Source::Missing
            }
        },
    }
}

} // verus!
