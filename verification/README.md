# rizz

rizz is a small, dynamically typed lisp. This crate holds its reader —
the part that turns source bytes into s-expressions — and its
tree-walking evaluator, proved with Verus, together with the collection
and numeric builtins' rules and the decisions of the REPL and command line.
The library runs the cons-cell and ref-cell builtins itself, over its own
store of cells; every other builtin, the floats of number literals and the
reading of modules come from a host through the `Natives` trait. Floats are
carried by their bits and computed by the host. The terminal program lives
under `app/`.

## Layout

- `src/parser/` — the reader.
  - `grammar.rs` states, as mathematics, what reading any input yields:
    the forms, or the error and the position where reading stops.
  - `scanner.rs`, `forms.rs`, `lists.rs` and `mod.rs` implement the reader;
    each function's contract says it computes exactly what the grammar
    says.
  - `peeker.rs` is the look-ahead buffer, `position.rs` the line/column
    tracking, `sexp.rs` the forms and their structural equality,
    `number.rs` the exact decimal reading of float literals, `error.rs`
    the parse errors.
  - `laws.rs` and `progress.rs` prove properties that hold of every
    reading; `names.rs` follows the identifier names a form uses.
- `src/runtime/` — values, environments (no name bound twice), the
  store of ref cells, the evaluator with its special forms, closures,
  macros and quasi-quotation, and running a program from source;
  `semantics.rs` states what evaluation gives, step by step, and the
  evaluator's contracts are written over it.
- `src/prelude/`, `src/repl.rs`, `src/cli.rs` — the library's own
  builtins (`cons`, `car`, `cdr`, `not`, `ref`, `deref`, `set!`), `get`,
  `fmap`, `filter`,
  the argument rules of `min`/`max`/`clamp`, arities,
  the checked integer arithmetic of the builtins, slice bounds,
  special-form documentation, REPL input decisions and the choice of
  input source.
- `src/text.rs` — decimal rendering and text comparison.
- `tests/` — the reader's behaviour on concrete sources, the evaluator and
  the library's other functions, whole programs, and `open` with a host
  that keeps its modules in memory.
- `app/` — the `rizz` binary: the interpreter, the builtins, the REPL and
  the command line.

Run the verifier over `src/` to check every contract.
