//! Language-wide string constants.
//!
//! - `FILE_EXTENSION` — the suffix `(open ...)` appends to a path with no
//!   extension.
//! - `KW_*` — identifiers that the evaluator treats as special forms when
//!   they appear in **head position** of a list. They are reserved purely
//!   lexically: shadowing them with a `let` binds a value, but a call
//!   `(let ...)` still dispatches as the special form.

use vstd::prelude::*;

verus! {

/// File extension appended to extensionless paths passed to `(open ...)`.
pub const FILE_EXTENSION: &'static str = "rz";

/// `(let NAME VALUE)` — variable binding.
pub const KW_LET: &'static str = "let";

/// `(let! NAME VALUE)` — variable binding wrapped in a fresh ref.
pub const KW_LET_REF: &'static str = "let!";

/// `(fn NAME PARAMS BODY)` — function definition.
pub const KW_FN: &'static str = "fn";

/// `(defmacro NAME PARAMS BODY)` — user-defined macro.
pub const KW_DEFMACRO: &'static str = "defmacro";

/// `(quote X)` — return `X` unevaluated. Also: `'X`.
pub const KW_QUOTE: &'static str = "quote";

/// `(quasi X)` — quasiquote: literal except for `unquote` subforms. Also: `` `X ``.
pub const KW_QUASIQUOTE: &'static str = "quasi";

/// `(unquote X)` — within `quasi`, evaluate `X`. Also: `,X`.
pub const KW_UNQUOTE: &'static str = "unquote";

/// `(unquote-splice X)` — within `quasi`, splice the result of `X`. Also: `,@X`.
pub const KW_UNQUOTE_SPLICE: &'static str = "unquote-splice";

/// `(if COND THEN ELSE)` — conditional.
pub const KW_IF: &'static str = "if";

/// `(do FORM*)` — pure sequencing.
pub const KW_DO: &'static str = "do";

/// `(eval FORM)` — evaluate a runtime-built form.
pub const KW_EVAL: &'static str = "eval";

/// `(try BODY (catch VAR HANDLER...) [(finally CLEANUP...)])` — evaluate
/// BODY, catching any value raised by `(raise ...)`.
pub const KW_TRY: &'static str = "try";

/// `(exception NAME)` — bind NAME to an exception constructor.
pub const KW_EXCEPTION: &'static str = "exception";

/// `(open PATH [PREFIX])` — load a module and merge its bindings into the caller.
pub const KW_OPEN: &'static str = "open";

/// `(load PATH)` — load a module and return its bindings as a map keyed by ident.
pub const KW_LOAD: &'static str = "load";

/// `(load-quoted PATH)` — read a file and return its top-level forms as a list of data.
pub const KW_LOAD_QUOTED: &'static str = "load-quoted";

/// Separator joining a module `PREFIX` to a binding name in `(open PATH PREFIX)`.
pub const MODULE_PREFIX_SEP: char = '.';

/// `(doc ARG+)` — documentation slot for binding forms.
pub const KW_DOC: &'static str = "doc";

} // verus!
