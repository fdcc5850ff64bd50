//! Documentation for the special forms, which `(show NAME)` prints for
//! a special form's name.

use crate::consts::{
    KW_DEFMACRO, KW_DO, KW_DOC, KW_EVAL, KW_FN, KW_IF, KW_LET, KW_LET_REF, KW_LOAD,
    KW_LOAD_QUOTED, KW_OPEN, KW_QUASIQUOTE, KW_QUOTE, KW_UNQUOTE, KW_UNQUOTE_SPLICE,
};
use crate::text::same_text;
use vstd::prelude::*;

verus! {

/// The documentation of the `let` special form.
pub const LET_DOC: &'static str = "\
(let NAME VALUE)
(let NAME (doc STR+) VALUE)

Evaluates VALUE, binds it to NAME in the surrounding env, and
returns the bound value. An optional (doc \"...\") slot documents
the binding; the doc is attached to callables (closure, macro,
native fn) and silently dropped on non-callables.

Errors when called with arity \u{2260} 2 (or 3 with a doc slot), or when
NAME is not an ident.

See also: (let! NAME VALUE), (fn NAME PARAMS BODY), (show V).";

/// The documentation of the `let!` special form.
pub const LET_REF_DOC: &'static str = "\
(let! NAME VALUE)
(let! NAME (doc STR+) VALUE)

Like (let NAME VALUE), but wraps VALUE in a fresh ref before
binding it to NAME — equivalent to (let NAME (ref VALUE)). Returns
the underlying value (with the doc attached when callable). The
doc, if any, is attached to the inner callable before the ref is
built, so (show (deref NAME)) surfaces it.

See also: (let NAME VALUE), (ref V), (set! R V).";

/// The documentation of the `fn` special form.
pub const FN_DOC: &'static str = "\
(fn NAME (PARAMS...) BODY)
(fn NAME (PARAMS... . REST) BODY)   ;; variadic via dotted tail
(fn NAME REST BODY)                 ;; variadic via bare ident
(fn NAME PARAMS (doc STR+) BODY)    ;; optional doc slot

Creates a closure capturing the current env (lexical scope), binds
it under NAME, and returns the closure. NAME is bound inside the
body so the function can recurse. PARAMS is a list of identifiers
(use () for zero params). A dotted-tail or bare-ident params form
makes the function variadic. BODY is a single form; use (do ...)
for multi-step bodies.

Errors when called with arity \u{2260} 3, or when NAME or any param is
not an ident.

See also: (defmacro NAME PARAMS BODY), (let NAME VALUE).";

/// The documentation of the `defmacro` special form.
pub const DEFMACRO_DOC: &'static str = "\
(defmacro NAME (PARAMS...) BODY)
(defmacro NAME PARAMS (doc STR+) BODY)

Defines a macro: a callable whose arguments are passed
unevaluated. The body runs at expansion time and must produce a
form, which is then evaluated in the caller's env. Otherwise
shares fn's parameter shape (positional, dotted-tail, bare-ident
variadic) and optional doc slot.

See also: (fn NAME PARAMS BODY), (quasi DATUM).";

/// The documentation of the `if` special form.
pub const IF_DOC: &'static str = "\
(if COND THEN ELSE)

Evaluates COND. If truthy evaluates THEN; otherwise evaluates
ELSE. The untaken branch is never evaluated.

Errors when called with arity \u{2260} 3.

See also: (cond ...), (unless COND BODY...).";

/// The documentation of the `do` special form.
pub const DO_DOC: &'static str = "\
(do FORM...)

Evaluates each form in order, threading the env between them, and
returns the last value (or () if empty). do is not a scope
boundary: later forms see let/fn bindings introduced by earlier
forms, and those bindings leak out to the surrounding env. Pure
sequencing \u{2014} equivalent to splicing the forms into the enclosing
position.";

/// The documentation of the `quote` special form.
pub const QUOTE_DOC: &'static str = "\
(quote X)   ;; or 'X

Returns X unevaluated. Identifiers appear as ident values; lists
appear as cons chains.

Errors when called with arity \u{2260} 1.

See also: (quasi DATUM), (eval FORM).";

/// The documentation of the `quasi` special form.
pub const QUASIQUOTE_DOC: &'static str = "\
(quasi DATUM)   ;; or `DATUM

Returns DATUM as a literal, except (unquote X) is replaced by the
evaluation of X, and (unquote-splice X) as a list element has X
evaluated and its sequence spliced into the surrounding list.
Recurses into nested lists. No nested-depth tracking \u{2014} unquotes
splice into the nearest enclosing list.

Errors when called with arity \u{2260} 1.

See also: (unquote X), (unquote-splice X), (quote X).";

/// The documentation of the `unquote` special form.
pub const UNQUOTE_DOC: &'static str = "\
(unquote X)   ;; or ,X

Only meaningful inside a (quasi ...) form: marks X for evaluation,
with the resulting value substituted into the surrounding
template.

See also: (quasi DATUM), (unquote-splice X).";

/// The documentation of the `unquote-splice` special form.
pub const UNQUOTE_SPLICE_DOC: &'static str = "\
(unquote-splice X)   ;; or ,@X

Only meaningful as an element of a list inside a (quasi ...) form:
evaluates X and splices its resulting sequence into the
surrounding list.

Errors when spliced outside a surrounding list.

See also: (quasi DATUM), (unquote X).";

/// The documentation of the `eval` special form.
pub const EVAL_DOC: &'static str = "\
(eval FORM)

Evaluates FORM in the current env and returns its value. Useful
for running forms built from quoted or quasiquoted templates.

See also: (quote X), (quasi DATUM).";

/// The documentation of the `open` special form.
pub const OPEN_DOC: &'static str = "\
(open PATH)
(open PATH PREFIX)

Reads the rizz source file at PATH, evaluates its top-level forms
in a fresh module env, and merges ALL of the module's top-level
let/fn bindings into the caller's env (including names starting
with _). Returns the value of the loaded module's last form. On a
name collision the loaded module's binding wins.

With an optional PREFIX ident, every merged name is rewritten to
PREFIX.NAME, keeping the module's bindings namespaced.

PATH   — path | ident: if PATH has no extension, .rz is appended.
         Relative paths resolve against the caller's source-file
         directory.
PREFIX — an unevaluated ident; merged names become PREFIX.NAME.

See also: (load PATH), (load-quoted PATH)

Example:
  ;; math.rz
  (fn sin (x) ...)
  (fn cos (x) ...)

  ;; caller.rz
  (open \"math\")          ;; binds `sin`, `cos`
  (open \"math\" math)     ;; binds `math.sin`, `math.cos`
  (math.sin 0)            ;; => 0";

/// The documentation of the `load` special form.
pub const LOAD_DOC: &'static str = "\
(load PATH)

Reads the rizz source file at PATH, evaluates its top-level forms
in a fresh module env, and returns the module's top-level bindings
as a map keyed by ident. Unlike `open`, nothing is merged into the
caller's env — the bindings are reified as a value.

PATH — path | ident: if PATH has no extension, .rz is appended.
       Relative paths resolve against the caller's source-file
       directory.

See also: (open PATH [PREFIX]), (load-quoted PATH)

Example:
  ;; math.rz
  (fn sin (x) ...)
  (fn cos (x) ...)

  ;; caller.rz
  (let m (load \"math\"))   ;; => { sin : <fn>, cos : <fn> }
  ((get m 'sin) 0)         ;; => 0";

/// The documentation of the `load-quoted` special form.
pub const LOAD_QUOTED_DOC: &'static str = "\
(load-quoted PATH)

Reads the file at PATH and returns its top-level forms as data — a
list of the parsed forms, WITHOUT evaluating them. Useful for
metaprogramming: inspect, transform, or selectively `eval` the
forms a file contains.

PATH — path | ident: if PATH has no extension, .rz is appended.
       Relative paths resolve against the caller's source-file
       directory.

See also: (open PATH [PREFIX]), (load PATH), (eval FORM)

Example:
  ;; mod.rz
  (let answer 42)
  (fn dbl (x) (* x 2))

  ;; caller.rz
  (load-quoted \"mod\")   ;; => ((let answer 42) (fn dbl (x) (* x 2)))";

/// The documentation of the `doc` special form.
pub const DOC_DOC: &'static str = "\
(doc STR+)

Documentation slot for binding forms. Not a standalone special
form \u{2014} only meaningful in the optional doc position of let, let!,
fn, and defmacro. Each argument is evaluated and must produce
either a string or a (recursively flattened) collection of
strings; all collected strings are joined with newlines and stored
on the bound callable.

Errors when given zero arguments.

See also: (show V).";
/// The documentation of the special form named `name`, if `name` names a
/// documented special form.
pub open spec fn special_form_doc_of(name: Seq<char>) -> Option<Seq<char>> {
    if name == KW_LET@ {
        Some(LET_DOC@)
    } else if name == KW_LET_REF@ {
        Some(LET_REF_DOC@)
    } else if name == KW_FN@ {
        Some(FN_DOC@)
    } else if name == KW_DEFMACRO@ {
        Some(DEFMACRO_DOC@)
    } else if name == KW_IF@ {
        Some(IF_DOC@)
    } else if name == KW_DO@ {
        Some(DO_DOC@)
    } else if name == KW_QUOTE@ {
        Some(QUOTE_DOC@)
    } else if name == KW_QUASIQUOTE@ {
        Some(QUASIQUOTE_DOC@)
    } else if name == KW_UNQUOTE@ {
        Some(UNQUOTE_DOC@)
    } else if name == KW_UNQUOTE_SPLICE@ {
        Some(UNQUOTE_SPLICE_DOC@)
    } else if name == KW_EVAL@ {
        Some(EVAL_DOC@)
    } else if name == KW_OPEN@ {
        Some(OPEN_DOC@)
    } else if name == KW_LOAD@ {
        Some(LOAD_DOC@)
    } else if name == KW_LOAD_QUOTED@ {
        Some(LOAD_QUOTED_DOC@)
    } else if name == KW_DOC@ {
        Some(DOC_DOC@)
    } else {
        None
    }
}

/// The documentation of the special form named `name`: `None` for any
/// other name, including the special forms that carry no documentation.
pub fn special_form_doc(name: &str) -> (r: Option<&'static str>)
    ensures
        match special_form_doc_of(name@) {
            Some(doc) => r matches Some(d) && d@ == doc,
            None => r is None,
        },
{
    if same_text(name, KW_LET) {
        return Some(LET_DOC);
    }
    if same_text(name, KW_LET_REF) {
        return Some(LET_REF_DOC);
    }
    if same_text(name, KW_FN) {
        return Some(FN_DOC);
    }
    if same_text(name, KW_DEFMACRO) {
        return Some(DEFMACRO_DOC);
    }
    if same_text(name, KW_IF) {
        return Some(IF_DOC);
    }
    if same_text(name, KW_DO) {
        return Some(DO_DOC);
    }
    if same_text(name, KW_QUOTE) {
        return Some(QUOTE_DOC);
    }
    if same_text(name, KW_QUASIQUOTE) {
        return Some(QUASIQUOTE_DOC);
    }
    if same_text(name, KW_UNQUOTE) {
        return Some(UNQUOTE_DOC);
    }
    if same_text(name, KW_UNQUOTE_SPLICE) {
        return Some(UNQUOTE_SPLICE_DOC);
    }
    if same_text(name, KW_EVAL) {
        return Some(EVAL_DOC);
    }
    if same_text(name, KW_OPEN) {
        return Some(OPEN_DOC);
    }
    if same_text(name, KW_LOAD) {
        return Some(LOAD_DOC);
    }
    if same_text(name, KW_LOAD_QUOTED) {
        return Some(LOAD_QUOTED_DOC);
    }
    if same_text(name, KW_DOC) {
        return Some(DOC_DOC);
    }
    None
}

} // verus!
