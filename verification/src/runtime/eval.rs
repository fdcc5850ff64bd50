//! The tree-walking evaluator.
//!
//! [`eval`] threads an [`Env`] through evaluation: it takes a form and an
//! environment and returns the value together with the (possibly extended)
//! environment, so `let` and `fn` definitions are visible to later forms.
//! A list whose head is a special-form keyword is handled as that form;
//! any other list is an application. Every step that can recurse spends one
//! unit of `depth`; at zero evaluation stops with
//! [`RuntimeError::RecursionLimit`] instead of exhausting the stack.

use crate::consts::{
    KW_DEFMACRO, KW_DOC, KW_DO, KW_EVAL, KW_FN, KW_IF, KW_LET, KW_LET_REF, KW_OPEN, KW_QUASIQUOTE,
    KW_QUOTE, KW_UNQUOTE, KW_UNQUOTE_SPLICE,
};
use crate::runtime::error::Arity;
use crate::runtime::value::{
    Cells, Closure, Env, Natives, RuntimeError, Value, bound, binds, prefix_of, share, text,
};
use crate::runtime::semantics::{
    call_env, chain, eval_basic, lemma_chain_empty, applies_form, calls, do_runs, each_evals, entries_eval, entry_evals, quasi_entries, quasi_one, expands, expansion_step, head_step, if_runs, let_ref_runs, let_runs, merges, open_prefix, opened, joined, lemma_chain_push, outcome, quasi_elems, quasi_piece, runs, threaded, threads, updated, with_env,
};
use crate::prelude::builtins::{Core, core_apply, core_arity, core_calls, core_count, core_at, core_gives, core_id, core_name, core_of, calls_bound_core, lemma_core_calls};
use crate::prelude::collections::{first_same, inserted_pairs, lemma_first_same_stays};
use crate::runtime::run::copy_of;
use crate::text::same_text;
use std::rc::Rc;
use vstd::prelude::*;

verus! {

/// The elements of the list `v`: the heads of its cons chain, up to the
/// first tail that is not a cons.
pub open spec fn items(v: Value) -> Seq<Rc<Value>>
    decreases v,
{
    match v {
        Value::Cons { head, tail } => seq![head] + items(*tail),
        _ => Seq::empty(),
    }
}

/// Whether `v` is a list headed by the identifier `kw`.
pub open spec fn head_is(v: Value, kw: Seq<char>) -> bool {
    v matches Value::Cons { head, .. } && (*head matches Value::Ident(s) && s@ == kw)
}

/// The arguments of the form `v`: the elements after its head.
pub open spec fn operands(v: Value) -> Seq<Rc<Value>> {
    match v {
        Value::Cons { tail, .. } => items(*tail),
        _ => Seq::empty(),
    }
}

/// The name an identifier form holds.
pub open spec fn ident_of(v: Value) -> Seq<char> {
    match v {
        Value::Ident(n) => n@,
        _ => Seq::empty(),
    }
}

/// The name at the head of the form `v`.
pub open spec fn head_name(v: Value) -> Seq<char> {
    match v {
        Value::Cons { head, .. } => ident_of(*head),
        _ => Seq::empty(),
    }
}

/// Whether `n` names a special form.
pub open spec fn is_special(n: Seq<char>) -> bool {
    n == KW_QUOTE@ || n == KW_IF@ || n == KW_DO@ || n == KW_LET@ || n == KW_LET_REF@ || n == KW_FN@
        || n == KW_DEFMACRO@ || n == KW_QUASIQUOTE@ || n == KW_EVAL@ || n == KW_OPEN@
}

/// Whether `form` calls, by a name that is not a special form, a closure
/// that `b` binds to that name.
pub open spec fn calls_bound_closure(form: Value, b: Seq<(Rc<String>, Rc<Value>)>) -> bool {
    &&& form matches Value::Cons { head, .. }
    &&& *head matches Value::Ident(n)
    &&& !is_special(n@)
    &&& bound(b, n@)
    &&& forall|x: Rc<Value>| binds(b, n@, x) ==> *x is Closure
}

/// Whether `form` is an application: a list whose head is not the name of
/// a special form.
pub open spec fn is_application(form: Value) -> bool {
    &&& form is Cons
    &&& !(*form->Cons_head matches Value::Ident(n) && is_special(n@))
}

/// Whether `form` calls, by a name that is not a special form, a macro
/// that `b` binds to that name.
pub open spec fn calls_bound_macro(form: Value, b: Seq<(Rc<String>, Rc<Value>)>) -> bool {
    &&& form matches Value::Cons { head, .. }
    &&& *head matches Value::Ident(n)
    &&& !is_special(n@)
    &&& bound(b, n@)
    &&& forall|x: Rc<Value>| binds(b, n@, x) ==> *x is Macro
}

/// Forms that evaluate to themselves.
pub open spec fn self_evaluating(v: Value) -> bool {
    match v {
        Value::Int(_) | Value::Unit | Value::Str(_) | Value::Float(_) | Value::Native(_)
        | Value::Macro(_) | Value::Ref(_) | Value::Closure(_) => true,
        _ => false,
    }
}

/// The special-form keywords are distinct names.
proof fn lemma_keywords_distinct()
    ensures
        KW_QUOTE@ != KW_IF@,
        KW_QUOTE@ != KW_DO@,
        KW_QUOTE@ != KW_LET@,
        KW_QUOTE@ != KW_LET_REF@,
        KW_QUOTE@ != KW_FN@,
        KW_QUOTE@ != KW_DEFMACRO@,
        KW_QUOTE@ != KW_QUASIQUOTE@,
        KW_QUOTE@ != KW_EVAL@,
        KW_QUOTE@ != KW_OPEN@,
        KW_IF@ != KW_DO@,
        KW_IF@ != KW_LET@,
        KW_IF@ != KW_LET_REF@,
        KW_IF@ != KW_FN@,
        KW_IF@ != KW_DEFMACRO@,
        KW_IF@ != KW_QUASIQUOTE@,
        KW_IF@ != KW_EVAL@,
        KW_IF@ != KW_OPEN@,
        KW_DO@ != KW_LET@,
        KW_DO@ != KW_LET_REF@,
        KW_DO@ != KW_FN@,
        KW_DO@ != KW_DEFMACRO@,
        KW_DO@ != KW_QUASIQUOTE@,
        KW_DO@ != KW_EVAL@,
        KW_DO@ != KW_OPEN@,
        KW_LET@ != KW_LET_REF@,
        KW_LET@ != KW_FN@,
        KW_LET@ != KW_DEFMACRO@,
        KW_LET@ != KW_QUASIQUOTE@,
        KW_LET@ != KW_EVAL@,
        KW_LET@ != KW_OPEN@,
        KW_LET_REF@ != KW_FN@,
        KW_LET_REF@ != KW_DEFMACRO@,
        KW_LET_REF@ != KW_QUASIQUOTE@,
        KW_LET_REF@ != KW_EVAL@,
        KW_LET_REF@ != KW_OPEN@,
        KW_FN@ != KW_DEFMACRO@,
        KW_FN@ != KW_QUASIQUOTE@,
        KW_FN@ != KW_EVAL@,
        KW_FN@ != KW_OPEN@,
        KW_DEFMACRO@ != KW_QUASIQUOTE@,
        KW_DEFMACRO@ != KW_EVAL@,
        KW_DEFMACRO@ != KW_OPEN@,
        KW_QUASIQUOTE@ != KW_EVAL@,
        KW_QUASIQUOTE@ != KW_OPEN@,
        KW_EVAL@ != KW_OPEN@,
{
    reveal_strlit("quote");
    reveal_strlit("if");
    reveal_strlit("do");
    reveal_strlit("let");
    reveal_strlit("let!");
    reveal_strlit("fn");
    reveal_strlit("defmacro");
    reveal_strlit("quasi");
    reveal_strlit("eval");
    reveal_strlit("open");
    assert(KW_QUOTE@.len() == 5 && KW_QUOTE@[0] == 'q');
    assert(KW_IF@.len() == 2 && KW_IF@[0] == 'i');
    assert(KW_DO@.len() == 2 && KW_DO@[0] == 'd');
    assert(KW_LET@.len() == 3 && KW_LET@[0] == 'l');
    assert(KW_LET_REF@.len() == 4 && KW_LET_REF@[0] == 'l');
    assert(KW_FN@.len() == 2 && KW_FN@[0] == 'f');
    assert(KW_DEFMACRO@.len() == 8 && KW_DEFMACRO@[0] == 'd');
    assert(KW_QUASIQUOTE@.len() == 5 && KW_QUASIQUOTE@[0] == 'q');
    assert(KW_EVAL@.len() == 4 && KW_EVAL@[0] == 'e');
    assert(KW_OPEN@.len() == 4 && KW_OPEN@[0] == 'o');
    assert(KW_QUOTE@[2] == 'o' && KW_QUASIQUOTE@[2] == 'a');
}

/// The elements of the list `v`, in order.
pub fn list_items(v: &Rc<Value>) -> (r: Vec<Rc<Value>>)
    ensures
        r@ == items(**v),
{
    let mut out: Vec<Rc<Value>> = Vec::new();
    let mut cur: Rc<Value> = share(v);
    loop
        invariant
            out@ + items(*cur) == items(**v),
        decreases items(*cur).len(),
    {
        let next = match &*cur {
            Value::Cons { head, tail } => {
                out.push(share(head));
                share(tail)
            },
            _ => {
                proof {
                    assert(out@ + items(*cur) =~= out@);
                }
                return out;
            },
        };
        proof {
            assert(items(*cur) =~= seq![out@.last()] + items(*next));
            assert(out@ + items(*next) =~= out@.drop_last() + items(*cur));
        }
        cur = next;
    }
}

/// The proper list of `xs`, in order.
pub fn list_from(xs: Vec<Rc<Value>>) -> (r: Rc<Value>)
    ensures
        items(*r) == xs@,
{
    let ghost all = xs@;
    let mut xs = xs;
    let mut acc = Rc::new(Value::Unit);
    proof {
        assert(items(*acc) =~= Seq::<Rc<Value>>::empty());
    }
    while xs.len() > 0
        invariant
            xs@ + items(*acc) == all,
        decreases xs@.len(),
    {
        let ghost before = xs@;
        let h = xs.pop().unwrap();
        proof {
            assert(before == xs@.push(h));
        }
        acc = Rc::new(Value::Cons { head: h, tail: acc });
        proof {
            assert(xs@ + items(*acc) =~= before + items(*acc).drop_first());
        }
    }
    proof {
        assert(xs@ + items(*acc) =~= items(*acc));
    }
    acc
}

/// Whether `v` is a list headed by the identifier `kw`.
pub fn is_headed(v: &Value, kw: &str) -> (r: bool)
    ensures
        r == head_is(*v, kw@),
{
    match v {
        Value::Cons { head, .. } => match &**head {
            Value::Ident(s) => same_text(s.as_str(), kw),
            _ => false,
        },
        _ => false,
    }
}

/// Whether `v`, when it is not a ref, counts as true: every value but
/// `()`, zero, an empty string, array or map, an empty identifier and a
/// float equal to zero (either sign).
pub open spec fn truthy(v: Value) -> bool {
    match v {
        Value::Str(s) => s@.len() != 0,
        Value::Int(n) => n != 0,
        Value::Float(bits) => bits != 0 && bits != 0x8000_0000_0000_0000u64,
        Value::Ident(s) => s@.len() != 0,
        Value::Unit => false,
        Value::Array(xs) => xs@.len() != 0,
        Value::Dict(m) => m@.len() != 0,
        _ => true,
    }
}

/// Whether `v` counts as true when `cells` is the store: a ref counts as
/// what its cell holds, following at most `fuel` refs; past that, or at a
/// ref to no cell, it counts as true.
pub open spec fn truthy_in(v: Value, cells: Seq<Rc<Value>>, fuel: nat) -> bool
    decreases fuel,
{
    match v {
        Value::Ref(id) => if id < cells.len() && fuel > 0 {
            truthy_in(*cells[id as int], cells, (fuel - 1) as nat)
        } else {
            true
        },
        _ => truthy(v),
    }
}

/// The values that count as false are exactly `()`, the int zero, a float
/// zero of either sign, the empty string, the empty identifier, the empty
/// array and the empty map; every other value that is not a ref counts as
/// true, whatever the store.
pub proof fn law_falsy_values(v: Value, cells: Seq<Rc<Value>>, fuel: nat)
    requires
        !(v is Ref),
    ensures
        !truthy_in(v, cells, fuel) <==> (v is Unit || v == Value::Int(0) || v == Value::Float(0)
            || v == Value::Float(0x8000_0000_0000_0000u64) || (v matches Value::Str(t) && t@.len() == 0)
            || (v matches Value::Ident(t) && t@.len() == 0) || (v matches Value::Array(xs)
            && xs@.len() == 0) || (v matches Value::Dict(m) && m@.len() == 0)),
{
}

/// An array counts as true exactly when it has an element, and a map
/// exactly when it has an entry.
pub proof fn law_collection_truth(xs: Vec<Rc<Value>>, m: Vec<(Rc<Value>, Rc<Value>)>, cells: Seq<Rc<Value>>, fuel: nat)
    ensures
        truthy_in(Value::Array(xs), cells, fuel) == (xs@.len() > 0),
        truthy_in(Value::Dict(m), cells, fuel) == (m@.len() > 0),
{
}

/// A ref to a cell of the store counts as true exactly when what the cell
/// holds does.
pub proof fn law_ref_truth_follows_cell(id: usize, cells: Seq<Rc<Value>>, fuel: nat)
    requires
        id < cells.len(),
        fuel > 0,
    ensures
        truthy_in(Value::Ref(id), cells, fuel) == truthy_in(*cells[id as int], cells, (fuel - 1) as nat),
{
}

/// Whether `v` counts as true: see [`truthy`]; a ref counts as what its
/// cell holds. A chain of refs longer than the store must come back to a
/// cell already visited; such a cycle counts as true.
pub fn is_truthy(v: &Value, cells: &Cells) -> (r: bool)
    ensures
        r == truthy_in(*v, cells@, cells@.len()),
        *v matches Value::Array(xs) ==> r == (xs@.len() != 0),
        *v matches Value::Dict(m) ==> r == (m@.len() != 0),
        *v matches Value::Str(t) ==> r == (t@.len() != 0),
        *v matches Value::Ident(t) ==> r == (t@.len() != 0),
        *v matches Value::Int(n) ==> r == (n != 0),
        *v matches Value::Float(b) ==> r == (b != 0 && b != 0x8000_0000_0000_0000u64),
        *v is Unit ==> !r,
        (*v is Cons || *v is Closure || *v is Macro || *v is Native) ==> r,
{
    let mut cur: Rc<Value> = match v {
        Value::Ref(id) => match cells.get(*id) {
            Some(x) => x,
            None => {
                return true;
            },
        },
        _ => {
            return plain_truthy(v);
        },
    };
    let n = cells.get_len();
    if n == 0 {
        return true;
    }
    let mut fuel: usize = n - 1;
    loop
        invariant
            n == cells@.len(),
            fuel < n,
            truthy_in(*v, cells@, cells@.len()) == truthy_in(*cur, cells@, fuel as nat),
        decreases fuel,
    {
        let next = match &*cur {
            Value::Ref(id) => {
                if fuel == 0 {
                    return true;
                }
                match cells.get(*id) {
                    Some(x) => x,
                    None => {
                        return true;
                    },
                }
            },
            other => {
                return plain_truthy(other);
            },
        };
        cur = next;
        fuel = fuel - 1;
    }
}

/// Whether a value that is not a ref counts as true.
fn plain_truthy(v: &Value) -> (r: bool)
    ensures
        r == truthy(*v),
        *v matches Value::Array(xs) ==> r == (xs@.len() != 0),
        *v matches Value::Dict(m) ==> r == (m@.len() != 0),
        *v matches Value::Str(t) ==> r == (t@.len() != 0),
        *v matches Value::Ident(t) ==> r == (t@.len() != 0),
        *v matches Value::Int(n) ==> r == (n != 0),
        *v matches Value::Float(b) ==> r == (b != 0 && b != 0x8000_0000_0000_0000u64),
        *v is Unit ==> !r,
        (*v is Cons || *v is Closure || *v is Macro || *v is Native) ==> r,
{
    match v {
        Value::Str(s) => s.as_str().unicode_len() != 0,
        Value::Int(n) => *n != 0,
        Value::Float(bits) => *bits != 0 && *bits != 0x8000_0000_0000_0000u64,
        Value::Ident(s) => s.as_str().unicode_len() != 0,
        Value::Unit => false,
        Value::Array(xs) => xs.len() != 0,
        Value::Dict(m) => m.len() != 0,
        _ => true,
    }
}

/// The name of `v`'s variant, for error messages.
pub(crate) fn variant_name(v: &Value) -> &'static str {
    match v {
        Value::Str(_) => "str",
        Value::Int(_) => "int",
        Value::Float(_) => "float",
        Value::Ident(_) => "ident",
        Value::Unit => "()",
        Value::Cons { .. } => "cons",
        Value::Native(_) => "native",
        Value::Closure(_) => "closure",
        Value::Macro(_) => "macro",
        Value::Array(_) => "array",
        Value::Dict(_) => "map",
        Value::Ref(_) => "ref",
    }
}

/// A type mismatch reported by `name`.
pub fn type_mismatch(name: &str, expected: &str, got: &Value) -> (r: RuntimeError)
    ensures
        r matches RuntimeError::TypeMismatch { name: n, .. } && n@ == name@,
{
    RuntimeError::TypeMismatch { name: text(name), expected: text(expected), got: text(variant_name(got)) }
}

/// The arity error of a form or callable `name` that takes `expected`
/// arguments and got `got`.
pub fn arity_mismatch(name: &str, expected: Arity, got: usize) -> (r: RuntimeError)
    ensures
        r matches RuntimeError::ArityMismatch { name: n, expected: e, got: g } && n@ == name@
            && e == expected && g == got,
{
    RuntimeError::ArityMismatch { name: text(name), expected, got }
}

/// Evaluates `form` in `ctx`, returning its value and the environment to go
/// on with.
///
/// Atoms evaluate to themselves; an identifier to its binding; a list
/// headed by a special-form keyword is that form; any other list is an
/// application; arrays and maps evaluate their elements, each in `ctx`.
pub fn eval<N: Natives>(natives: &mut N,
    cells: &mut Cells, form: Rc<Value>, ctx: &Env, depth: usize) -> (r: Result<
    (Rc<Value>, Env),
    RuntimeError,
>)
    ensures
        eval_basic(*form, ctx@, old(cells)@, depth as nat, outcome(r)),
        (self_evaluating(*form) || *form is Ident) ==> final(cells)@ == old(cells)@,
        (depth > 0 && head_is(*form, KW_LET@) && operands(*form).len() == 2
            && *operands(*form)[0] is Ident) ==> let_runs(
            operands(*form),
            ctx@,
            old(cells)@,
            (depth - 1) as nat,
            outcome(r),
        ),
        (depth > 0 && head_is(*form, KW_LET_REF@) && operands(*form).len() == 2
            && *operands(*form)[0] is Ident) ==> (r matches Ok((v, e)) ==> let_ref_runs(
            operands(*form),
            ctx@,
            old(cells)@,
            (depth - 1) as nat,
            v,
            e@,
            final(cells)@,
        )),
        (depth > 0 && head_is(*form, KW_EVAL@)) ==> eval_basic(
            *form->Cons_tail,
            ctx@,
            old(cells)@,
            (depth - 1) as nat,
            outcome(r),
        ),
        (depth > 0 && *form is Dict) ==> (r matches Ok((v, e)) ==> (e@ == ctx@ && *v is Dict && entries_eval(
            (*form)->Dict_0@,
            ctx@,
            (depth - 1) as nat,
            (*v)->Dict_0@,
        ))),
        (depth > 0 && *form is Array) ==> (r matches Ok((v, _)) ==> (*v is Array && (*v)->Array_0@.len()
            == (*form)->Array_0@.len() && exists|
            stores: Seq<Seq<Rc<Value>>>,
            eos: Seq<Seq<(Rc<String>, Rc<Value>)>>,
        |
            #![trigger each_evals((*form)->Array_0@, ctx@, stores, eos, (*v)->Array_0@, (depth - 1) as nat)]
            each_evals((*form)->Array_0@, ctx@, stores, eos, (*v)->Array_0@, (depth - 1) as nat))),
        (depth > 0 && head_is(*form, KW_OPEN@)) ==> (r matches Ok((_, e)) ==> opened(
            operands(*form),
            ctx@,
            old(cells)@,
            (depth - 1) as nat,
            e@,
        )),
        (depth > 0 && head_is(*form, KW_IF@) && operands(*form).len() == 3) ==> if_runs(
            operands(*form),
            ctx@,
            old(cells)@,
            (depth - 1) as nat,
            value_of(r),
        ),
        (depth > 0 && head_is(*form, KW_DO@)) ==> do_runs(
            operands(*form),
            ctx@,
            old(cells)@,
            (depth - 1) as nat,
            outcome(r),
        ),
        (depth > 0 && head_is(*form, KW_QUASIQUOTE@) && operands(*form).len() == 1 && head_is(
            *operands(*form)[0],
            KW_UNQUOTE_SPLICE@,
        )) ==> r matches Err(RuntimeError::TypeMismatch { .. }),
        (depth > 1 && head_is(*form, KW_QUASIQUOTE@) && operands(*form).len() == 1
            && *operands(*form)[0] is Cons && !head_is(*operands(*form)[0], KW_UNQUOTE@) && !head_is(
            *operands(*form)[0],
            KW_UNQUOTE_SPLICE@,
        )) ==> (r matches Ok((v, e)) ==> (e@ == ctx@ && quasi_elems(
            items(*operands(*form)[0]),
            ctx@,
            (depth - 2) as nat,
            items(*v),
        ))),
        (depth > 0 && head_is(*form, KW_QUASIQUOTE@) && operands(*form).len() == 1) ==> (r matches Ok((v, e))
            ==> (e@ == ctx@ && quasi_one(operands(*form)[0], ctx@, (depth - 1) as nat, v))),
        (depth > 1 && head_is(*form, KW_QUASIQUOTE@) && operands(*form).len() == 1 && *operands(*form)[0]
            is Dict) ==> (r matches Ok((v, e)) ==> (*v is Dict && quasi_entries(
            (*operands(*form)[0])->Dict_0@,
            ctx@,
            (depth - 2) as nat,
            (*v)->Dict_0@,
        ))),
        (depth > 1 && head_is(*form, KW_QUASIQUOTE@) && operands(*form).len() == 1 && *operands(*form)[0]
            is Array) ==> (r matches Ok((v, e)) ==> (*v is Array && quasi_elems(
            (*operands(*form)[0])->Array_0@,
            ctx@,
            (depth - 2) as nat,
            (*v)->Array_0@,
        ))),
        forall|b: Core|
            (depth > 0 && #[trigger] calls_bound_core(*form, ctx@, b)) ==> core_calls(
                b,
                operands(*form),
                ctx@,
                old(cells)@,
                (depth - 1) as nat,
                value_of(r),
                final(cells)@,
            ),
        (depth > 0 && is_application(*form)) ==> applies_form(
            form->Cons_head,
            operands(*form),
            ctx@,
            old(cells)@,
            (depth - 1) as nat,
            value_of(r),
        ),
        (depth > 0 && calls_bound_macro(*form, ctx@)) ==> exists|h: Rc<Value>|
            #![trigger binds(ctx@, head_name(*form), h)]
            binds(ctx@, head_name(*form), h) && expands(
                h,
                operands(*form),
                ctx@,
                old(cells)@,
                (depth - 1) as nat,
                value_of(r),
            ),
        (depth > 0 && calls_bound_closure(*form, ctx@)) ==> exists|h: Rc<Value>|
            #![trigger binds(ctx@, head_name(*form), h)]
            binds(ctx@, head_name(*form), h) && calls(
                h,
                operands(*form),
                ctx@,
                old(cells)@,
                (depth - 1) as nat,
                value_of(r),
            ),
    decreases depth, 0nat,
{
    match &*form {
        Value::Ident(name) => {
            return match ctx.get(name.as_str()) {
                Some(v) => Ok((v, ctx.duplicate())),
                None => Err(RuntimeError::UnknownIdent(share(name))),
            };
        },
        Value::Cons { .. } | Value::Array(_) | Value::Dict(_) => {},
        _ => {
            return Ok((share(&form), ctx.duplicate()));
        },
    }
    if depth == 0 {
        return Err(RuntimeError::RecursionLimit);
    }
    let d = depth - 1;
    match &*form {
        Value::Array(xs) => {
            let mut out: Vec<Rc<Value>> = Vec::new();
            let mut k: usize = 0;
            let ghost mut stores: Seq<Seq<Rc<Value>>> = Seq::empty();
            let ghost mut eos: Seq<Seq<(Rc<String>, Rc<Value>)>> = Seq::empty();
            while k < xs.len()
                invariant
                    k <= xs@.len(),
                    depth > 0,
                    d == depth - 1,
                    *form is Array,
                    out@.len() == k,
                    each_evals(xs@, ctx@, stores, eos, out@, d as nat),
                decreases xs@.len() - k,
            {
                let ghost before = cells@;
                let (v, e) = eval(natives, cells, share(&xs[k]), ctx, d)?;
                proof {
                    stores = stores.push(before);
                    eos = eos.push(e@);
                }
                out.push(v);
                k = k + 1;
            }
            let ghost ys = out@;
            let v = Rc::new(Value::Array(out));
            proof {
                assert(d as nat == (depth - 1) as nat);
                assert((*v)->Array_0@ == ys);
                assert(each_evals((*form)->Array_0@, ctx@, stores, eos, (*v)->Array_0@, (depth - 1) as nat));
            }
            Ok((v, ctx.duplicate()))
        },
        Value::Dict(m) => {
            let mut out: Vec<(Rc<Value>, Rc<Value>)> = Vec::new();
            let mut k: usize = 0;
            let ghost mut ps: Seq<(Rc<Value>, Rc<Value>)> = Seq::empty();
            while k < m.len()
                invariant
                    k <= m@.len(),
                    depth > 0,
                    d == depth - 1,
                    *form is Dict,
                    ps.len() == k,
                    out@ == inserted_pairs(ps),
                    forall|j: int| 0 <= j < k ==> #[trigger] entry_evals(m@[j], ctx@, d as nat, ps[j].0, ps[j].1),
                decreases m@.len() - k,
            {
                let ghost c1 = cells@;
                let (kv, _) = eval(natives, cells, share(&m[k].0), ctx, d)?;
                let ghost c2 = cells@;
                let (vv, _) = eval(natives, cells, share(&m[k].1), ctx, d)?;
                proof {
                    assert(entry_evals(m@[k as int], ctx@, d as nat, kv, vv));
                    assert(ps.push((kv, vv)).drop_last() =~= ps);
                }
                dict_insert(&mut out, kv, vv);
                proof {
                    ps = ps.push((kv, vv));
                }
                k = k + 1;
            }
            let ghost o = out@;
            let v = Rc::new(Value::Dict(out));
            proof {
                assert((*v)->Dict_0@ == o);
                assert(d as nat == (depth - 1) as nat);
                assert(entries_eval((*form)->Dict_0@, ctx@, (depth - 1) as nat, (*v)->Dict_0@));
            }
            Ok((v, ctx.duplicate()))
        },
        Value::Cons { head, tail } => {
            proof {
                lemma_keywords_distinct();
            }
            if let Value::Ident(kw) = &**head {
                let kw = kw.as_str();
                if same_text(kw, KW_QUOTE) {
                    let args = list_items(tail);
                    if args.len() != 1 {
                        return Err(arity_mismatch(KW_QUOTE, Arity::Exactly(1), args.len()));
                    }
                    return Ok((share(&args[0]), ctx.duplicate()));
                }
                if same_text(kw, KW_IF) {
                    return eval_if(natives, cells, tail, ctx, d);
                }
                if same_text(kw, KW_DO) {
                    return eval_do(natives, cells, tail, ctx, d);
                }
                if same_text(kw, KW_LET) {
                    return eval_let(natives, cells, tail, ctx, d, false);
                }
                if same_text(kw, KW_LET_REF) {
                    return eval_let(natives, cells, tail, ctx, d, true);
                }
                if same_text(kw, KW_FN) {
                    return eval_fn(natives, cells, tail, ctx, d, false);
                }
                if same_text(kw, KW_DEFMACRO) {
                    return eval_fn(natives, cells, tail, ctx, d, true);
                }
                if same_text(kw, KW_QUASIQUOTE) {
                    let args = list_items(tail);
                    if args.len() != 1 {
                        return Err(arity_mismatch(KW_QUASIQUOTE, Arity::Exactly(1), args.len()));
                    }
                    let v = quasi(natives, cells, &args[0], ctx, d)?;
                    return Ok((v, ctx.duplicate()));
                }
                if same_text(kw, KW_EVAL) {
                    return eval(natives, cells, share(tail), ctx, d);
                }
                if same_text(kw, KW_OPEN) {
                    return eval_open(natives, cells, tail, ctx, d);
                }
            }
            let ghost cells0 = cells@;
            let r = apply_form(natives, cells, head, tail, ctx, d);
            proof {
                assert(operands(*form) == items(**tail));
                assert(**head matches Value::Ident(n) ==> head_name(*form) == n@);
            }
            r
        },
        _ => Err(RuntimeError::RecursionLimit),
    }
}

/// Binds `key` to `value` among `entries`, replacing an entry whose key is
/// the same value.
pub(crate) fn dict_insert(entries: &mut Vec<(Rc<Value>, Rc<Value>)>, key: Rc<Value>, value: Rc<Value>)
    ensures
        match first_same(old(entries)@, *key, old(entries)@.len()) {
            Some(i) => final(entries)@ == old(entries)@.update(i, (key, value)),
            None => final(entries)@ == old(entries)@.push((key, value)),
        },
{
    let ghost m = entries@;
    let mut k: usize = 0;
    while k < entries.len()
        invariant
            k <= entries@.len(),
            entries@ == m,
            m == old(entries)@,
            first_same(m, *key, k as nat) is None,
        decreases entries@.len() - k,
    {
        if same_value(&*entries[k].0, &*key) {
            proof {
                assert(first_same(m, *key, k as nat + 1) == Some(k as int));
                lemma_first_same_stays(m, copy_of(&*key), k as nat + 1, m.len());
            }
            entries.set(k, (key, value));
            return;
        }
        k = k + 1;
    }
    entries.push((key, value));
}

/// Whether the float with bits `x` is a zero (of either sign).
pub open spec fn float_zero(x: u64) -> bool {
    x == 0 || x == 0x8000_0000_0000_0000u64
}

/// Whether the float with bits `x` is a NaN.
pub open spec fn float_nan(x: u64) -> bool {
    (x >> 52u64) & 0x7ffu64 == 0x7ffu64 && x & 0xf_ffff_ffff_ffffu64 != 0
}

/// Whether two floats are the same map key: equal, both zeros, or both
/// NaNs.
pub open spec fn same_float(x: u64, y: u64) -> bool {
    x == y || (float_zero(x) && float_zero(y)) || (float_nan(x) && float_nan(y))
}

/// Whether two values are the same map key: strings, identifiers, ints,
/// unit, builtins and refs by content, floats by [`same_float`], lists and
/// arrays element by element. Functions and maps are never the same key.
pub open spec fn same(a: Value, b: Value) -> bool
    decreases a, 1nat,
{
    match a {
        Value::Str(x) => b matches Value::Str(y) && x@ == y@,
        Value::Ident(x) => b matches Value::Ident(y) && x@ == y@,
        Value::Int(x) => b matches Value::Int(y) && x == y,
        Value::Float(x) => b matches Value::Float(y) && same_float(x, y),
        Value::Unit => b is Unit,
        Value::Native(x) => b matches Value::Native(y) && x == y,
        Value::Ref(x) => b matches Value::Ref(y) && x == y,
        Value::Cons { head: h1, tail: t1 } => b matches Value::Cons { head: h2, tail: t2 } && same(*h1, *h2)
            && same(*t1, *t2),
        Value::Array(xs) => b matches Value::Array(ys) && xs@.len() == ys@.len() && same_items(
            xs@,
            ys@,
            xs@.len(),
            a,
        ),
        _ => false,
    }
}

/// Whether the first `n` elements of `xs` and `ys` are pairwise the same.
pub open spec fn same_items(xs: Seq<Rc<Value>>, ys: Seq<Rc<Value>>, n: nat, whole: Value) -> bool
    decreases whole, 0nat, n,
{
    if n == 0 || n > xs.len() || n > ys.len() || !(whole matches Value::Array(v) && v@ == xs) {
        true
    } else {
        same_items(xs, ys, (n - 1) as nat, whole) && same(*xs[n - 1], *ys[n - 1])
    }
}

/// Whether two values are the same map key: see [`same`].
pub(crate) fn same_value(a: &Value, b: &Value) -> (r: bool)
    ensures
        r == same(*a, *b),
        *a matches Value::Ident(x) ==> (*b matches Value::Ident(y) ==> r == (x@ == y@)),
        *a matches Value::Str(x) ==> (*b matches Value::Str(y) ==> r == (x@ == y@)),
        *a matches Value::Int(x) ==> (*b matches Value::Int(y) ==> r == (x == y)),
        *a matches Value::Native(x) ==> (*b matches Value::Native(y) ==> r == (x == y)),
        *a matches Value::Ref(x) ==> (*b matches Value::Ref(y) ==> r == (x == y)),
        (*a is Unit && *b is Unit) ==> r,
        (*a is Closure || *a is Macro || *a is Dict) ==> !r,
    decreases *a,
{
    match (a, b) {
        (Value::Str(x), Value::Str(y)) => same_text(x.as_str(), y.as_str()),
        (Value::Ident(x), Value::Ident(y)) => same_text(x.as_str(), y.as_str()),
        (Value::Int(x), Value::Int(y)) => *x == *y,
        (Value::Float(x), Value::Float(y)) => {
            let zx = *x == 0 || *x == 0x8000_0000_0000_0000u64;
            let zy = *y == 0 || *y == 0x8000_0000_0000_0000u64;
            let nx = (*x >> 52u64) & 0x7ffu64 == 0x7ffu64 && *x & 0xf_ffff_ffff_ffffu64 != 0;
            let ny = (*y >> 52u64) & 0x7ffu64 == 0x7ffu64 && *y & 0xf_ffff_ffff_ffffu64 != 0;
            *x == *y || (zx && zy) || (nx && ny)
        },
        (Value::Unit, Value::Unit) => true,
        (Value::Native(x), Value::Native(y)) => *x == *y,
        (Value::Ref(x), Value::Ref(y)) => *x == *y,
        (Value::Cons { head: h1, tail: t1 }, Value::Cons { head: h2, tail: t2 }) => {
            same_value(&**h1, &**h2) && same_value(&**t1, &**t2)
        },
        (Value::Array(xs), Value::Array(ys)) => {
            if xs.len() != ys.len() {
                return false;
            }
            let mut k: usize = 0;
            while k < xs.len()
                invariant
                    k <= xs@.len(),
                    xs@.len() == ys@.len(),
                    *a is Array,
                    a->Array_0@ == xs@,
                    *b is Array,
                    b->Array_0@ == ys@,
                    same_items(xs@, ys@, k as nat, *a),
                decreases xs@.len() - k,
            {
                proof {
                    let v = a->Array_0;
                    assert(decreases_to!(*a => v));
                    assert(decreases_to!(v => v@));
                    assert(v@[k as int] == xs@[k as int]);
                    assert(decreases_to!(v@ => v@[k as int]));
                }
                if !same_value(&*xs[k], &*ys[k]) {
                    proof {
                        if same_items(xs@, ys@, xs@.len(), *a) {
                            lemma_same_items_prefix(xs@, ys@, xs@.len(), (k + 1) as nat, *a);
                        }
                    }
                    return false;
                }
                k = k + 1;
            }
            true
        },
        (Value::Str(_), _) | (Value::Ident(_), _) | (Value::Int(_), _) | (Value::Float(_), _)
        | (Value::Unit, _) | (Value::Native(_), _) | (Value::Ref(_), _) | (Value::Cons { .. }, _)
        | (Value::Array(_), _) => false,
        _ => false,
    }
}

/// Whether `v` can be a map key that finds itself: no function and no map
/// anywhere in it.
pub open spec fn keyable(v: Value) -> bool
    decreases v, 1nat,
{
    match v {
        Value::Closure(_) | Value::Macro(_) | Value::Dict(_) => false,
        Value::Cons { head, tail } => keyable(*head) && keyable(*tail),
        Value::Array(xs) => keyable_items(xs@, xs@.len(), v),
        _ => true,
    }
}

/// Whether the first `n` elements of `xs` (the elements of `whole`) are
/// keyable.
pub open spec fn keyable_items(xs: Seq<Rc<Value>>, n: nat, whole: Value) -> bool
    decreases whole, 0nat, n,
{
    if n == 0 || n > xs.len() || !(whole matches Value::Array(v) && v@ == xs) {
        true
    } else {
        keyable_items(xs, (n - 1) as nat, whole) && keyable(*xs[n - 1])
    }
}

/// Every key without functions or maps in it is the same key as itself:
/// strings and identifiers by their text, numbers, refs and builtins by
/// their value, lists and arrays element by element.
pub proof fn law_same_reflexive(a: Value)
    requires
        keyable(a),
    ensures
        same(a, a),
    decreases a, 1nat,
{
    match a {
        Value::Cons { head, tail } => {
            law_same_reflexive(copy_of(&*head));
            law_same_reflexive(copy_of(&*tail));
        },
        Value::Array(xs) => {
            lemma_same_items_reflexive(xs@, xs@.len(), a);
        },
        _ => {},
    }
}

/// The first `n` keyable elements of an array are each the same as
/// themselves.
proof fn lemma_same_items_reflexive(xs: Seq<Rc<Value>>, n: nat, whole: Value)
    requires
        keyable_items(xs, n, whole),
    ensures
        same_items(xs, xs, n, whole),
    decreases whole, 0nat, n,
{
    if n == 0 || n > xs.len() || !(whole matches Value::Array(v) && v@ == xs) {
    } else {
        lemma_same_items_reflexive(xs, (n - 1) as nat, whole);
        let v = whole->Array_0;
        assert(decreases_to!(whole => v));
        assert(decreases_to!(v => v@));
        assert(decreases_to!(v@ => v@[n - 1]));
        law_same_reflexive(copy_of(&*xs[n - 1]));
    }
}

/// Two identifiers are the same key exactly when their names are the same
/// text, and likewise two strings; an identifier is never the same key as a
/// string.
pub proof fn law_same_by_text(x: Rc<String>, y: Rc<String>)
    ensures
        same(Value::Ident(x), Value::Ident(y)) == (x@ == y@),
        same(Value::Str(x), Value::Str(y)) == (x@ == y@),
        !same(Value::Ident(x), Value::Str(y)),
{
}

/// Which atoms are the same key: ints, builtins and refs when equal; `()`
/// with `()`; floats when equal, both zeros or both NaNs; never a function
/// or a map, and never two values of different kinds.
pub proof fn law_same_atoms(a: Value, b: Value)
    ensures
        a matches Value::Int(x) ==> (b matches Value::Int(y) ==> same(a, b) == (x == y)),
        a matches Value::Native(x) ==> (b matches Value::Native(y) ==> same(a, b) == (x == y)),
        a matches Value::Ref(x) ==> (b matches Value::Ref(y) ==> same(a, b) == (x == y)),
        (a is Unit && b is Unit) ==> same(a, b),
        a matches Value::Float(x) ==> (b matches Value::Float(y) ==> same(a, b) == (x == y || ((x == 0
            || x == 0x8000_0000_0000_0000u64) && (y == 0 || y == 0x8000_0000_0000_0000u64)) || ((x >> 52u64)
            & 0x7ffu64 == 0x7ffu64 && x & 0xf_ffff_ffff_ffffu64 != 0 && (y >> 52u64) & 0x7ffu64 == 0x7ffu64
            && y & 0xf_ffff_ffff_ffffu64 != 0))),
        (a is Closure || a is Macro || a is Dict) ==> !same(a, b),
        same(a, b) ==> ((a is Str <==> b is Str) && (a is Ident <==> b is Ident) && (a is Int <==> b is Int)
            && (a is Float <==> b is Float) && (a is Unit <==> b is Unit) && (a is Native <==> b is Native)
            && (a is Ref <==> b is Ref) && (a is Cons <==> b is Cons) && (a is Array <==> b is Array)),
{
}

/// Two lists are the same key exactly when their heads are and their tails
/// are.
pub proof fn law_same_cons(h1: Rc<Value>, t1: Rc<Value>, h2: Rc<Value>, t2: Rc<Value>)
    ensures
        same(Value::Cons { head: h1, tail: t1 }, Value::Cons { head: h2, tail: t2 }) == (same(*h1, *h2)
            && same(*t1, *t2)),
{
}

/// Two arrays are the same key exactly when they have the same length and
/// are the same key element by element.
pub proof fn law_same_arrays(xs: Vec<Rc<Value>>, ys: Vec<Rc<Value>>)
    ensures
        same(Value::Array(xs), Value::Array(ys)) == (xs@.len() == ys@.len() && forall|i: int|
            0 <= i < xs@.len() ==> #[trigger] same(*xs@[i], *ys@[i])),
{
    if xs@.len() == ys@.len() {
        lemma_same_items_all(xs@, ys@, xs@.len(), Value::Array(xs));
    }
}

/// `same_items` over the first `n` elements says they are pairwise the same.
proof fn lemma_same_items_all(xs: Seq<Rc<Value>>, ys: Seq<Rc<Value>>, n: nat, whole: Value)
    requires
        n <= xs.len(),
        n <= ys.len(),
        whole matches Value::Array(v) && v@ == xs,
    ensures
        same_items(xs, ys, n, whole) == forall|i: int| 0 <= i < n ==> #[trigger] same(*xs[i], *ys[i]),
    decreases n,
{
    if n > 0 {
        lemma_same_items_all(xs, ys, (n - 1) as nat, whole);
        assert(same_items(xs, ys, n, whole) == (same_items(xs, ys, (n - 1) as nat, whole) && same(
            *xs[n - 1],
            *ys[n - 1],
        )));
        if same_items(xs, ys, n, whole) {
            assert forall|i: int| 0 <= i < n implies #[trigger] same(*xs[i], *ys[i]) by {
                if i < n - 1 {
                    assert(same(*xs[i], *ys[i]));
                }
            }
        }
        if forall|i: int| 0 <= i < n ==> #[trigger] same(*xs[i], *ys[i]) {
            assert(same(*xs[n - 1], *ys[n - 1]));
            assert forall|i: int| 0 <= i < n - 1 implies #[trigger] same(*xs[i], *ys[i]) by {
                assert(same(*xs[i], *ys[i]));
            }
        }
    }
}

/// Being the same key does not depend on the order of the two values.
pub proof fn law_same_symmetric(a: Value, b: Value)
    ensures
        same(a, b) == same(b, a),
    decreases a,
{
    match a {
        Value::Cons { head: h1, tail: t1 } => {
            if b is Cons {
                let h2 = b->Cons_head;
                let t2 = b->Cons_tail;
                law_same_symmetric(copy_of(&*h1), copy_of(&*h2));
                law_same_symmetric(copy_of(&*t1), copy_of(&*t2));
            }
        },
        Value::Array(xs) => {
            if b is Array {
                let ys = b->Array_0;
                law_same_arrays(xs, ys);
                law_same_arrays(ys, xs);
                if xs@.len() == ys@.len() {
                    assert forall|i: int| 0 <= i < xs@.len() implies same(*xs@[i], *ys@[i]) == same(
                        *ys@[i],
                        *xs@[i],
                    ) by {
                        assert(decreases_to!(a => xs));
                        assert(decreases_to!(xs => xs@));
                        assert(decreases_to!(xs@ => xs@[i]));
                        law_same_symmetric(copy_of(&*xs@[i]), copy_of(&*ys@[i]));
                    }
                }
            }
        },
        _ => {},
    }
}

/// A key the same as a second one that is the same as a third is the same
/// as the third: with [`law_same_symmetric`] and [`law_same_reflexive`],
/// sameness is an equivalence on keys.
pub proof fn law_same_transitive(a: Value, b: Value, c: Value)
    requires
        same(a, b),
        same(b, c),
    ensures
        same(a, c),
    decreases a,
{
    match a {
        Value::Cons { head: h1, tail: t1 } => {
            let h2 = b->Cons_head;
            let t2 = b->Cons_tail;
            let h3 = c->Cons_head;
            let t3 = c->Cons_tail;
            law_same_transitive(copy_of(&*h1), copy_of(&*h2), copy_of(&*h3));
            law_same_transitive(copy_of(&*t1), copy_of(&*t2), copy_of(&*t3));
        },
        Value::Array(xs) => {
            let ys = b->Array_0;
            let zs = c->Array_0;
            law_same_arrays(xs, ys);
            law_same_arrays(ys, zs);
            law_same_arrays(xs, zs);
            assert forall|i: int| 0 <= i < xs@.len() implies #[trigger] same(*xs@[i], *zs@[i]) by {
                assert(decreases_to!(a => xs));
                assert(decreases_to!(xs => xs@));
                assert(decreases_to!(xs@ => xs@[i]));
                assert(same(*xs@[i], *ys@[i]));
                assert(same(*ys@[i], *zs@[i]));
                law_same_transitive(copy_of(&*xs@[i]), copy_of(&*ys@[i]), copy_of(&*zs@[i]));
            }
        },
        _ => {
            assert(!float_nan(0u64)) by (bit_vector);
            assert(!float_nan(0x8000_0000_0000_0000u64)) by (bit_vector);
        },
    }
}

/// Pairwise sameness of a longer prefix gives it for a shorter one.
proof fn lemma_same_items_prefix(xs: Seq<Rc<Value>>, ys: Seq<Rc<Value>>, n: nat, m: nat, whole: Value)
    requires
        m <= n <= xs.len(),
        n <= ys.len(),
        same_items(xs, ys, n, whole),
    ensures
        same_items(xs, ys, m, whole),
    decreases n - m,
{
    if m < n {
        lemma_same_items_prefix(xs, ys, (n - 1) as nat, m, whole);
    }
}

/// `(if cond then else)`: evaluates `cond`, then only the branch it picks,
/// and returns that branch's value with `ctx` unchanged.
fn eval_if<N: Natives>(natives: &mut N,
    cells: &mut Cells, tail: &Rc<Value>, ctx: &Env, depth: usize) -> (r: Result<
    (Rc<Value>, Env),
    RuntimeError,
>)
    ensures
        r matches Ok((_, e)) ==> e@ == ctx@,
        items(**tail).len() == 3 ==> if_runs(items(**tail), ctx@, old(cells)@, depth as nat, value_of(r)),
        items(**tail).len() == 3 && self_evaluating(*items(**tail)[0]) && self_evaluating(
            *items(**tail)[1],
        ) && self_evaluating(*items(**tail)[2]) ==> (r matches Ok((v, _)) && v == (if truthy_in(
            *items(**tail)[0],
            old(cells)@,
            old(cells)@.len(),
        ) {
            items(**tail)[1]
        } else {
            items(**tail)[2]
        })),
    decreases depth, 1nat,
{
    let items = list_items(tail);
    if items.len() != 3 {
        return Err(arity_mismatch(KW_IF, Arity::Exactly(3), items.len()));
    }
    let ghost c0 = cells@;
    let r0 = eval(natives, cells, share(&items[0]), ctx, depth);
    let (cond, ce) = match r0 {
        Ok(x) => x,
        Err(x) => {
            let r: Result<(Rc<Value>, Env), RuntimeError> = Err(x);
            proof {
                assert(outcome(r0) == Err::<(Rc<Value>, Seq<(Rc<String>, Rc<Value>)>), RuntimeError>(x));
                assert(value_of(r) == Err::<Rc<Value>, RuntimeError>(x));
            }
            return r;
        },
    };
    let ghost cs = cells@;
    let b = is_truthy(&cond, cells);
    let branch = if b {
        share(&items[1])
    } else {
        share(&items[2])
    };
    let r1 = eval(natives, cells, branch, ctx, depth);
    let r = match r1 {
        Ok((v, _)) => Ok((v, ctx.duplicate())),
        Err(x) => Err(x),
    };
    proof {
        let be = if r1 is Ok { r1->Ok_0.1@ } else { ctx@ };
        assert(with_env(value_of(r), be) == outcome(r1));
        assert(eval_basic(*items@[0], ctx@, c0, depth as nat, Ok((cond, ce@))));
        assert(truthy_in(*cond, cs, cs.len()) == b);
    }
    r
}

/// `(do f1 ... fn)`: evaluates each form in order, threading the
/// environment, and returns the last value (`()` when there is none) with
/// the threaded environment.
fn eval_do<N: Natives>(natives: &mut N,
    cells: &mut Cells, tail: &Rc<Value>, ctx: &Env, depth: usize) -> (r: Result<
    (Rc<Value>, Env),
    RuntimeError,
>)
    ensures
        items(**tail).len() == 0 ==> (r matches Ok((v, e)) && *v == Value::Unit && e@ == ctx@),
        do_runs(items(**tail), ctx@, old(cells)@, depth as nat, outcome(r)),
    decreases depth, 3nat,
{
    let r0 = eval_and_collect(natives, cells, tail, ctx, depth);
    let (vals, env) = match r0 {
        Ok(x) => x,
        Err(x) => {
            let r: Result<(Rc<Value>, Env), RuntimeError> = Err(x);
            proof {
                assert(collected(r0) == Err::<(Seq<Rc<Value>>, Seq<(Rc<String>, Rc<Value>)>), RuntimeError>(x));
                assert(outcome(r) == Err::<(Rc<Value>, Seq<(Rc<String>, Rc<Value>)>), RuntimeError>(x));
            }
            return r;
        },
    };
    let ghost vs = vals@;
    let last = if vals.len() == 0 {
        Rc::new(Value::Unit)
    } else {
        share(&vals[vals.len() - 1])
    };
    proof {
        assert(threads(items(**tail), ctx@, old(cells)@, depth as nat, Ok((vs, env@))));
        if vs.len() == 0 {
            assert(items(**tail).len() == 0 ==> env@ == ctx@) by {
                if items(**tail).len() == 0 {
                    let (envs, stores, vals2) = choose|
                        envs: Seq<Seq<(Rc<String>, Rc<Value>)>>,
                        stores: Seq<Seq<Rc<Value>>>,
                        vals2: Seq<Rc<Value>>,
                    |
                        envs[0] == ctx@ && stores[0] == old(cells)@ && threaded(
                            items(**tail),
                            envs,
                            stores,
                            vals2,
                            depth as nat,
                            Ok((vs, env@)),
                        );
                }
            }
        }
    }
    Ok((last, env))
}

/// Reads a `(doc ARG ...)` form: each argument is evaluated and must be a
/// string or a list or array of them (nested, flattened); the strings are
/// joined with newlines.
fn parse_doc_form<N: Natives>(
    natives: &mut N,
    cells: &mut Cells,
    form: &str,
    value: &Rc<Value>,
    env: &Env,
    depth: usize,
) -> (r: Result<Rc<String>, RuntimeError>)
    decreases depth, 1nat,
{
    let tail = match &**value {
        Value::Cons { head, tail } => {
            if !is_headed(&**value, crate::consts::KW_DOC) {
                return Err(RuntimeError::TypeMismatch {
                    name: text(form),
                    expected: text("(doc ...)"),
                    got: text("list"),
                });
            }
            share(tail)
        },
        other => {
            return Err(type_mismatch(form, "(doc ...) or body", other));
        },
    };
    let args = list_items(&tail);
    if args.len() == 0 {
        return Err(arity_mismatch(crate::consts::KW_DOC, Arity::Exactly(1), 0));
    }
    let mut parts: Vec<Rc<String>> = Vec::new();
    let mut k: usize = 0;
    while k < args.len()
        invariant
            k <= args@.len(),
        decreases args@.len() - k,
    {
        let (val, _) = eval(natives, cells, share(&args[k]), env, depth)?;
        collect_doc_strings(&val, &mut parts, depth)?;
        k = k + 1;
    }
    let mut joined = String::new();
    let mut j: usize = 0;
    while j < parts.len()
        invariant
            j <= parts@.len(),
        decreases parts@.len() - j,
    {
        if j > 0 {
            joined.append("\n");
        }
        joined.append(parts[j].as_str());
        j = j + 1;
    }
    Ok(Rc::new(joined))
}

/// Appends the strings of a doc argument to `parts`: a string itself, or
/// the strings of a list's or an array's elements, at any nesting up to
/// `depth`.
fn collect_doc_strings(v: &Rc<Value>, parts: &mut Vec<Rc<String>>, depth: usize) -> (r: Result<
    (),
    RuntimeError,
>)
    decreases depth,
{
    match &**v {
        Value::Str(s) => {
            parts.push(share(s));
            Ok(())
        },
        Value::Array(_) | Value::Cons { .. } | Value::Unit => {
            if depth == 0 {
                return Err(RuntimeError::RecursionLimit);
            }
            let elems = match &**v {
                Value::Array(xs) => {
                    let mut out: Vec<Rc<Value>> = Vec::new();
                    let mut k: usize = 0;
                    while k < xs.len()
                        invariant
                            k <= xs@.len(),
                        decreases xs@.len() - k,
                    {
                        out.push(share(&xs[k]));
                        k = k + 1;
                    }
                    out
                },
                _ => list_items(v),
            };
            let mut k: usize = 0;
            while k < elems.len()
                invariant
                    k <= elems@.len(),
                    depth > 0,
                decreases elems@.len() - k,
            {
                collect_doc_strings(&elems[k], parts, depth - 1)?;
                k = k + 1;
            }
            Ok(())
        },
        other => Err(RuntimeError::TypeMismatch {
            name: text(crate::consts::KW_DOC),
            expected: text("str or collection of str"),
            got: text(variant_name(other)),
        }),
    }
}

/// A copy of `c` that carries `doc`.
fn with_doc(c: &Closure, doc: Rc<String>) -> (r: Closure)
    ensures
        r.params@.len() == c.params@.len(),
        r.rest is Some <==> c.rest is Some,
{
    let mut params: Vec<Rc<String>> = Vec::new();
    let mut k: usize = 0;
    while k < c.params.len()
        invariant
            k <= c.params@.len(),
            params@.len() == k,
        decreases c.params@.len() - k,
    {
        params.push(share(&c.params[k]));
        k = k + 1;
    }
    Closure {
        name: share(&c.name),
        params,
        rest: match &c.rest {
            Some(r) => Some(share(r)),
            None => None,
        },
        body: share(&c.body),
        env: c.env.duplicate(),
        doc: Some(doc),
    }
}

/// `value` with `doc` attached when it is a closure or a macro; any other
/// value is returned as it is.
fn attach_doc(value: Rc<Value>, doc: Option<Rc<String>>) -> (r: Rc<Value>)
    ensures
        doc is None ==> r == value,
        !(*value is Closure) && !(*value is Macro) ==> r == value,
        *value is Closure ==> *r is Closure,
{
    match doc {
        None => value,
        Some(d) => match &*value {
            Value::Closure(c) => Rc::new(Value::Closure(Rc::new(with_doc(&**c, d)))),
            Value::Macro(c) => Rc::new(Value::Macro(Rc::new(with_doc(&**c, d)))),
            _ => value,
        },
    }
}

/// `(open PATH [PREFIX])`: evaluates `PATH`, which must give a string or an
/// identifier, has the host read and run that module, and merges every
/// binding the module made into the caller's environment, under the
/// unevaluated identifier `PREFIX` when there is one (`PREFIX.NAME`); a
/// merged name takes the module's value. The value is the module's last.
fn eval_open<N: Natives>(
    natives: &mut N,
    cells: &mut Cells,
    tail: &Rc<Value>,
    ctx: &Env,
    depth: usize,
) -> (r: Result<(Rc<Value>, Env), RuntimeError>)
    ensures
        (items(**tail).len() < 1 || items(**tail).len() > 2) ==> (r matches Err(
            RuntimeError::ArityMismatch { expected, got, .. },
        ) && expected == Arity::Range(1, 2) && got == items(**tail).len()),
        items(**tail).len() == 2 && !(*items(**tail)[1] is Ident) ==> r matches Err(
            RuntimeError::TypeMismatch { .. },
        ),
        r matches Ok((_, e)) ==> opened(items(**tail), ctx@, old(cells)@, depth as nat, e@),
    decreases depth, 1nat,
{
    let args = list_items(tail);
    if args.len() < 1 || args.len() > 2 {
        return Err(arity_mismatch(KW_OPEN, Arity::Range(1, 2), args.len()));
    }
    let prefix: Option<Rc<String>> = if args.len() == 2 {
        match &*args[1] {
            Value::Ident(p) => Some(share(p)),
            other => {
                return Err(type_mismatch(KW_OPEN, "ident prefix", other));
            },
        }
    } else {
        None
    };
    let ghost c0 = cells@;
    let (path, env) = eval(natives, cells, share(&args[0]), ctx, depth)?;
    let ghost pv = path;
    match &*path {
        Value::Str(_) | Value::Ident(_) => {},
        other => {
            return Err(type_mismatch(KW_OPEN, "str", other));
        },
    }
    let (v, module) = natives.open(path, &env)?;
    let merged = match &prefix {
        Some(p) => {
            let ps = p.as_str();
            let m = env.merged(&module, Some(ps));
            proof {
                assert(prefix_of(Some(ps)) == open_prefix(args@));
            }
            m
        },
        None => {
            let m = env.merged(&module, None);
            proof {
                assert(prefix_of(None) == open_prefix(args@));
            }
            m
        },
    };
    proof {
        assert(merges(env@, module@, open_prefix(args@), merged@));
        assert(eval_basic(*args@[0], ctx@, c0, depth as nat, Ok((pv, env@))));
    }
    Ok((v, merged))
}

/// `(let name value)` / `(let! name value)`, with an optional `(doc ...)`
/// between name and value: evaluates `value` and binds it (for `let!`, a
/// new cell holding it) to `name`.
fn eval_let<N: Natives>(
    natives: &mut N,
    cells: &mut Cells,
    tail: &Rc<Value>,
    ctx: &Env,
    depth: usize,
    as_ref: bool,
) -> (r: Result<(Rc<Value>, Env), RuntimeError>)
    ensures
        r matches Ok((v, e)) ==> (!as_ref ==> (*items(**tail)[0] is Ident && binds(
            e@,
            ident_of(*items(**tail)[0]),
            v,
        ))),
        (as_ref && items(**tail).len() == 2 && *items(**tail)[0] is Ident) ==> (r matches Ok((v, e))
            ==> let_ref_runs(items(**tail), ctx@, old(cells)@, depth as nat, v, e@, final(cells)@)),
        (!as_ref && items(**tail).len() == 2 && *items(**tail)[0] is Ident) ==> let_runs(
            items(**tail),
            ctx@,
            old(cells)@,
            depth as nat,
            outcome(r),
        ),
        (!as_ref && items(**tail).len() == 2 && *items(**tail)[0] is Ident && self_evaluating(
            *items(**tail)[1],
        )) ==> (r matches Ok((v, e)) && v == items(**tail)[1] && updated(
            ctx@,
            ident_of(*items(**tail)[0]),
            v,
            e@,
        )),
    decreases depth, 2nat,
{
    let form = if as_ref {
        KW_LET_REF
    } else {
        KW_LET
    };
    let items = list_items(tail);
    let value_at: usize = if items.len() == 2 {
        1
    } else if items.len() == 3 && is_headed(&*items[1], crate::consts::KW_DOC) {
        2
    } else {
        return Err(arity_mismatch(form, Arity::Exactly(2), items.len()));
    };
    let name = match &*items[0] {
        Value::Ident(n) => share(n),
        other => {
            return Err(type_mismatch(form, "ident", other));
        },
    };
    let doc = if value_at == 2 {
        Some(parse_doc_form(natives, cells, form, &items[1], ctx, depth)?)
    } else {
        None
    };
    let ghost c0 = cells@;
    let r0 = eval(natives, cells, share(&items[value_at]), ctx, depth);
    let (val, env) = match r0 {
        Ok(x) => x,
        Err(x) => {
            let r: Result<(Rc<Value>, Env), RuntimeError> = Err(x);
            proof {
                assert(outcome(r0) == Err::<(Rc<Value>, Seq<(Rc<String>, Rc<Value>)>), RuntimeError>(x));
                assert(outcome(r) == Err::<(Rc<Value>, Seq<(Rc<String>, Rc<Value>)>), RuntimeError>(x));
            }
            return r;
        },
    };
    let ghost ev = env@;
    proof {
        assert(value_at == 1 ==> eval_basic(*items@[1], ctx@, c0, depth as nat, Ok((val, ev))));
    }
    let val = attach_doc(val, doc);
    if as_ref {
        let ghost cs = cells@;
        let cell = cells.new_cell(share(&val));
        let rv = Rc::new(Value::Ref(cell));
        let ghost g = rv;
        let env = env.update(name, rv);
        proof {
            assert(value_at == 1 ==> (eval_basic(*items@[1], ctx@, c0, depth as nat, Ok((val, ev)))
                && cells@ == cs.push(val) && updated(ev, ident_of(*items@[0]), g, env@)));
        }
        Ok((val, env))
    } else {
        let env = env.update(name, share(&val));
        Ok((val, env))
    }
}

/// The parameter list of a `fn` or `defmacro`: `(a b c)`, `(a b . rest)`,
/// or a bare identifier naming the rest of the arguments.
pub fn param_list(form: &str, params: &Rc<Value>) -> (r: Result<
    (Vec<Rc<String>>, Option<Rc<String>>),
    RuntimeError,
>)
    ensures
        r is Ok <==> params_of(**params) is Some,
        r matches Ok((ps, rest)) ==> params_of(**params) == Some((names_of(ps@), rest_name(rest))),
        r matches Err(x) ==> x is TypeMismatch,
{
    if let Value::Ident(name) = &**params {
        proof {
            assert(names_of(Seq::<Rc<String>>::empty()) =~= Seq::<Seq<char>>::empty());
        }
        return Ok((Vec::new(), Some(share(name))));
    }
    let mut out: Vec<Rc<String>> = Vec::new();
    let mut cur: Rc<Value> = share(params);
    loop
        invariant
            params_of(**params) == prepend_params(names_of(out@), params_of(*cur)),
        decreases items(*cur).len(),
    {
        let next = match &*cur {
            Value::Unit => {
                return Ok((out, None));
            },
            Value::Ident(rest) => {
                return Ok((out, Some(share(rest))));
            },
            Value::Cons { head, tail } => {
                let ghost before = out@;
                match &**head {
                    Value::Ident(p) => out.push(share(p)),
                    other => {
                        return Err(type_mismatch(form, "ident", other));
                    },
                }
                proof {
                    assert(names_of(out@) =~= names_of(before).push(out@.last()@));
                    lemma_prepend_push(names_of(before), out@.last()@, &**tail);
                }
                share(tail)
            },
            other => {
                return Err(type_mismatch(form, "ident", other));
            },
        };
        proof {
            assert(items(*cur) =~= seq![items(*cur)[0]] + items(*next));
        }
        cur = next;
    }
}

/// The parameter names of the parameter list `v` and its rest parameter:
/// a proper list of identifiers, a list of identifiers ended by an
/// identifier tail (the rest), or a lone identifier (the rest); anything
/// else is no parameter list.
pub open spec fn params_of(v: Value) -> Option<(Seq<Seq<char>>, Option<Seq<char>>)>
    decreases v,
{
    match v {
        Value::Unit => Some((Seq::empty(), None)),
        Value::Ident(n) => Some((Seq::empty(), Some(n@))),
        Value::Cons { head, tail } => match *head {
            Value::Ident(p) => prepend_params(seq![p@], params_of(*tail)),
            _ => None,
        },
        _ => None,
    }
}

/// The names `ns` put before the parameters of `ps`.
pub open spec fn prepend_params(
    ns: Seq<Seq<char>>,
    ps: Option<(Seq<Seq<char>>, Option<Seq<char>>)>,
) -> Option<(Seq<Seq<char>>, Option<Seq<char>>)> {
    match ps {
        Some((xs, rest)) => Some((ns + xs, rest)),
        None => None,
    }
}

/// Putting one more name before the parameters.
proof fn lemma_prepend_push(ns: Seq<Seq<char>>, n: Seq<char>, rest: &Value)
    ensures
        prepend_params(ns, prepend_params(seq![n], params_of(*rest))) == prepend_params(
            ns.push(n),
            params_of(*rest),
        ),
{
    let ps = params_of(*rest);
    if ps is Some {
        assert(ns + (seq![n] + ps->Some_0.0) =~= ns.push(n) + ps->Some_0.0);
    }
}

/// The texts of the names `ps`.
pub open spec fn names_of(ps: Seq<Rc<String>>) -> Seq<Seq<char>> {
    ps.map_values(|p: Rc<String>| p@)
}

/// The text of the rest parameter `rest`, if any.
pub open spec fn rest_name(rest: Option<Rc<String>>) -> Option<Seq<char>> {
    match rest {
        Some(r) => Some(r@),
        None => None,
    }
}

/// `c` is the closure named `name` made from the parameter list `params`
/// and the body `body` in the environment `env`, with no documentation.
pub open spec fn made(c: Closure, name: Seq<char>, params: Value, body: Rc<Value>, env: Seq<(Rc<String>, Rc<Value>)>) -> bool {
    &&& c.name@ == name
    &&& params_of(params) == Some((names_of(c.params@), rest_name(c.rest)))
    &&& c.body == body
    &&& c.env@ == env
    &&& c.doc is None
}

/// `(fn NAME? PARAMS (doc ...)? BODY)` or `(defmacro NAME PARAMS (doc ...)?
/// BODY)`: a closure (or macro) capturing `ctx`, bound under its name when
/// it has one.
fn eval_fn<N: Natives>(
    natives: &mut N,
    cells: &mut Cells,
    tail: &Rc<Value>,
    ctx: &Env,
    depth: usize,
    is_macro: bool,
) -> (r: Result<(Rc<Value>, Env), RuntimeError>)
    ensures
        r matches Ok((v, _)) ==> (!is_macro ==> *v is Closure),
        (!is_macro && items(**tail).len() == 3 && !head_is(*items(**tail)[1], KW_DOC@)
            && *items(**tail)[0] is Ident && params_of(*items(**tail)[1]) is Some) ==> (r matches Ok(
            (v, e),
        ) && *v matches Value::Closure(c) && made(
            *c,
            ident_of(*items(**tail)[0]),
            *items(**tail)[1],
            items(**tail)[2],
            ctx@,
        ) && updated(ctx@, ident_of(*items(**tail)[0]), v, e@)),
        (!is_macro && items(**tail).len() == 2 && params_of(*items(**tail)[0]) is Some) ==> (
        r matches Ok((v, e)) && *v matches Value::Closure(c) && made(
            *c,
            Seq::empty(),
            *items(**tail)[0],
            items(**tail)[1],
            ctx@,
        ) && e@ == ctx@),
    decreases depth, 2nat,
{
    proof {
        reveal_strlit("");
    }
    let form = if is_macro {
        KW_DEFMACRO
    } else {
        KW_FN
    };
    let items = list_items(tail);
    let n = items.len();
    let named = if is_macro {
        if n == 3 || (n == 4 && is_headed(&*items[2], crate::consts::KW_DOC)) {
            true
        } else {
            return Err(arity_mismatch(form, Arity::Exactly(3), n));
        }
    } else if n == 2 {
        false
    } else if n == 3 {
        !is_headed(&*items[1], crate::consts::KW_DOC)
    } else if n == 4 && is_headed(&*items[2], crate::consts::KW_DOC) {
        true
    } else {
        return Err(arity_mismatch(form, Arity::Exactly(3), n));
    };
    let first: usize = if named {
        1
    } else {
        0
    };
    let name: Option<Rc<String>> = if named {
        match &*items[0] {
            Value::Ident(s) => Some(share(s)),
            other => {
                return Err(type_mismatch(form, "ident", other));
            },
        }
    } else {
        None
    };
    let doc: Option<Rc<String>> = if n == first + 3 {
        Some(parse_doc_form(natives, cells, form, &items[first + 1], ctx, depth)?)
    } else {
        None
    };
    let (params, rest) = param_list(form, &items[first])?;
    let body = share(&items[n - 1]);
    let closure_name = match &name {
        Some(s) => share(s),
        None => {
            let nm = text("");
            proof {
                assert(nm@ =~= Seq::<char>::empty());
            }
            Rc::new(nm)
        },
    };
    let closure = Closure {
        name: closure_name,
        params,
        rest,
        body,
        env: ctx.duplicate(),
        doc,
    };
    let value = if is_macro {
        Rc::new(Value::Macro(Rc::new(closure)))
    } else {
        Rc::new(Value::Closure(Rc::new(closure)))
    };
    match name {
        Some(s) => {
            let env = ctx.duplicate().update(s, share(&value));
            Ok((value, env))
        },
        None => Ok((value, ctx.duplicate())),
    }
}

/// Whether `clo` takes `got` arguments: exactly as many as its parameters,
/// or at least as many when it has a rest parameter.
pub open spec fn closure_takes(clo: Closure, got: nat) -> bool {
    if clo.rest is Some {
        got >= clo.params@.len()
    } else {
        got == clo.params@.len()
    }
}

/// Applies `clo` to `args`: checks the count, binds the closure under its
/// own name (so the body can recurse), each parameter to its argument and
/// the rest parameter to the list of the arguments left over, in the
/// environment the closure captured, then evaluates the body there.
pub fn bind_and_eval<N: Natives>(
    natives: &mut N,
    cells: &mut Cells,
    args: Vec<Rc<Value>>,
    clo: &Rc<Closure>,
    self_value: Rc<Value>,
    depth: usize,
) -> (r: Result<(Rc<Value>, Env), RuntimeError>)
    ensures
        !closure_takes(**clo, args@.len()) ==> (r matches Err(
            RuntimeError::ArityMismatch { name, expected, got },
        ) && name@ == clo.name@ && got == args@.len() && expected == (if clo.rest is Some {
            Arity::AtLeast(clo.params@.len() as usize)
        } else {
            Arity::Exactly(clo.params@.len() as usize)
        })),
        closure_takes(**clo, args@.len()) ==> exists|e: Seq<(Rc<String>, Rc<Value>)>|
            #![trigger call_env(**clo, args@, self_value, e)]
            call_env(**clo, args@, self_value, e) && eval_basic(
                *clo.body,
                e,
                old(cells)@,
                depth as nat,
                outcome(r),
            ),
    decreases depth, 1nat,
{
    let ghost me = self_value;
    let np = clo.params.len();
    let wrong = match &clo.rest {
        None => args.len() != np,
        Some(_) => args.len() < np,
    };
    if wrong {
        let expected = match &clo.rest {
            None => Arity::Exactly(np),
            Some(_) => Arity::AtLeast(np),
        };
        return Err(RuntimeError::ArityMismatch { name: text(clo.name.as_str()), expected, got: args.len() });
    }
    let mut env = clo.env.duplicate().update(share(&clo.name), self_value);
    let ghost e0 = env@;
    proof {
        assert(updated(clo.env@, clo.name@, me, e0));
        lemma_chain_empty(e0);
        assert(clo.params@.take(0) =~= Seq::<Rc<String>>::empty());
        assert(args@.take(0) =~= Seq::<Rc<Value>>::empty());
    }
    let mut k: usize = 0;
    while k < np
        invariant
            k <= np,
            np == clo.params@.len(),
            np <= args@.len(),
            chain(e0, clo.params@.take(k as int), args@.take(k as int), env@),
        decreases np - k,
    {
        let ghost prev = env@;
        env = env.update(share(&clo.params[k]), share(&args[k]));
        proof {
            assert(clo.params@.take(k as int + 1) =~= clo.params@.take(k as int).push(clo.params@[k as int]));
            assert(args@.take(k as int + 1) =~= args@.take(k as int).push(args@[k as int]));
            lemma_chain_push(
                e0,
                clo.params@.take(k as int),
                args@.take(k as int),
                prev,
                clo.params@[k as int],
                args@[k as int],
                env@,
            );
        }
        k = k + 1;
    }
    let ghost e1 = env@;
    proof {
        assert(clo.params@.take(np as int) =~= clo.params@);
    }
    if let Some(rest_name) = &clo.rest {
        let mut tail: Vec<Rc<Value>> = Vec::new();
        let mut j: usize = np;
        while j < args.len()
            invariant
                np <= j <= args@.len(),
                tail@ == args@.subrange(np as int, j as int),
            decreases args@.len() - j,
        {
            tail.push(share(&args[j]));
            proof {
                assert(args@.subrange(np as int, j as int + 1) =~= args@.subrange(np as int, j as int).push(
                    args@[j as int],
                ));
            }
            j = j + 1;
        }
        proof {
            assert(args@.subrange(np as int, j as int) =~= args@.skip(np as int));
        }
        let rest_list = list_from(tail);
        let ghost x = rest_list;
        env = env.update(share(rest_name), rest_list);
        proof {
            assert(updated(e1, rest_name@, x, env@));
            assert(call_env(**clo, args@, me, env@));
        }
    } else {
        proof {
            assert(args@.take(np as int) =~= args@);
            assert(call_env(**clo, args@, me, env@));
        }
    }
    let ghost before = env@;
    let r = eval(natives, cells, share(&clo.body), &env, depth);
    proof {
        assert(call_env(**clo, args@, me, before));
    }
    r
}

/// A call whose body ran as [`eval_basic`] says, in the environment the
/// call set up, ends as [`runs`] says.
proof fn lemma_runs_of_call(
    c: &Closure,
    args: Seq<Rc<Value>>,
    me: Rc<Value>,
    cells: Seq<Rc<Value>>,
    depth: nat,
    r: Result<(Rc<Value>, Env), RuntimeError>,
)
    requires
        closure_takes(*c, args.len()) ==> exists|e: Seq<(Rc<String>, Rc<Value>)>|
            #![trigger call_env(*c, args, me, e)]
            call_env(*c, args, me, e) && eval_basic(*c.body, e, cells, depth, outcome(r)),
    ensures
        closure_takes(*c, args.len()) ==> runs(*c, args, me, cells, depth, value_of(r)),
{
    if closure_takes(*c, args.len()) {
        let e = choose|e: Seq<(Rc<String>, Rc<Value>)>|
            call_env(*c, args, me, e) && eval_basic(*c.body, e, cells, depth, outcome(r));
        let eo = if r is Ok { r->Ok_0.1@ } else { e };
        assert(with_env(value_of(r), eo) == outcome(r));
        assert(eval_basic(*c.body, e, cells, depth, with_env(value_of(r), eo)));
    }
}

/// A closure call whose operands gave `args` and whose body then ran (or
/// whose count was refused) ends as [`calls`] says.
proof fn lemma_calls_of_args(
    h: Rc<Value>,
    c: &Closure,
    list: &Value,
    env: Seq<(Rc<String>, Rc<Value>)>,
    cells: Seq<Rc<Value>>,
    depth: nat,
    args: Seq<Rc<Value>>,
    eo: Seq<(Rc<String>, Rc<Value>)>,
    cs: Seq<Rc<Value>>,
    r: Result<Rc<Value>, RuntimeError>,
)
    requires
        *h matches Value::Closure(k) && *k == *c,
        threads(items(*list), env, cells, depth, Ok((args, eo))),
        closure_takes(*c, args.len()) ==> runs(*c, args, h, cs, depth, r),
        !closure_takes(*c, args.len()) ==> r is Err,
    ensures
        calls(h, items(*list), env, cells, depth, r),
{
    let k = choose|k: Rc<Closure>| *h == Value::Closure(k);
    assert(*h == Value::Closure(k));
    assert(runs(*k, args, h, cs, depth, r) == runs(*c, args, h, cs, depth, r));
    assert(threads(items(*list), env, cells, depth, Ok((args, eo))) && (if closure_takes(*c, args.len()) {
        runs(*c, args, h, cs, depth, r)
    } else {
        r is Err
    }));
}

/// The value of `r`, without the environment.
pub open spec fn value_of(r: Result<(Rc<Value>, Env), RuntimeError>) -> Result<Rc<Value>, RuntimeError> {
    match r {
        Ok((v, _)) => Ok(v),
        Err(x) => Err(x),
    }
}

/// Evaluates each element of the list `tail` in turn, threading the
/// environment, and collects the values.
pub fn eval_and_collect<N: Natives>(
    natives: &mut N,
    cells: &mut Cells,
    tail: &Rc<Value>,
    ctx: &Env,
    depth: usize,
) -> (r: Result<(Vec<Rc<Value>>, Env), RuntimeError>)
    ensures
        r matches Ok((vs, _)) ==> vs@.len() == items(**tail).len(),
        threads(items(**tail), ctx@, old(cells)@, depth as nat, collected(r)),
    decreases depth, 1nat,
{
    let forms = list_items(tail);
    let mut env = ctx.duplicate();
    let mut out: Vec<Rc<Value>> = Vec::new();
    let mut k: usize = 0;
    let ghost cells0 = cells@;
    let ghost mut envs: Seq<Seq<(Rc<String>, Rc<Value>)>> = seq![ctx@];
    let ghost mut stores: Seq<Seq<Rc<Value>>> = seq![cells@];
    while k < forms.len()
        invariant
            k <= forms@.len(),
            out@.len() == k,
            forms@ == items(**tail),
            envs.len() == k + 1,
            stores.len() == k + 1,
            envs[0] == ctx@,
            stores[0] == cells0,
            cells0 == old(cells)@,
            envs[k as int] == env@,
            stores[k as int] == cells@,
            forall|i: int|
                0 <= i < k ==> #[trigger] eval_basic(
                    *forms@[i],
                    envs[i],
                    stores[i],
                    depth as nat,
                    Ok((out@[i], envs[i + 1])),
                ),
        decreases forms@.len() - k,
    {
        let ghost before = cells@;
        let r0 = eval(natives, cells, share(&forms[k]), &env, depth);
        proof {
            assert(eval_basic(*forms@[k as int], env@, before, depth as nat, outcome(r0)));
        }
        match r0 {
            Ok((v, e)) => {
                proof {
                    envs = envs.push(e@);
                    stores = stores.push(cells@);
                }
                out.push(v);
                env = e;
                k = k + 1;
            },
            Err(x) => {
                let r: Result<(Vec<Rc<Value>>, Env), RuntimeError> = Err(x);
                proof {
                    assert(outcome(r0) == Err::<(Rc<Value>, Seq<(Rc<String>, Rc<Value>)>), RuntimeError>(x));
                    assert(collected(r) == Err::<(Seq<Rc<Value>>, Seq<(Rc<String>, Rc<Value>)>), RuntimeError>(x));
                    assert(threaded(forms@, envs, stores, out@, depth as nat, collected(r)));
                }
                return r;
            },
        }
    }
    proof {
        assert(threaded(forms@, envs, stores, out@, depth as nat, Ok((out@, env@))));
    }
    Ok((out, env))
}

/// The values and the environment of `r`, as plain sequences.
pub open spec fn collected(r: Result<(Vec<Rc<Value>>, Env), RuntimeError>) -> Result<
    (Seq<Rc<Value>>, Seq<(Rc<String>, Rc<Value>)>),
    RuntimeError,
> {
    match r {
        Ok((vs, e)) => Ok((vs@, e@)),
        Err(x) => Err(x),
    }
}

/// Peels ref cells off `v` while the cell holds something callable, at
/// most `depth` times.
fn deref_callable(cells: &Cells, v: Rc<Value>, depth: usize) -> (r: Rc<Value>)
    ensures
        !(*v is Ref) ==> r == v,
{
    let mut cur = v;
    let mut fuel = depth;
    while fuel > 0
        invariant
            !(*v is Ref) ==> cur == v,
        decreases fuel,
    {
        let inner = match &*cur {
            Value::Ref(id) => match cells.get(*id) {
                Some(x) => x,
                None => {
                    return cur;
                },
            },
            _ => {
                return cur;
            },
        };
        match &*inner {
            Value::Native(_) | Value::Closure(_) | Value::Macro(_) | Value::Ref(_) => {},
            _ => {
                return cur;
            },
        }
        cur = inner;
        fuel = fuel - 1;
    }
    cur
}

/// Applies `callable` to the evaluated `args`, in `ctx`, and returns the
/// value: a closure binds them and evaluates its body, one of the library's
/// builtins runs here, a host builtin is called with them; the environments
/// the call leaves are dropped. Anything else, a host builtin that takes
/// unevaluated forms among them, is not callable here.
pub fn apply<N: Natives>(
    natives: &mut N,
    cells: &mut Cells,
    callable: &Rc<Value>,
    args: Vec<Rc<Value>>,
    ctx: &Env,
    depth: usize,
) -> (r: Result<Rc<Value>, RuntimeError>)
    ensures
        (**callable matches Value::Closure(c) && !closure_takes(*c, args@.len())) ==> r matches Err(
            RuntimeError::ArityMismatch { .. },
        ),
        !(**callable is Closure) && !(**callable is Native) && !(**callable is Ref) ==> r matches Err(
            RuntimeError::NotCallable { .. },
        ),
        **callable matches Value::Native(id) ==> (core_at(id as int) matches Some(b) ==> (
        if args@.len() == core_count(b) {
            core_gives(b, args@, old(cells)@, r, final(cells)@)
        } else {
            r matches Err(RuntimeError::ArityMismatch { .. })
        })),
        **callable matches Value::Closure(c) ==> (closure_takes(*c, args@.len()) ==> runs(
            *c,
            args@,
            *callable,
            old(cells)@,
            depth as nat,
            r,
        )),
{
    let callable = if let Value::Ref(_) = &**callable {
        deref_callable(cells, share(callable), depth)
    } else {
        share(callable)
    };
    match &*callable {
        Value::Closure(c) => {
            let ghost cells0 = cells@;
            let ghost n = args@.len();
            let ghost xs = args@;
            let r0 = bind_and_eval(natives, cells, args, c, share(&callable), depth);
            let ghost g0 = r0;
            proof {
                lemma_runs_of_call(&**c, xs, callable, cells0, depth as nat, g0);
            }
            match r0 {
                Ok((v, _)) => Ok(v),
                Err(x) => Err(x),
            }
        },
        Value::Native(id) => {
            let id = *id;
            if let Some(b) = core_of(id) {
                let arity = core_arity(b);
                if !arity.admits(args.len()) {
                    return Err(RuntimeError::ArityMismatch {
                        name: text(core_name(b)),
                        expected: arity,
                        got: args.len(),
                    });
                }
                return core_apply(b, &args, cells);
            }
            if natives.takes_forms(id) {
                return Err(RuntimeError::NotCallable { value: share(&callable) });
            }
            let arity = natives.arity(id);
            if !arity.admits(args.len()) {
                return Err(RuntimeError::ArityMismatch {
                    name: natives.name(id),
                    expected: arity,
                    got: args.len(),
                });
            }
            let (v, _) = natives.apply(id, args, ctx)?;
            Ok(v)
        },
        _ => Err(RuntimeError::NotCallable { value: share(&callable) }),
    }
}

/// A call of the library's builtin `b` on the operand forms in `tail`:
/// evaluates them in turn from `ctx`, checks their count, runs `b`, and
/// gives its value with `ctx`.
fn apply_core<N: Natives>(
    natives: &mut N,
    cells: &mut Cells,
    b: Core,
    tail: &Rc<Value>,
    ctx: Env,
    depth: usize,
) -> (r: Result<(Rc<Value>, Env), RuntimeError>)
    ensures
        core_calls(b, items(**tail), ctx@, old(cells)@, depth as nat, value_of(r), final(cells)@),
        r matches Ok((_, e)) ==> e@ == ctx@,
    decreases depth, 2nat,
{
    let r1 = eval_and_collect(natives, cells, tail, &ctx, depth);
    let (args, eo) = match r1 {
        Ok(x) => x,
        Err(x) => {
            let r: Result<(Rc<Value>, Env), RuntimeError> = Err(x);
            proof {
                assert(collected(r1) == Err::<(Seq<Rc<Value>>, Seq<(Rc<String>, Rc<Value>)>), RuntimeError>(x));
                assert(value_of(r) == Err::<Rc<Value>, RuntimeError>(x));
            }
            return r;
        },
    };
    let ghost cs = cells@;
    let ghost xs = args@;
    let arity = core_arity(b);
    let r2 = if !arity.admits(args.len()) {
        Err(RuntimeError::ArityMismatch { name: text(core_name(b)), expected: arity, got: args.len() })
    } else {
        core_apply(b, &args, cells)
    };
    let r = match r2 {
        Ok(v) => Ok((v, ctx)),
        Err(x) => Err(x),
    };
    proof {
        assert(value_of(r) == r2);
        assert(xs.len() != core_count(b) ==> cells@ == cs);
        assert(xs.len() == core_count(b) ==> core_gives(b, xs, cs, r2, cells@));
        lemma_core_calls(b, &**tail, ctx@, old(cells)@, depth as nat, xs, eo@, cs, value_of(r), cells@);
    }
    r
}

/// A call of the host's builtin `id` on the operand forms in `tail`: the
/// arguments evaluated in turn from `ctx` (or, for a builtin that takes
/// forms, the forms themselves), their count checked, and the host's
/// value, with the environment the builtin extended or else `ctx`.
fn apply_host<N: Natives>(
    natives: &mut N,
    cells: &mut Cells,
    id: usize,
    tail: &Rc<Value>,
    ctx: Env,
    depth: usize,
) -> (r: Result<(Rc<Value>, Env), RuntimeError>)
    decreases depth, 2nat,
{
    let (args, after) = if natives.takes_forms(id) {
        (list_items(tail), ctx.duplicate())
    } else {
        eval_and_collect(natives, cells, tail, &ctx, depth)?
    };
    let arity = natives.arity(id);
    if !arity.admits(args.len()) {
        return Err(RuntimeError::ArityMismatch { name: natives.name(id), expected: arity, got: args.len() });
    }
    let (v, extended) = natives.apply(id, args, &after)?;
    match extended {
        Some(env) => Ok((v, env)),
        None => Ok((v, ctx)),
    }
}

/// An application `(head arg ...)`: evaluates `head` to a callable and
/// applies it. One of the library's builtins gets its arguments evaluated
/// and returns the environment after `head`; a host builtin gets its
/// arguments evaluated (or, when it takes forms, unevaluated) and returns
/// that environment unless it extends it; a closure gets its evaluated
/// arguments and returns the environment after `head`; a macro gets its
/// unevaluated arguments and its expansion is evaluated in the environment
/// after `head`.
fn apply_form<N: Natives>(
    natives: &mut N,
    cells: &mut Cells,
    head: &Rc<Value>,
    tail: &Rc<Value>,
    ctx: &Env,
    depth: usize,
) -> (r: Result<(Rc<Value>, Env), RuntimeError>)
    ensures
        r matches Ok((_, e)) ==> ((**head matches Value::Ident(n) && bound(ctx@, n@) && forall|x: Rc<Value>|
            binds(ctx@, n@, x) ==> *x is Closure) ==> e@ == ctx@),
        forall|b: Core| **head matches Value::Ident(n) ==> ((bound(ctx@, n@) && forall|x: Rc<Value>|
            binds(ctx@, n@, x) ==> *x == Value::Native(core_id(b) as usize)) ==> #[trigger] core_calls(
            b,
            items(**tail),
            ctx@,
            old(cells)@,
            depth as nat,
            value_of(r),
            final(cells)@,
        )),
        **head matches Value::Ident(n) ==> ((bound(ctx@, n@) && forall|x: Rc<Value>|
            binds(ctx@, n@, x) ==> *x is Macro) ==> exists|h: Rc<Value>|
            #![trigger binds(ctx@, n@, h)]
            binds(ctx@, n@, h) && expands(h, items(**tail), ctx@, old(cells)@, depth as nat, value_of(r))),
        **head matches Value::Ident(n) ==> ((bound(ctx@, n@) && forall|x: Rc<Value>|
            binds(ctx@, n@, x) ==> *x is Closure) ==> exists|h: Rc<Value>|
            #![trigger binds(ctx@, n@, h)]
            binds(ctx@, n@, h) && calls(h, items(**tail), ctx@, old(cells)@, depth as nat, value_of(r))),
        applies_form(
            *head,
            items(**tail),
            ctx@,
            old(cells)@,
            depth as nat,
            value_of(r),
        ),
    decreases depth, 3nat,
{
    let ghost ctx0 = ctx@;
    let ghost cells0 = cells@;
    let r0 = eval(natives, cells, share(head), ctx, depth);
    let (callable, ctx) = match r0 {
        Ok(x) => x,
        Err(x) => {
            let r: Result<(Rc<Value>, Env), RuntimeError> = Err(x);
            proof {
                assert(outcome(r0) == Err::<(Rc<Value>, Seq<(Rc<String>, Rc<Value>)>), RuntimeError>(x));
                assert(value_of(r) == Err::<Rc<Value>, RuntimeError>(x));
            }
            return r;
        },
    };
    let ghost h0 = callable;
    let ghost cells1 = cells@;
    let ghost ctx1 = ctx@;
    proof {
        assert(**head is Ident ==> (cells1 == cells0 && ctx@ == ctx0));
        assert(eval_basic(**head, ctx0, cells0, depth as nat, Ok((h0, ctx@))));
    }
    let callable = deref_callable(cells, callable, depth);
    match &*callable {
        Value::Native(id) => {
            let id = *id;
            let r = match core_of(id) {
                Some(b) => apply_core(natives, cells, b, tail, ctx, depth),
                None => apply_host(natives, cells, id, tail, ctx, depth),
            };
            proof {
                assert(head_step(*head, items(**tail), ctx0, cells0, depth as nat, h0, ctx1, cells1, value_of(r)));
            }
            r
        },
        Value::Closure(clo) => {
            let r1 = eval_and_collect(natives, cells, tail, &ctx, depth);
            let (args, eo) = match r1 {
                Ok(x) => x,
                Err(x) => {
                    let r: Result<(Rc<Value>, Env), RuntimeError> = Err(x);
                    proof {
                        assert(collected(r1) == Err::<(Seq<Rc<Value>>, Seq<(Rc<String>, Rc<Value>)>), RuntimeError>(x));
                        assert(value_of(r) == Err::<Rc<Value>, RuntimeError>(x));
                        assert((**head is Ident && !(*h0 is Ref)) ==> calls(
                            h0,
                            items(**tail),
                            ctx0,
                            cells0,
                            depth as nat,
                            value_of(r),
                        ));
                        assert(head_step(*head, items(**tail), ctx0, cells0, depth as nat, h0, ctx1, cells1, value_of(r)));
                    }
                    return r;
                },
            };
            let ghost xs = args@;
            let ghost cs = cells@;
            let r2 = bind_and_eval(natives, cells, args, clo, share(&callable), depth);
            let ghost g2 = r2;
            proof {
                lemma_runs_of_call(&**clo, xs, callable, cs, depth as nat, g2);
                assert(threads(items(**tail), ctx@, cells1, depth as nat, Ok((xs, eo@))));
            }
            let r = match r2 {
                Ok((v, _)) => Ok((v, ctx)),
                Err(x) => Err(x),
            };
            proof {
                assert(value_of(r) == value_of(g2));
                assert(!(*h0 is Ref) ==> callable == h0);
                assert(!closure_takes(**clo, xs.len()) ==> value_of(r) is Err);
                lemma_calls_of_args(callable, &**clo, &**tail, ctx@, cells1, depth as nat, xs, eo@, cs, value_of(r));
                assert((!(*h0 is Ref) && closure_takes(**clo, xs.len())) ==> runs(
                    **clo,
                    xs,
                    h0,
                    cs,
                    depth as nat,
                    value_of(r),
                ));
                assert((**head is Ident && !(*h0 is Ref)) ==> calls(
                    h0,
                    items(**tail),
                    ctx0,
                    cells0,
                    depth as nat,
                    value_of(r),
                ));
                assert(head_step(*head, items(**tail), ctx0, cells0, depth as nat, h0, ctx1, cells1, value_of(r)));
            }
            r
        },
        Value::Macro(mac) => {
            let args = list_items(tail);
            let ghost xs = args@;
            let ghost c2 = cells@;
            let r1 = bind_and_eval(natives, cells, args, mac, share(&callable), depth);
            let ghost g1 = r1;
            proof {
                lemma_runs_of_call(&**mac, xs, callable, c2, depth as nat, g1);
            }
            let expansion = match r1 {
                Ok((x, _)) => x,
                Err(x) => {
                    let r: Result<(Rc<Value>, Env), RuntimeError> = Err(x);
                    proof {
                        assert(value_of(r) == value_of(g1));
                        assert(!(*h0 is Ref) ==> callable == h0);
                        assert((**head is Ident && !(*h0 is Ref)) ==> expands(
                            h0,
                            items(**tail),
                            ctx0,
                            cells0,
                            depth as nat,
                            value_of(r),
                        ));
                        assert(head_step(*head, items(**tail), ctx0, cells0, depth as nat, h0, ctx1, cells1, value_of(r)));
                    }
                    return r;
                },
            };
            let ghost cs = cells@;
            let r2 = eval(natives, cells, share(&expansion), &ctx, depth);
            let r = match r2 {
                Ok((v, _)) => Ok((v, ctx)),
                Err(x) => Err(x),
            };
            proof {
                let be = if r2 is Ok { r2->Ok_0.1@ } else { ctx@ };
                assert(with_env(value_of(r), be) == outcome(r2));
                assert(value_of(g1) == Ok::<Rc<Value>, RuntimeError>(expansion));
                assert(!(*h0 is Ref) ==> callable == h0);
                assert(expansion_step(**mac, callable, xs, ctx@, c2, depth as nat, expansion, cs, be, value_of(r)));
                assert((**head is Ident && !(*h0 is Ref)) ==> expands(
                    h0,
                    items(**tail),
                    ctx0,
                    cells0,
                    depth as nat,
                    value_of(r),
                ));
                assert(head_step(*head, items(**tail), ctx0, cells0, depth as nat, h0, ctx1, cells1, value_of(r)));
            }
            r
        },
        _ => {
            let r: Result<(Rc<Value>, Env), RuntimeError> = Err(RuntimeError::NotCallable { value: callable });
            proof {
                assert(head_step(*head, items(**tail), ctx0, cells0, depth as nat, h0, ctx1, cells1, value_of(r)));
            }
            r
        },
    }
}

/// Rebuilds `datum` as a literal, evaluating each `(unquote x)` and
/// splicing the elements of each `(unquote-splice x)` that stands among a
/// list's or an array's elements. An `(unquote-splice x)` anywhere else is
/// a type mismatch.
pub fn quasi<N: Natives>(natives: &mut N,
    cells: &mut Cells, datum: &Rc<Value>, env: &Env, depth: usize) -> (r: Result<
    Rc<Value>,
    RuntimeError,
>)
    ensures
        !(**datum is Cons) && !(**datum is Array) && !(**datum is Dict) ==> r == Ok::<
            Rc<Value>,
            RuntimeError,
        >(*datum),
        head_is(**datum, KW_UNQUOTE_SPLICE@) ==> r matches Err(RuntimeError::TypeMismatch { .. }),
        depth > 0 && head_is(**datum, KW_UNQUOTE@) && operands(**datum).len() == 1 && self_evaluating(
            *operands(**datum)[0],
        ) ==> r == Ok::<Rc<Value>, RuntimeError>(operands(**datum)[0]),
        depth > 0 && head_is(**datum, KW_UNQUOTE@) && operands(**datum).len() == 1 && (
        *operands(**datum)[0] matches Value::Ident(n) && bound(env@, n@)) ==> (r matches Ok(v) && binds(
            env@,
            ident_of(*operands(**datum)[0]),
            v,
        )),
        (depth > 0 && **datum is Cons && !head_is(**datum, KW_UNQUOTE@) && !head_is(
            **datum,
            KW_UNQUOTE_SPLICE@,
        )) ==> (r matches Ok(v) ==> quasi_elems(items(**datum), env@, (depth - 1) as nat, items(*v))),
        (depth > 0 && **datum is Array) ==> (r matches Ok(v) ==> (*v is Array && quasi_elems(
            (**datum)->Array_0@,
            env@,
            (depth - 1) as nat,
            (*v)->Array_0@,
        ))),
        r matches Ok(v) ==> quasi_one(*datum, env@, depth as nat, v),
        (depth > 0 && **datum is Dict) ==> (r matches Ok(v) ==> (*v is Dict && quasi_entries(
            (**datum)->Dict_0@,
            env@,
            (depth - 1) as nat,
            (*v)->Dict_0@,
        ))),
    decreases depth, 1nat,
{
    proof {
        reveal_strlit("unquote");
        reveal_strlit("unquote-splice");
        assert(KW_UNQUOTE@.len() != KW_UNQUOTE_SPLICE@.len());
    }
    if is_headed(&**datum, KW_UNQUOTE) {
        let operand = unquote_operand(KW_UNQUOTE, datum)?;
        if depth == 0 {
            return Err(RuntimeError::RecursionLimit);
        }
        let ghost c0 = cells@;
        let (v, e) = eval(natives, cells, operand, env, depth - 1)?;
        proof {
            assert(eval_basic(*operands(**datum)[0], env@, c0, (depth - 1) as nat, Ok((v, e@))));
        }
        return Ok(v);
    }
    if is_headed(&**datum, KW_UNQUOTE_SPLICE) {
        return Err(RuntimeError::TypeMismatch {
            name: text(KW_UNQUOTE_SPLICE),
            expected: text("list context"),
            got: text(KW_QUASIQUOTE),
        });
    }
    match &**datum {
        Value::Cons { .. } | Value::Array(_) | Value::Dict(_) => {},
        _ => {
            return Ok(share(datum));
        },
    }
    if depth == 0 {
        return Err(RuntimeError::RecursionLimit);
    }
    let d = depth - 1;
    match &**datum {
        Value::Cons { .. } => {
            let elems = list_items(datum);
            let out = quasi_elements(natives, cells, &elems, env, d)?;
            Ok(list_from(out))
        },
        Value::Array(xs) => {
            let out = quasi_elements(natives, cells, xs, env, d)?;
            Ok(Rc::new(Value::Array(out)))
        },
        Value::Dict(m) => {
            let mut out: Vec<(Rc<Value>, Rc<Value>)> = Vec::new();
            let mut k: usize = 0;
            let ghost mut ps: Seq<(Rc<Value>, Rc<Value>)> = Seq::empty();
            while k < m.len()
                invariant
                    k <= m@.len(),
                    depth > 0,
                    d == depth - 1,
                    **datum is Dict,
                    (**datum)->Dict_0@ == m@,
                    ps.len() == k,
                    out@ == inserted_pairs(ps),
                    forall|j: int|
                        0 <= j < k ==> #[trigger] quasi_one(m@[j].0, env@, d as nat, ps[j].0) && quasi_one(
                            m@[j].1,
                            env@,
                            d as nat,
                            ps[j].1,
                        ),
                decreases m@.len() - k,
            {
                let kv = quasi(natives, cells, &m[k].0, env, d)?;
                let vv = quasi(natives, cells, &m[k].1, env, d)?;
                proof {
                    assert(ps.push((kv, vv)).drop_last() =~= ps);
                }
                dict_insert(&mut out, kv, vv);
                proof {
                    ps = ps.push((kv, vv));
                }
                k = k + 1;
            }
            let ghost o = out@;
            let v = Rc::new(Value::Dict(out));
            proof {
                assert((*v)->Dict_0@ == o);
                assert(quasi_entries(m@, env@, d as nat, o));
            }
            Ok(v)
        },
        _ => Ok(share(datum)),
    }
}

/// The elements of a list or array under quasi-quotation: each
/// `(unquote-splice x)` contributes the elements of `x`'s value, every other
/// element its quasi-quoted self.
fn quasi_elements<N: Natives>(
    natives: &mut N,
    cells: &mut Cells,
    elems: &Vec<Rc<Value>>,
    env: &Env,
    depth: usize,
) -> (r: Result<Vec<Rc<Value>>, RuntimeError>)
    ensures
        r matches Ok(out) ==> quasi_elems(elems@, env@, depth as nat, out@),
    decreases depth, 2nat,
{
    let mut out: Vec<Rc<Value>> = Vec::new();
    let mut k: usize = 0;
    let ghost mut pieces: Seq<Seq<Rc<Value>>> = Seq::empty();
    let ghost mut stores: Seq<Seq<Rc<Value>>> = Seq::empty();
    while k < elems.len()
        invariant
            k <= elems@.len(),
            pieces.len() == k,
            stores.len() == k,
            out@ == joined(pieces),
            forall|j: int| 0 <= j < k ==> #[trigger] quasi_piece(elems@[j], env@, stores[j], depth as nat, pieces[j]),
        decreases elems@.len() - k,
    {
        let e = &elems[k];
        let ghost store = cells@;
        let ghost before = out@;
        let ghost piece: Seq<Rc<Value>>;
        if is_headed(&**e, KW_UNQUOTE_SPLICE) {
            let operand = unquote_operand(KW_UNQUOTE_SPLICE, e)?;
            let r0 = eval(natives, cells, operand, env, depth);
            let (spliced, eo) = match r0 {
                Ok(x) => x,
                Err(x) => {
                    return Err(x);
                },
            };
            let parts = list_items(&spliced);
            let mut j: usize = 0;
            while j < parts.len()
                invariant
                    j <= parts@.len(),
                    out@ == before + parts@.take(j as int),
                decreases parts@.len() - j,
            {
                proof {
                    assert(parts@.take(j as int + 1) =~= parts@.take(j as int).push(parts@[j as int]));
                }
                out.push(share(&parts[j]));
                j = j + 1;
            }
            proof {
                assert(parts@.take(j as int) =~= parts@);
                piece = parts@;
                assert(eval_basic(*operands(**e)[0], env@, store, depth as nat, Ok((spliced, eo@))));
            }
        } else {
            let v = quasi(natives, cells, e, env, depth)?;
            out.push(v);
            proof {
                piece = seq![v];
                assert(out@ =~= before + piece);
            }
        }
        proof {
            assert(quasi_piece(elems@[k as int], env@, store, depth as nat, piece));
            assert(pieces.push(piece).drop_last() =~= pieces);
            pieces = pieces.push(piece);
            stores = stores.push(store);
        }
        k = k + 1;
    }
    Ok(out)
}

/// The one operand `x` of `(unquote x)` or `(unquote-splice x)`.
fn unquote_operand(name: &str, form: &Rc<Value>) -> (r: Result<Rc<Value>, RuntimeError>)
    ensures
        r matches Ok(x) ==> operands(**form).len() == 1 && x == operands(**form)[0],
        operands(**form).len() != 1 ==> r is Err,
        operands(**form).len() == 1 ==> r == Ok::<Rc<Value>, RuntimeError>(operands(**form)[0]),
{
    let operands = match &**form {
        Value::Cons { tail, .. } => list_items(tail),
        _ => Vec::new(),
    };
    if operands.len() != 1 {
        return Err(arity_mismatch(name, Arity::Exactly(1), operands.len()));
    }
    Ok(share(&operands[0]))
}

} // verus!
