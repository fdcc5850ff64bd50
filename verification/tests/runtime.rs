//! The evaluator and the builtins the library holds, on concrete forms.

use rizz::consts::{
    KW_FN, KW_LET, KW_DO, KW_DOC, KW_IF, KW_LET_REF, KW_QUASIQUOTE, KW_UNQUOTE,
    KW_UNQUOTE_SPLICE,
};
use rizz::parser::Decimal;
use rizz::prelude::builtins::with_core;
use rizz::prelude::collections::{filter, fmap, get};
use rizz::prelude::numbers::{Numbers, clamp_args, extremum_args};
use rizz::runtime::{
    Arity, Cells, Closure, Env, Natives, RizzError, RuntimeError, Value, apply, bind_and_eval, eval,
    parse_and_run_with_env,
};
use std::rc::Rc;

const DEPTH: usize = 2000;

/// A host with two builtins: `plus` (id 0, two ints) and `is-even` (id 1,
/// one int), and one module, `"m"`, which binds `_secret` to 7 and `public`
/// to 1.
struct Host;

impl Natives for Host {
    fn name(&self, id: usize) -> String {
        if id == 0 { "plus".to_string() } else { "is-even".to_string() }
    }
    fn arity(&self, id: usize) -> Arity {
        if id == 0 { Arity::Exactly(2) } else { Arity::Exactly(1) }
    }
    fn takes_forms(&self, _id: usize) -> bool {
        false
    }
    fn apply(
        &mut self,
        id: usize,
        args: Vec<Rc<Value>>,
        _env: &Env,
    ) -> Result<(Rc<Value>, Option<Env>), RuntimeError> {
        let int_of = |v: &Rc<Value>| match &**v {
            Value::Int(n) => *n,
            _ => panic!("int"),
        };
        if id == 0 {
            Ok((int_v(int_of(&args[0]) + int_of(&args[1])), None))
        } else {
            Ok((int_v((int_of(&args[0]) % 2 == 0) as i64), None))
        }
    }
    fn float_bits(&self, d: &Decimal) -> u64 {
        let digits = |ds: &Vec<u8>| ds.iter().map(|b| *b as char).collect::<String>();
        let text = format!("{}0{}.{}0", if d.negative { "-" } else { "" }, digits(&d.int_digits), digits(&d.frac_digits));
        text.parse::<f64>().unwrap().to_bits()
    }
    fn open(&mut self, path: Rc<Value>, _env: &Env) -> Result<(Rc<Value>, Env), RuntimeError> {
        match &*path {
            Value::Str(p) if p.as_str() == "m" => {
                let module = bind(bind(Env::new(), "_secret", int_v(7)), "public", int_v(1));
                Ok((int_v(1), module))
            }
            _ => Err(RuntimeError::Host { reason: "no such module".to_string() }),
        }
    }
}

fn host() -> Host {
    Host
}

fn int_v(n: i64) -> Rc<Value> {
    Rc::new(Value::Int(n))
}
fn float(f: f64) -> Rc<Value> {
    Rc::new(Value::Float(f.to_bits()))
}
fn string(s: &str) -> Rc<Value> {
    Rc::new(Value::Str(Rc::new(s.to_string())))
}
fn ident(s: &str) -> Rc<Value> {
    Rc::new(Value::Ident(Rc::new(s.to_string())))
}
fn unit() -> Rc<Value> {
    Rc::new(Value::Unit)
}
fn list(elems: Vec<Rc<Value>>) -> Rc<Value> {
    elems.into_iter().rev().fold(unit(), |tail, head| Rc::new(Value::Cons { head, tail }))
}
fn array(elems: Vec<Rc<Value>>) -> Rc<Value> {
    Rc::new(Value::Array(elems))
}
fn add_builtin() -> Rc<Value> {
    Rc::new(Value::Native(0))
}
fn bind(env: Env, name: &str, v: Rc<Value>) -> Env {
    env.update(Rc::new(name.to_string()), v)
}
fn eval_ok(form: Rc<Value>, env: &Env) -> (Rc<Value>, Env) {
    eval(&mut host(), &mut Cells::new(), form, env, DEPTH).expect("expected successful eval")
}
fn eval_err(form: Rc<Value>, env: &Env) -> RuntimeError {
    eval(&mut host(), &mut Cells::new(), form, env, DEPTH).expect_err("expected eval error")
}
fn lookup(env: &Env, name: &str) -> Rc<Value> {
    env.get(name).expect("binding should exist")
}
fn closure(params: Vec<&str>, body: Rc<Value>, env: Env) -> Rc<Closure> {
    Rc::new(Closure {
        name: Rc::new(String::new()),
        params: params.into_iter().map(|p| Rc::new(p.to_string())).collect(),
        rest: None,
        body,
        env,
        doc: None,
    })
}
fn named(name: &str, params: Vec<&str>, body: Rc<Value>) -> Rc<Value> {
    let c = closure(params, body, Env::new());
    Rc::new(Value::Closure(Rc::new(Closure {
        name: Rc::new(name.to_string()),
        params: c.params.clone(),
        rest: None,
        body: c.body.clone(),
        env: Env::new(),
        doc: None,
    })))
}
fn eval_closure(args: &[Rc<Value>], clo: &Rc<Closure>) -> Result<(Rc<Value>, Env), RuntimeError> {
    let me = Rc::new(Value::Closure(clo.clone()));
    bind_and_eval(&mut host(), &mut Cells::new(), args.to_vec(), clo, me, DEPTH)
}
fn is_arity(err: &RuntimeError, expected: Arity, got: usize) -> bool {
    matches!(err, RuntimeError::ArityMismatch { expected: e, got: g, .. } if *e == expected && *g == got)
}
fn is_type(err: &RuntimeError, expected: &str, got: &str) -> bool {
    matches!(err, RuntimeError::TypeMismatch { expected: e, got: g, .. } if e == expected && g == got)
}
fn is_unknown(err: &RuntimeError, name: &str) -> bool {
    matches!(err, RuntimeError::UnknownIdent(s) if s.as_str() == name)
}

// ----- self-evaluating literals -----

#[test]
fn int_self_evaluates() {
    let (v, _) = eval_ok(int_v(42), &Env::new());
    assert_eq!(*v, Value::Int(42));
}

#[test]
fn float_self_evaluates() {
    let (v, _) = eval_ok(float(3.5), &Env::new());
    assert_eq!(*v, Value::Float(3.5f64.to_bits()));
}

#[test]
fn str_self_evaluates() {
    let (v, _) = eval_ok(string("hi"), &Env::new());
    assert_eq!(v, string("hi"));
}

#[test]
fn unit_self_evaluates() {
    let (v, _) = eval_ok(unit(), &Env::new());
    assert_eq!(*v, Value::Unit);
}

#[test]
fn builtin_self_evaluates() {
    let (v, _) = eval_ok(add_builtin(), &Env::new());
    assert!(matches!(&*v, Value::Native(_)));
}

#[test]
fn self_eval_returns_env_unchanged() {
    let env = bind(Env::new(), "x", int_v(1));
    let (_, out) = eval_ok(int_v(9), &env);
    assert_eq!(out, env);
}

// ----- identifier lookup -----

#[test]
fn bound_ident_resolves_to_its_value() {
    let env = bind(Env::new(), "x", int_v(42));
    let (v, _) = eval_ok(ident("x"), &env);
    assert_eq!(*v, Value::Int(42));
}

#[test]
fn unbound_ident_errors() {
    let err = eval_err(ident("nope"), &Env::new());
    assert!(is_unknown(&err, "nope"));
}

#[test]
fn ident_lookup_returns_env_unchanged() {
    let env = bind(Env::new(), "x", int_v(7));
    let (_, out) = eval_ok(ident("x"), &env);
    assert_eq!(out, env);
}

// ----- let special form -----

#[test]
fn let_returns_the_bound_value() {
    let form = list(vec![ident("let"), ident("x"), int_v(5)]);
    let (v, _) = eval_ok(form, &Env::new());
    assert_eq!(*v, Value::Int(5));
}

#[test]
fn let_binds_name_in_returned_env() {
    let form = list(vec![ident("let"), ident("x"), int_v(5)]);
    let (_, env) = eval_ok(form, &Env::new());
    assert_eq!(*lookup(&env, "x"), Value::Int(5));
}

#[test]
fn let_evaluates_its_value_expression() {
    let env = bind(Env::new(), "x", int_v(5));
    let form = list(vec![ident("let"), ident("y"), ident("x")]);
    let (v, env) = eval_ok(form, &env);
    assert_eq!(*v, Value::Int(5));
    assert_eq!(*lookup(&env, "y"), Value::Int(5));
}

#[test]
fn let_too_few_args_errors() {
    let form = list(vec![ident("let"), ident("x")]);
    let err = eval_err(form, &Env::new());
    assert!(is_arity(&err, Arity::Exactly(2), 1));
}

#[test]
fn let_too_many_args_errors() {
    let form = list(vec![ident("let"), ident("x"), int_v(1), int_v(2)]);
    let err = eval_err(form, &Env::new());
    assert!(is_arity(&err, Arity::Exactly(2), 3));
}

#[test]
fn let_non_ident_name_errors() {
    let form = list(vec![ident("let"), int_v(5), int_v(10)]);
    let err = eval_err(form, &Env::new());
    assert!(is_type(&err, "ident", "int"));
}

#[test]
fn let_propagates_value_eval_error() {
    let form = list(vec![ident("let"), ident("x"), ident("undefined")]);
    let err = eval_err(form, &Env::new());
    assert!(is_unknown(&err, "undefined"));
}

// ----- cons head dispatch -----

#[test]
fn unbound_ident_in_head_position_errors() {
    let form = list(vec![ident("frobnicate"), int_v(1)]);
    let err = eval_err(form, &Env::new());
    assert!(is_unknown(&err, "frobnicate"));
}

// ----- function application -----

#[test]
fn builtin_applied_by_name() {
    let env = bind(Env::new(), "plus", add_builtin());
    let form = list(vec![ident("plus"), int_v(1), int_v(2)]);
    let (v, _) = eval_ok(form, &env);
    assert_eq!(*v, Value::Int(3));
}

#[test]
fn closure_applied_by_name() {
    let env = bind(Env::new(), "id", named("id", vec!["x"], ident("x")));
    let form = list(vec![ident("id"), int_v(5)]);
    let (v, _) = eval_ok(form, &env);
    assert_eq!(*v, Value::Int(5));
}

#[test]
fn builtin_applied_when_head_expression_yields_it() {
    let env = bind(Env::new(), "plus", add_builtin());
    let head = list(vec![ident(KW_LET), ident("f"), ident("plus")]);
    let form = list(vec![head, int_v(1), int_v(2)]);
    let (v, _) = eval_ok(form, &env);
    assert_eq!(*v, Value::Int(3));
}

#[test]
fn application_evaluates_its_arguments() {
    let env = bind(bind(Env::new(), "plus", add_builtin()), "x", int_v(40));
    let form = list(vec![ident("plus"), ident("x"), int_v(2)]);
    let (v, _) = eval_ok(form, &env);
    assert_eq!(*v, Value::Int(42));
}

#[test]
fn builtin_arity_error_propagates_through_application() {
    let env = bind(Env::new(), "plus", add_builtin());
    let form = list(vec![ident("plus"), int_v(1)]);
    let err = eval_err(form, &env);
    assert!(is_arity(&err, Arity::Exactly(2), 1));
}

// ----- closures -----

#[test]
fn closure_value_self_evaluates() {
    let clo = Rc::new(Value::Closure(closure(vec![], int_v(7), Env::new())));
    let (v, _) = eval_ok(clo.clone(), &Env::new());
    assert!(matches!(&*v, Value::Closure(_)));
    assert_eq!(v, clo);
}

#[test]
fn closure_with_params_self_evaluates() {
    let clo = Rc::new(Value::Closure(closure(vec!["x"], ident("x"), Env::new())));
    let (v, _) = eval_ok(clo.clone(), &Env::new());
    assert_eq!(v, clo);
}

#[test]
fn let_aliasing_a_function_does_not_invoke_it() {
    let id = named("id", vec!["x"], ident("x"));
    let env = bind(Env::new(), "id", id.clone());
    let form = list(vec![ident("let"), ident("f"), ident("id")]);
    let (v, env) = eval_ok(form, &env);
    assert!(matches!(&*v, Value::Closure(_)));
    assert_eq!(v, id);
    assert_eq!(lookup(&env, "f"), id);
}

#[test]
fn eval_closure_binds_params_then_evaluates_body() {
    let clo = closure(vec!["x"], ident("x"), Env::new());
    let (v, _) = eval_closure(&[int_v(5)], &clo).expect("expected ok");
    assert_eq!(*v, Value::Int(5));
}

#[test]
fn eval_closure_arity_mismatch_errors() {
    let clo = closure(vec!["x"], ident("x"), Env::new());
    let err = eval_closure(&[int_v(1), int_v(2)], &clo).expect_err("expected err");
    assert!(is_arity(&err, Arity::Exactly(1), 2));
}

#[test]
fn eval_closure_resolves_body_against_captured_env() {
    let captured = bind(Env::new(), "z", int_v(10));
    let clo = closure(vec![], ident("z"), captured);
    let (v, _) = eval_closure(&[], &clo).expect("expected ok");
    assert_eq!(*v, Value::Int(10));
}

#[test]
fn eval_closure_param_shadows_captured_binding() {
    let captured = bind(Env::new(), "x", int_v(1));
    let clo = closure(vec!["x"], ident("x"), captured);
    let (v, _) = eval_closure(&[int_v(99)], &clo).expect("expected ok");
    assert_eq!(*v, Value::Int(99));
}

// ----- fn special form -----

#[test]
fn defun_returns_a_closure() {
    let form = list(vec![ident(KW_FN), ident("id"), list(vec![ident("x")]), ident("x")]);
    let (v, _) = eval_ok(form, &Env::new());
    assert!(matches!(&*v, Value::Closure(c) if c.params.len() == 1 && c.params[0].as_str() == "x"));
}

#[test]
fn defun_binds_name_and_is_callable() {
    let def = list(vec![ident(KW_FN), ident("id"), list(vec![ident("x")]), ident("x")]);
    let (_, env) = eval_ok(def, &Env::new());
    assert!(matches!(&*lookup(&env, "id"), Value::Closure(_)));
    let call = list(vec![ident("id"), int_v(5)]);
    let (v, _) = eval_ok(call, &env);
    assert_eq!(*v, Value::Int(5));
}

#[test]
fn defun_zero_params() {
    let def = list(vec![ident(KW_FN), ident("answer"), unit(), int_v(42)]);
    let (_, env) = eval_ok(def, &Env::new());
    let (v, _) = eval_ok(list(vec![ident("answer")]), &env);
    assert_eq!(*v, Value::Int(42));
}

#[test]
fn defun_captures_definition_env() {
    let env = bind(Env::new(), "z", int_v(10));
    let def = list(vec![ident(KW_FN), ident("get"), unit(), ident("z")]);
    let (_, env) = eval_ok(def, &env);
    let (v, _) = eval_ok(list(vec![ident("get")]), &env);
    assert_eq!(*v, Value::Int(10));
}

#[test]
fn defun_body_can_reference_itself() {
    let def = list(vec![ident(KW_FN), ident("loopy"), list(vec![ident("x")]), ident("loopy")]);
    let (_, env) = eval_ok(def, &Env::new());
    let (v, _) = eval_ok(list(vec![ident("loopy"), int_v(0)]), &env);
    assert!(matches!(&*v, Value::Closure(c) if c.name.as_str() == "loopy"));
}

#[test]
fn defun_non_ident_name_errors() {
    let form = list(vec![ident(KW_FN), int_v(5), list(vec![ident("x")]), ident("x")]);
    let err = eval_err(form, &Env::new());
    assert!(is_type(&err, "ident", "int"));
}

#[test]
fn defun_non_ident_param_errors() {
    let form = list(vec![ident(KW_FN), ident("f"), list(vec![int_v(1)]), ident("x")]);
    let err = eval_err(form, &Env::new());
    assert!(is_type(&err, "ident", "int"));
}

#[test]
fn defun_arity_error() {
    let form = list(vec![ident(KW_FN)]);
    let err = eval_err(form, &Env::new());
    assert!(is_arity(&err, Arity::Exactly(3), 0));
}

#[test]
fn defun_anonymous_returns_closure_without_binding() {
    let form = list(vec![ident(KW_FN), list(vec![ident("x")]), ident("x")]);
    let (v, env) = eval_ok(form, &Env::new());
    assert!(matches!(
        &*v,
        Value::Closure(c) if c.params.len() == 1 && c.params[0].as_str() == "x" && c.name.is_empty()
    ));
    assert!(env.get("").is_none());
}

#[test]
fn defun_anonymous_callable_inline() {
    let lambda = list(vec![ident(KW_FN), list(vec![ident("x")]), ident("x")]);
    let form = list(vec![lambda, int_v(7)]);
    let (v, _) = eval_ok(form, &Env::new());
    assert_eq!(*v, Value::Int(7));
}

#[test]
fn defun_anonymous_with_doc() {
    let form = list(vec![
        ident(KW_FN),
        list(vec![ident("x")]),
        list(vec![ident(KW_DOC), string("id")]),
        ident("x"),
    ]);
    let (v, _) = eval_ok(form, &Env::new());
    match &*v {
        Value::Closure(c) => {
            assert!(c.name.is_empty());
            assert_eq!(c.doc.as_deref().map(|s| s.as_str()), Some("id"));
        }
        other => panic!("expected closure, got {other:?}"),
    }
}

#[test]
fn defun_anonymous_with_variadic_rest() {
    let lambda = list(vec![ident(KW_FN), ident("xs"), ident("xs")]);
    let form = list(vec![lambda, int_v(1), int_v(2), int_v(3)]);
    let (v, _) = eval_ok(form, &Env::new());
    assert_eq!(v, list(vec![int_v(1), int_v(2), int_v(3)]));
}

// ----- if special form -----

#[test]
fn if_truthy_cond_evaluates_then_branch() {
    let form = list(vec![ident(KW_IF), int_v(1), int_v(10), int_v(20)]);
    let (v, _) = eval_ok(form, &Env::new());
    assert_eq!(*v, Value::Int(10));
}

#[test]
fn if_falsey_cond_evaluates_else_branch() {
    let form = list(vec![ident(KW_IF), int_v(0), int_v(10), int_v(20)]);
    let (v, _) = eval_ok(form, &Env::new());
    assert_eq!(*v, Value::Int(20));
}

#[test]
fn if_evaluates_its_condition() {
    let env = bind(Env::new(), "x", int_v(5));
    let form = list(vec![ident(KW_IF), ident("x"), int_v(10), int_v(20)]);
    let (v, _) = eval_ok(form, &env);
    assert_eq!(*v, Value::Int(10));
}

#[test]
fn if_does_not_evaluate_untaken_branch() {
    let form = list(vec![ident(KW_IF), int_v(1), int_v(10), ident("undefined")]);
    let (v, _) = eval_ok(form, &Env::new());
    assert_eq!(*v, Value::Int(10));
}

#[test]
fn if_propagates_condition_eval_error() {
    let form = list(vec![ident(KW_IF), ident("undefined"), int_v(10), int_v(20)]);
    let err = eval_err(form, &Env::new());
    assert!(is_unknown(&err, "undefined"));
}

#[test]
fn if_arity_error() {
    let form = list(vec![ident(KW_IF), int_v(1), int_v(10)]);
    let err = eval_err(form, &Env::new());
    assert!(is_arity(&err, Arity::Exactly(3), 2));
}

// ----- do special form -----

#[test]
fn empty_do_is_unit() {
    let form = list(vec![ident(KW_DO)]);
    let (v, _) = eval_ok(form, &Env::new());
    assert_eq!(*v, Value::Unit);
}

#[test]
fn do_returns_last_form_value() {
    let form = list(vec![ident(KW_DO), int_v(1), int_v(2), int_v(3)]);
    let (v, _) = eval_ok(form, &Env::new());
    assert_eq!(*v, Value::Int(3));
}

#[test]
fn do_threads_env_across_forms() {
    let form = list(vec![
        ident(KW_DO),
        list(vec![ident(KW_LET), ident("x"), int_v(5)]),
        ident("x"),
    ]);
    let (v, _) = eval_ok(form, &Env::new());
    assert_eq!(*v, Value::Int(5));
}

#[test]
fn do_leaks_scope() {
    let form = list(vec![ident(KW_DO), list(vec![ident(KW_LET), ident("x"), int_v(5)])]);
    let (_, env) = eval_ok(form, &Env::new());
    assert!(env.get("x").is_some_and(|x| x == int_v(5)));
}

#[test]
fn let_in_arg_position_does_not_leak_to_caller() {
    let env = bind(Env::new(), "plus", add_builtin());
    let form = list(vec![
        ident("plus"),
        list(vec![ident(KW_LET), ident("x"), int_v(5)]),
        int_v(1),
    ]);
    let (v, env) = eval_ok(form, &env);
    assert_eq!(*v, Value::Int(6));
    assert!(env.get("x").is_none());
}

#[test]
fn if_branch_bindings_do_not_leak() {
    let form = list(vec![
        ident(KW_IF),
        int_v(1),
        list(vec![ident(KW_LET), ident("x"), int_v(5)]),
        int_v(0),
    ]);
    let (v, env) = eval_ok(form, &Env::new());
    assert_eq!(*v, Value::Int(5));
    assert!(env.get("x").is_none());
}

#[test]
fn array_element_bindings_do_not_leak() {
    let form = array(vec![list(vec![ident(KW_LET), ident("x"), int_v(5)]), int_v(1)]);
    let (v, env) = eval_ok(form, &Env::new());
    match &*v {
        Value::Array(xs) => {
            assert_eq!(xs.len(), 2);
            assert_eq!(*xs[0], Value::Int(5));
            assert_eq!(*xs[1], Value::Int(1));
        }
        other => panic!("expected array, got {other:?}"),
    }
    assert!(env.get("x").is_none());
}

#[test]
fn do_propagates_error_from_a_form() {
    let form = list(vec![ident(KW_DO), int_v(1), ident("undefined"), int_v(3)]);
    let err = eval_err(form, &Env::new());
    assert!(is_unknown(&err, "undefined"));
}

// ----- quasiquote -----

fn quasiquote(datum: Rc<Value>) -> Rc<Value> {
    list(vec![ident(KW_QUASIQUOTE), datum])
}
fn unquote(datum: Rc<Value>) -> Rc<Value> {
    list(vec![ident(KW_UNQUOTE), datum])
}
fn unquote_splicing(datum: Rc<Value>) -> Rc<Value> {
    list(vec![ident(KW_UNQUOTE_SPLICE), datum])
}

#[test]
fn quasiquote_without_unquote_is_literal() {
    let form = quasiquote(list(vec![int_v(1), int_v(2), int_v(3)]));
    let (v, _) = eval_ok(form, &Env::new());
    assert_eq!(v, list(vec![int_v(1), int_v(2), int_v(3)]));
}

#[test]
fn quasiquote_atom_returns_it() {
    let (v, _) = eval_ok(quasiquote(int_v(5)), &Env::new());
    assert_eq!(*v, Value::Int(5));
}

#[test]
fn quasiquote_unquote_evaluates_subform() {
    let env = bind(Env::new(), "x", int_v(2));
    let form = quasiquote(list(vec![int_v(1), unquote(ident("x")), int_v(3)]));
    let (v, _) = eval_ok(form, &env);
    assert_eq!(v, list(vec![int_v(1), int_v(2), int_v(3)]));
}

#[test]
fn quasiquote_unquote_can_evaluate_a_call() {
    let env = bind(Env::new(), "plus", add_builtin());
    let call = list(vec![ident("plus"), int_v(1), int_v(1)]);
    let form = quasiquote(list(vec![int_v(1), unquote(call)]));
    let (v, _) = eval_ok(form, &env);
    assert_eq!(v, list(vec![int_v(1), int_v(2)]));
}

#[test]
fn quasiquote_unquote_splicing_splices_elements() {
    let env = bind(Env::new(), "xs", list(vec![int_v(2), int_v(3)]));
    let form = quasiquote(list(vec![int_v(1), unquote_splicing(ident("xs")), int_v(4)]));
    let (v, _) = eval_ok(form, &env);
    assert_eq!(v, list(vec![int_v(1), int_v(2), int_v(3), int_v(4)]));
}

#[test]
fn quasiquote_unquote_splicing_empty_list_contributes_nothing() {
    let env = bind(Env::new(), "xs", unit());
    let form = quasiquote(list(vec![int_v(1), unquote_splicing(ident("xs")), int_v(2)]));
    let (v, _) = eval_ok(form, &env);
    assert_eq!(v, list(vec![int_v(1), int_v(2)]));
}

#[test]
fn quasiquote_recurses_into_nested_lists() {
    let env = bind(Env::new(), "x", int_v(2));
    let inner = list(vec![int_v(1), unquote(ident("x"))]);
    let form = quasiquote(list(vec![inner, int_v(3)]));
    let (v, _) = eval_ok(form, &env);
    assert_eq!(v, list(vec![list(vec![int_v(1), int_v(2)]), int_v(3)]));
}

#[test]
fn quasiquote_splicing_outside_list_errors() {
    let env = bind(Env::new(), "xs", list(vec![int_v(1)]));
    let form = quasiquote(unquote_splicing(ident("xs")));
    let err = eval_err(form, &env);
    assert!(matches!(err, RuntimeError::TypeMismatch { name, .. } if name == KW_UNQUOTE_SPLICE));
}

#[test]
fn quasiquote_arity_error() {
    let form = list(vec![ident(KW_QUASIQUOTE), ident("a"), ident("b")]);
    let err = eval_err(form, &Env::new());
    assert!(is_arity(&err, Arity::Exactly(1), 2));
}

// ----- collections -----

#[test]
fn array_evaluates_its_elements() {
    let env = bind(Env::new(), "plus", add_builtin());
    let call = list(vec![ident("plus"), int_v(2), int_v(3)]);
    let (v, _) = eval_ok(array(vec![int_v(1), call]), &env);
    match &*v {
        Value::Array(xs) => {
            assert_eq!(xs.len(), 2);
            assert_eq!(*xs[0], Value::Int(1));
            assert_eq!(*xs[1], Value::Int(5));
        }
        other => panic!("expected array, got {other:?}"),
    }
}

#[test]
fn map_evaluates_its_values() {
    let env = bind(Env::new(), "plus", add_builtin());
    let call = list(vec![ident("plus"), int_v(2), int_v(3)]);
    let (v, _) = eval_ok(Rc::new(Value::Dict(vec![(int_v(1), call)])), &env);
    match &*v {
        Value::Dict(m) => {
            assert_eq!(m.len(), 1);
            assert_eq!(*m[0].0, Value::Int(1));
            assert_eq!(*m[0].1, Value::Int(5));
        }
        other => panic!("expected map, got {other:?}"),
    }
}

#[test]
fn eval_array_in_head_position_is_not_callable() {
    let form = Rc::new(Value::Cons { head: array(vec![int_v(1)]), tail: unit() });
    let err = eval_err(form, &Env::new());
    assert!(matches!(err, RuntimeError::NotCallable { .. }));
}

#[test]
fn apply_runs_native_fn_on_evaluated_args() {
    let v = apply(&mut host(), &mut Cells::new(), &add_builtin(), vec![int_v(2), int_v(3)], &Env::new(), DEPTH).unwrap();
    assert_eq!(*v, Value::Int(5));
}

#[test]
fn apply_runs_closure() {
    let clo = named("id", vec!["x"], ident("x"));
    let v = apply(&mut host(), &mut Cells::new(), &clo, vec![int_v(7)], &Env::new(), DEPTH).unwrap();
    assert_eq!(*v, Value::Int(7));
}

#[test]
fn apply_non_callable_errors() {
    let r = apply(&mut host(), &mut Cells::new(), &int_v(1), vec![], &Env::new(), DEPTH);
    assert!(matches!(r, Err(RuntimeError::NotCallable { .. })));
}

// ----- beyond the original's unit tests -----

#[test]
fn recursion_past_the_depth_stops_with_an_error() {
    let form = list(vec![ident(KW_DO), list(vec![ident(KW_DO), int_v(1)])]);
    let err = eval(&mut host(), &mut Cells::new(), form.clone(), &Env::new(), 1).unwrap_err();
    assert!(matches!(err, RuntimeError::RecursionLimit));
    assert!(eval(&mut host(), &mut Cells::new(), form, &Env::new(), 2).is_ok());
}

#[test]
fn let_ref_binds_a_cell_holding_the_value() {
    let mut cells = Cells::new();
    let form = list(vec![ident(KW_LET_REF), ident("r"), int_v(5)]);
    let (v, env) = eval(&mut host(), &mut cells, form, &Env::new(), DEPTH).unwrap();
    assert_eq!(*v, Value::Int(5));
    match &*env.get("r").unwrap() {
        Value::Ref(id) => assert_eq!(*cells.get(*id).unwrap(), Value::Int(5)),
        other => panic!("expected ref, got {other:?}"),
    }
}

#[test]
fn quote_returns_its_operand_unevaluated() {
    let form = list(vec![ident("quote"), ident("undefined")]);
    let (v, _) = eval_ok(form, &Env::new());
    assert_eq!(v, ident("undefined"));
}

#[test]
fn closure_rest_needs_at_least_its_params() {
    let lambda = list(vec![
        ident(KW_FN),
        Rc::new(Value::Cons { head: ident("a"), tail: ident("more") }),
        ident("more"),
    ]);
    let err = eval_err(list(vec![lambda.clone()]), &Env::new());
    assert!(is_arity(&err, Arity::AtLeast(1), 0));
    let (v, _) = eval_ok(list(vec![lambda, int_v(1), int_v(2)]), &Env::new());
    assert_eq!(v, list(vec![int_v(2)]));
}

#[test]
fn get_looks_up_by_index_or_key() {
    let xs = array(vec![int_v(10), int_v(20)]);
    assert_eq!(*get(&xs, &int_v(1)).unwrap(), Value::Int(20));
    assert_eq!(*get(&xs, &int_v(2)).unwrap(), Value::Unit);
    assert_eq!(*get(&xs, &int_v(-1)).unwrap(), Value::Unit);
    assert!(matches!(get(&xs, &string("a")), Err(RuntimeError::TypeMismatch { .. })));
    assert_eq!(get(&string("héllo"), &int_v(1)).unwrap(), string("é"));
    assert_eq!(*get(&list(vec![int_v(1), int_v(2)]), &int_v(1)).unwrap(), Value::Int(2));
    let m = Value::Dict(vec![(string("k"), int_v(3))]);
    assert_eq!(*get(&m, &string("k")).unwrap(), Value::Int(3));
    assert_eq!(*get(&m, &string("z")).unwrap(), Value::Unit);
    assert!(matches!(get(&Value::Int(1), &int_v(0)), Err(RuntimeError::TypeMismatch { .. })));
}

#[test]
fn fmap_keeps_the_shape() {
    let mut h = host();
    let env = Env::new();
    let inc = Rc::new(Value::Closure(closure(
        vec!["x"],
        list(vec![add_builtin(), ident("x"), int_v(1)]),
        Env::new(),
    )));
    let out = fmap(&mut h, &mut Cells::new(), &inc, &array(vec![int_v(1), int_v(2)]), &env, DEPTH, false).unwrap();
    assert_eq!(out, array(vec![int_v(2), int_v(3)]));
    let out = fmap(&mut h, &mut Cells::new(), &inc, &list(vec![int_v(5)]), &env, DEPTH, false).unwrap();
    assert_eq!(out, list(vec![int_v(6)]));
    let idx = Rc::new(Value::Closure(closure(
        vec!["i", "x"],
        list(vec![add_builtin(), ident("i"), ident("x")]),
        Env::new(),
    )));
    let out = fmap(&mut h, &mut Cells::new(), &idx, &array(vec![int_v(10), int_v(10), int_v(10)]), &env, DEPTH, true).unwrap();
    assert_eq!(out, array(vec![int_v(10), int_v(11), int_v(12)]));
    assert!(matches!(
        fmap(&mut h, &mut Cells::new(), &inc, &int_v(3), &env, DEPTH, false),
        Err(RuntimeError::TypeMismatch { .. })
    ));
}

#[test]
fn filter_keeps_the_items_the_predicate_accepts() {
    let mut h = host();
    let even = Rc::new(Value::Native(1));
    let out = filter(&mut h, &mut Cells::new(), &even, &array(vec![int_v(1), int_v(2), int_v(3), int_v(4)]), &Env::new(), DEPTH).unwrap();
    assert_eq!(out, array(vec![int_v(2), int_v(4)]));
    let out = filter(&mut h, &mut Cells::new(), &even, &list(vec![int_v(1), int_v(3)]), &Env::new(), DEPTH).unwrap();
    assert_eq!(out, unit());
}

#[test]
fn extremum_and_clamp_check_their_arguments() {
    let args = vec![int_v(3), int_v(-1), int_v(7)];
    assert!(matches!(extremum_args(&Cells::new(), "max", &args, true), Ok(Numbers::Int(7))));
    assert!(matches!(extremum_args(&Cells::new(), "min", &args, false), Ok(Numbers::Int(-1))));
    assert!(matches!(
        extremum_args(&Cells::new(), "min", &vec![], false),
        Err(RuntimeError::ArityMismatch { expected: Arity::AtLeast(1), got: 0, .. })
    ));
    assert!(matches!(
        extremum_args(&Cells::new(), "min", &vec![array(vec![int_v(1)]), int_v(2)], false),
        Err(RuntimeError::ArityMismatch { expected: Arity::Exactly(1), got: 2, .. })
    ));
    assert!(matches!(
        extremum_args(&Cells::new(), "min", &vec![array(vec![])], false),
        Err(RuntimeError::TypeMismatch { .. })
    ));
    match extremum_args(&Cells::new(), "min", &vec![int_v(1), float(2.0)], false) {
        Err(RuntimeError::TypeMismatch { got, .. }) => assert_eq!(got, "int*float"),
        other => panic!("expected type mismatch, got {other:?}"),
    }
    assert!(matches!(extremum_args(&Cells::new(), "max", &vec![float(1.5)], true), Ok(Numbers::Floats(_))));
    assert!(matches!(clamp_args(&Cells::new(), &vec![int_v(50), int_v(0), int_v(10)]), Ok(Numbers::Int(10))));
    assert!(matches!(
        clamp_args(&Cells::new(), &vec![int_v(5), int_v(10), int_v(0)]),
        Err(RuntimeError::ArithmeticError { .. })
    ));
    assert!(matches!(
        clamp_args(&Cells::new(), &vec![int_v(5), float(1.0), int_v(0)]),
        Err(RuntimeError::TypeMismatch { .. })
    ));
}

#[test]
fn parse_and_run_evaluates_a_program() {
    let env = bind(Env::new(), "plus", add_builtin());
    let (v, env) = parse_and_run_with_env(&mut host(), &mut Cells::new(), b"(let a 3) (let b 4) (plus a b)", &env, DEPTH).unwrap();
    assert_eq!(*v, Value::Int(7));
    assert_eq!(*env.get("a").unwrap(), Value::Int(3));
    assert!(matches!(
        parse_and_run_with_env(&mut host(), &mut Cells::new(), b"(plus 1", &env, DEPTH),
        Err(RizzError::ParseError(_))
    ));
    assert!(matches!(
        parse_and_run_with_env(&mut host(), &mut Cells::new(), b"(nope)", &env, DEPTH),
        Err(RizzError::RuntimeError(RuntimeError::UnknownIdent(_)))
    ));
    let (v, _) = parse_and_run_with_env(&mut host(), &mut Cells::new(), b"1.5", &env, DEPTH).unwrap();
    assert_eq!(*v, Value::Float(1.5f64.to_bits()));
}

#[test]
fn union_keeps_the_first_env_on_collisions() {
    let a = bind(bind(Env::new(), "x", int_v(1)), "y", int_v(2));
    let b = bind(bind(Env::new(), "y", int_v(20)), "z", int_v(30));
    let u = a.union(&b);
    assert_eq!(*u.get("x").unwrap(), Value::Int(1));
    assert_eq!(*u.get("y").unwrap(), Value::Int(2));
    assert_eq!(*u.get("z").unwrap(), Value::Int(30));
    assert!(u.get("w").is_none());
}

#[test]
fn merged_takes_module_bindings_under_a_prefix() {
    let base = bind(Env::new(), "x", int_v(1));
    let module = bind(bind(Env::new(), "_hidden", int_v(2)), "x", int_v(3));
    let plain = base.merged(&module, None);
    assert_eq!(*plain.get("x").unwrap(), Value::Int(3));
    assert_eq!(*plain.get("_hidden").unwrap(), Value::Int(2));
    let pre = base.merged(&module, Some("m"));
    assert_eq!(*pre.get("x").unwrap(), Value::Int(1));
    assert_eq!(*pre.get("m.x").unwrap(), Value::Int(3));
    assert_eq!(*pre.get("m._hidden").unwrap(), Value::Int(2));
}

#[test]
fn a_ref_counts_as_what_its_cell_holds() {
    let mut cells = Cells::new();
    let form = list(vec![
        ident(KW_DO),
        list(vec![ident(KW_LET_REF), ident("r"), int_v(0)]),
        list(vec![ident(KW_IF), ident("r"), string("yes"), string("no")]),
    ]);
    let (v, _) = eval(&mut host(), &mut cells, form, &Env::new(), DEPTH).unwrap();
    assert_eq!(v, string("no"));
    let form = list(vec![
        ident(KW_DO),
        list(vec![ident(KW_LET_REF), ident("r"), int_v(4)]),
        list(vec![ident(KW_IF), ident("r"), string("yes"), string("no")]),
    ]);
    let (v, _) = eval(&mut host(), &mut Cells::new(), form, &Env::new(), DEPTH).unwrap();
    assert_eq!(v, string("yes"));
}

#[test]
fn open_takes_a_path_and_an_optional_prefix() {
    let err = eval_err(list(vec![ident("open")]), &Env::new());
    assert!(is_arity(&err, Arity::Range(1, 2), 0));
    let err = eval_err(list(vec![ident("open"), string("m"), ident("b"), ident("c")]), &Env::new());
    assert!(is_arity(&err, Arity::Range(1, 2), 3));
    let (_, env) = eval_ok(list(vec![ident("open"), string("m")]), &Env::new());
    assert_eq!(*env.get("_secret").unwrap(), Value::Int(7));
    assert_eq!(*env.get("public").unwrap(), Value::Int(1));
    let (_, env) = eval_ok(list(vec![ident("open"), string("m"), ident("m")]), &Env::new());
    assert_eq!(*env.get("m.public").unwrap(), Value::Int(1));
    assert_eq!(*env.get("m._secret").unwrap(), Value::Int(7));
    assert!(env.get("public").is_none());
    let err = eval_err(list(vec![ident("open"), string("m"), int_v(3)]), &Env::new());
    assert!(matches!(err, RuntimeError::TypeMismatch { .. }));
}

#[test]
fn map_keys_compare_floats_by_value() {
    let m = Value::Dict(vec![(float(0.0), int_v(1)), (float(f64::NAN), int_v(2))]);
    assert_eq!(*get(&m, &float(-0.0)).unwrap(), Value::Int(1));
    assert_eq!(*get(&m, &float(f64::NAN)).unwrap(), Value::Int(2));
    assert_eq!(*get(&m, &float(1.0)).unwrap(), Value::Unit);
}

#[test]
fn extremum_takes_a_single_array_or_list() {
    let xs = vec![int_v(1), int_v(2), int_v(4), int_v(51), int_v(10)];
    assert!(matches!(extremum_args(&Cells::new(), "max", &vec![array(xs.clone())], true), Ok(Numbers::Int(51))));
    assert!(matches!(extremum_args(&Cells::new(), "max", &vec![list(xs.clone())], true), Ok(Numbers::Int(51))));
    assert!(matches!(extremum_args(&Cells::new(), "min", &xs, false), Ok(Numbers::Int(1))));
    assert!(matches!(
        extremum_args(&Cells::new(), "max", &vec![int_v(4), int_v(51), float(0.2), int_v(10)], true),
        Err(RuntimeError::TypeMismatch { .. })
    ));
    assert!(matches!(
        extremum_args(&Cells::new(), "max", &vec![string("a")], true),
        Err(RuntimeError::TypeMismatch { .. })
    ));
    match extremum_args(&Cells::new(), "min", &vec![array(vec![float(1.5), float(2.5)])], false) {
        Ok(Numbers::Floats(bits)) => assert_eq!(bits, vec![1.5f64.to_bits(), 2.5f64.to_bits()]),
        other => panic!("expected floats, got {other:?}"),
    }
}

#[test]
fn fmapi_passes_the_index_first() {
    let pick_index = named("pick", vec!["i", "x"], ident("i"));
    let out = fmap(&mut host(), &mut Cells::new(), &pick_index, &array(vec![int_v(10), int_v(10), int_v(10)]), &Env::new(), DEPTH, true).unwrap();
    assert_eq!(out, array(vec![int_v(0), int_v(1), int_v(2)]));
    let pick_x = named("pick", vec!["i", "x"], ident("x"));
    let out = fmap(&mut host(), &mut Cells::new(), &pick_x, &list(vec![int_v(7), int_v(8)]), &Env::new(), DEPTH, true).unwrap();
    assert_eq!(out, list(vec![int_v(7), int_v(8)]));
}

#[test]
fn filter_keeps_entries_in_order() {
    let even = Rc::new(Value::Native(1));
    let env = bind(Env::new(), "is-even", even.clone());
    let keep_value = named("k", vec!["k", "v"], list(vec![ident("is-even"), ident("v")]));
    let keep_value = match &*keep_value {
        Value::Closure(c) => Rc::new(Value::Closure(Rc::new(Closure {
            name: c.name.clone(),
            params: c.params.clone(),
            rest: None,
            body: c.body.clone(),
            env: env.duplicate(),
            doc: None,
        }))),
        _ => unreachable!(),
    };
    let m = Rc::new(Value::Dict(vec![(string("a"), int_v(1)), (string("b"), int_v(2)), (string("c"), int_v(4))]));
    let out = filter(&mut host(), &mut Cells::new(), &keep_value, &m, &Env::new(), DEPTH).unwrap();
    assert_eq!(*out, Value::Dict(vec![(string("b"), int_v(2)), (string("c"), int_v(4))]));
}

#[test]
fn closure_called_by_name_runs_its_body_on_the_arguments() {
    let second = named("second", vec!["a", "b"], ident("b"));
    let env = bind(Env::new(), "second", second);
    let (v, out) = eval_ok(list(vec![ident("second"), int_v(1), int_v(2)]), &env);
    assert_eq!(*v, Value::Int(2));
    assert_eq!(out, env);
    let err = eval_err(list(vec![ident("second"), int_v(1)]), &env);
    assert!(is_arity(&err, Arity::Exactly(2), 1));
}

#[test]
fn quasi_splices_into_arrays_too() {
    let env = bind(Env::new(), "xs", list(vec![int_v(2), int_v(3)]));
    let form = list(vec![
        ident(KW_QUASIQUOTE),
        array(vec![int_v(1), list(vec![ident(KW_UNQUOTE_SPLICE), ident("xs")]), int_v(4)]),
    ]);
    let (v, _) = eval_ok(form, &env);
    assert_eq!(v, array(vec![int_v(1), int_v(2), int_v(3), int_v(4)]));
}

#[test]
fn a_program_reads_lists_strings_and_maps() {
    let (v, _) = parse_and_run_with_env(&mut host(), &mut Cells::new(), b"(quote (a \"s\" [1 2]))", &Env::new(), DEPTH).unwrap();
    assert_eq!(v, list(vec![ident("a"), string("s"), array(vec![int_v(1), int_v(2)])]));
    let (v, _) = parse_and_run_with_env(&mut host(), &mut Cells::new(), b"(do)", &Env::new(), DEPTH).unwrap();
    assert_eq!(*v, Value::Unit);
}

#[test]
fn library_builtins_work_on_cons_cells_and_refs() {
    let env = with_core(Env::new());
    let (v, _) = eval_ok(list(vec![ident("car"), list(vec![ident("cons"), int_v(1), int_v(2)])]), &env);
    assert_eq!(*v, Value::Int(1));
    let (v, _) = eval_ok(list(vec![ident("cdr"), list(vec![ident("cons"), int_v(1), int_v(2)])]), &env);
    assert_eq!(*v, Value::Int(2));
    let (v, _) = eval_ok(list(vec![ident("car"), unit()]), &env);
    assert_eq!(*v, Value::Unit);
    let err = eval_err(list(vec![ident("car"), int_v(3)]), &env);
    assert!(matches!(err, RuntimeError::TypeMismatch { .. }));
    let (v, _) = eval_ok(list(vec![ident("not"), int_v(0)]), &env);
    assert_eq!(*v, Value::Int(1));
    let (v, _) = eval_ok(list(vec![ident("not"), string("x")]), &env);
    assert_eq!(*v, Value::Int(0));
    let err = eval_err(list(vec![ident("cons"), int_v(1)]), &env);
    assert!(is_arity(&err, Arity::Exactly(2), 1));

    let mut cells = Cells::new();
    let program = list(vec![
        ident(KW_DO),
        list(vec![ident(KW_LET), ident("r"), list(vec![ident("ref"), int_v(5)])]),
        list(vec![ident("set!"), ident("r"), int_v(6)]),
        list(vec![ident("deref"), ident("r")]),
    ]);
    let (v, _) = eval(&mut host(), &mut cells, program, &env, DEPTH).unwrap();
    assert_eq!(*v, Value::Int(6));
    assert_eq!(*cells.get(0).unwrap(), Value::Int(6));
    let err = eval_err(list(vec![ident("deref"), int_v(1)]), &env);
    assert!(matches!(err, RuntimeError::TypeMismatch { .. }));
}

#[test]
fn library_builtins_serve_as_callbacks() {
    let env = with_core(Env::new());
    let not = env.get("not").unwrap();
    let out = filter(&mut host(), &mut Cells::new(), &not, &array(vec![int_v(0), int_v(1), unit()]), &env, DEPTH).unwrap();
    assert_eq!(out, array(vec![int_v(0), unit()]));
    let car = env.get("car").unwrap();
    let pairs = list(vec![list(vec![int_v(1), int_v(2)]), list(vec![int_v(3)])]);
    let out = fmap(&mut host(), &mut Cells::new(), &car, &pairs, &env, DEPTH, false).unwrap();
    assert_eq!(out, list(vec![int_v(1), int_v(3)]));
}

#[test]
fn union_keeps_the_first_envs_directory_and_seed() {
    let seed = Rc::new(bind(Env::new(), "s", int_v(1)));
    let a = bind(Env::new(), "x", int_v(1)).with_base_dir(Some(Rc::new("lib".to_string()))).with_base_env(seed.clone());
    let b = bind(Env::new(), "y", int_v(2)).with_base_dir(Some(Rc::new("other".to_string())));
    let u = a.union(&b);
    assert_eq!(u.base_dir().unwrap().as_str(), "lib");
    assert_eq!(u.base_env().unwrap(), seed);
    let u2 = b.union(&a);
    assert_eq!(u2.base_dir().unwrap().as_str(), "other");
    assert!(u2.base_env().is_none());
    assert_eq!(*u2.get("x").unwrap(), Value::Int(1));
    let updated = u.update(Rc::new("z".to_string()), int_v(3));
    assert_eq!(updated.base_dir().unwrap().as_str(), "lib");
}

#[test]
fn fmap_over_strings_and_maps() {
    let echo = named("echo", vec!["c"], ident("c"));
    let out = fmap(&mut host(), &mut Cells::new(), &echo, &string("héllo"), &Env::new(), DEPTH, false).unwrap();
    assert_eq!(out, string("héllo"));
    let err = fmap(&mut host(), &mut Cells::new(), &named("n", vec!["c"], int_v(1)), &string("ab"), &Env::new(), DEPTH, false);
    assert!(matches!(err, Err(RuntimeError::TypeMismatch { .. })));
    let swap = named("swap", vec!["k", "v"], array(vec![ident("v"), ident("k")]));
    let m = Rc::new(Value::Dict(vec![(string("a"), int_v(1)), (string("b"), int_v(2))]));
    let out = fmap(&mut host(), &mut Cells::new(), &swap, &m, &Env::new(), DEPTH, false).unwrap();
    assert_eq!(*out, Value::Dict(vec![(int_v(1), string("a")), (int_v(2), string("b"))]));
    let same_key = named("same", vec!["k", "v"], array(vec![int_v(0), ident("v")]));
    let out = fmap(&mut host(), &mut Cells::new(), &same_key, &m, &Env::new(), DEPTH, false).unwrap();
    assert_eq!(*out, Value::Dict(vec![(int_v(0), int_v(2))]));
}

#[test]
fn filter_over_strings_keeps_characters_in_order() {
    let env = with_core(Env::new());
    let keep_all = named("all", vec!["c"], int_v(1));
    let out = filter(&mut host(), &mut Cells::new(), &keep_all, &string("héllo"), &env, DEPTH).unwrap();
    assert_eq!(out, string("héllo"));
    let keep_none = named("none", vec!["c"], int_v(0));
    let out = filter(&mut host(), &mut Cells::new(), &keep_none, &string("abc"), &env, DEPTH).unwrap();
    assert_eq!(out, string(""));
}
