//! Programs from source text to value: read, evaluated with the library's
//! own builtins and a host that provides integer arithmetic and equality.

use rizz::parser::Decimal;
use rizz::prelude::builtins::with_core;
use rizz::runtime::{
    Arity, Cells, Env, Natives, RizzError, RuntimeError, Value, parse_and_run_with_env,
};
use std::rc::Rc;

const DEPTH: usize = 2000;
const OPS: [&str; 9] = ["+", "-", "*", "/", "<", ">", "<=", ">=", "="];

/// Integer arithmetic, comparison and structural equality, by the index of
/// the name in `OPS`.
struct IntHost;

impl Natives for IntHost {
    fn name(&self, id: usize) -> String {
        OPS[id].to_string()
    }
    fn arity(&self, _id: usize) -> Arity {
        Arity::Exactly(2)
    }
    fn takes_forms(&self, _id: usize) -> bool {
        false
    }
    fn apply(
        &mut self,
        id: usize,
        args: Vec<Rc<Value>>,
        _env: &Env,
    ) -> Result<(Rc<Value>, Option<Env>), RuntimeError> {
        if id == 8 {
            return Ok((Rc::new(Value::Int((args[0] == args[1]) as i64)), None));
        }
        let (a, b) = match (&*args[0], &*args[1]) {
            (Value::Int(a), Value::Int(b)) => (*a, *b),
            _ => {
                return Err(RuntimeError::TypeMismatch {
                    name: OPS[id].to_string(),
                    expected: "int".to_string(),
                    got: "other".to_string(),
                })
            }
        };
        let v = match id {
            0 => a + b,
            1 => a - b,
            2 => a * b,
            3 => {
                if b == 0 {
                    return Err(RuntimeError::ArithmeticError {
                        name: "/".to_string(),
                        reason: "division by zero".to_string(),
                    });
                }
                a / b
            }
            4 => (a < b) as i64,
            5 => (a > b) as i64,
            6 => (a <= b) as i64,
            _ => (a >= b) as i64,
        };
        Ok((Rc::new(Value::Int(v)), None))
    }
    fn float_bits(&self, _d: &Decimal) -> u64 {
        0
    }
    fn open(&mut self, _path: Rc<Value>, _env: &Env) -> Result<(Rc<Value>, Env), RuntimeError> {
        Err(RuntimeError::Host { reason: "no modules here".to_string() })
    }
}

fn env() -> Env {
    let mut env = with_core(Env::new());
    for (id, name) in OPS.iter().enumerate() {
        env = env.update(Rc::new(name.to_string()), Rc::new(Value::Native(id)));
    }
    env
}

fn try_run(src: &str) -> Result<Rc<Value>, RizzError> {
    parse_and_run_with_env(&mut IntHost, &mut Cells::new(), src.as_bytes(), &env(), DEPTH).map(|(v, _)| v)
}

fn run(src: &str) -> Rc<Value> {
    try_run(src).unwrap_or_else(|e| panic!("eval of `{src}` failed: {e:?}"))
}

fn int_list(xs: &[i64]) -> Value {
    xs.iter().rev().fold(Value::Unit, |tail, x| Value::Cons { head: Rc::new(Value::Int(*x)), tail: Rc::new(tail) })
}

#[test]
fn nested_arithmetic() {
    assert_eq!(*run("(+ (* 2 3) (- 10 4))"), Value::Int(12));
    assert_eq!(*run("(* (+ 1 2) (+ 3 4))"), Value::Int(21));
    assert_eq!(*run("(- (+ 100 (* 5 5)) (/ 50 2))"), Value::Int(100));
}

#[test]
fn deeply_nested_arithmetic() {
    assert_eq!(*run("(+ 1 (+ 2 (+ 3 (+ 4 (+ 5 6)))))"), Value::Int(21));
}

#[test]
fn comparisons_over_computed_operands() {
    assert_eq!(*run("(< (+ 1 1) (* 2 2))"), Value::Int(1));
    assert_eq!(*run("(>= (* 3 3) (+ 4 5))"), Value::Int(1));
    assert_eq!(*run("(<= (+ 5 5) (- 9 1))"), Value::Int(0));
}

#[test]
fn nested_if_selects_correct_branch() {
    assert_eq!(*run("(if (< 1 2) (+ 10 20) (- 0 1))"), Value::Int(30));
    assert_eq!(*run("(if (> 1 2) (+ 10 20) (* 6 7))"), Value::Int(42));
    assert_eq!(*run("(if (< 1 2) (if (> 5 3) 100 200) 300)"), Value::Int(100));
    assert_eq!(*run("(if (> 1 2) 999 (if (< 5 3) 200 42))"), Value::Int(42));
}

#[test]
fn inline_function_application() {
    assert_eq!(*run("((fn sq (x) (* x x)) 5)"), Value::Int(25));
}

#[test]
fn recursive_factorial() {
    assert_eq!(*run("((fn fact (n) (if (< n 1) 1 (* n (fact (- n 1))))) 5)"), Value::Int(120));
}

#[test]
fn recursive_fibonacci() {
    assert_eq!(*run("((fn fib (n) (if (< n 2) n (+ (fib (- n 1)) (fib (- n 2))))) 10)"), Value::Int(55));
}

#[test]
fn callee_bindings_do_not_leak_to_caller() {
    assert_eq!(*run("((fn f (n) (+ ((fn g (n) n) 99) n)) 7)"), Value::Int(106));
}

#[test]
fn let_binding_visible_to_later_args() {
    assert_eq!(*run("(+ (let x 5) x)"), Value::Int(10));
}

#[test]
fn variadic_rest_collects_trailing_args_as_list() {
    assert_eq!(*run("((fn f (a . rest) rest) 1 2 3 4)"), int_list(&[2, 3, 4]));
}

#[test]
fn variadic_rest_is_empty_at_minimum_arity() {
    assert_eq!(*run("((fn f (a . rest) rest) 1)"), Value::Unit);
}

#[test]
fn variadic_bare_ident_params_binds_all_args() {
    assert_eq!(*run("((fn f args args) 10 20 30)"), int_list(&[10, 20, 30]));
}

#[test]
fn variadic_bare_ident_with_zero_args_is_empty_list() {
    assert_eq!(*run("((fn f args args) )"), Value::Unit);
}

#[test]
fn quote_returns_unevaluated_list() {
    assert_eq!(*run("(quote (1 2 3))"), int_list(&[1, 2, 3]));
    assert_eq!(*run("'(1 2 3)"), int_list(&[1, 2, 3]));
}

#[test]
fn quasiquote_evaluates_nested_unquotes() {
    assert_eq!(*run("(quasi (1 (unquote (+ 1 1)) (unquote (* 2 3))))"), int_list(&[1, 2, 6]));
    assert_eq!(*run("`(1 ,(+ 1 1) ,(* 2 3))"), int_list(&[1, 2, 6]));
}

#[test]
fn quasiquote_unquote_splicing() {
    assert_eq!(*run("(quasi (1 (unquote-splice (quote (2 3))) 4))"), int_list(&[1, 2, 3, 4]));
    assert_eq!(*run("`(1 ,@(quote (2 3)) 4)"), int_list(&[1, 2, 3, 4]));
}

#[test]
fn quasiquote_preserves_nested_list_structure() {
    let expected = Value::Cons {
        head: Rc::new(int_list(&[1, 2])),
        tail: Rc::new(Value::Cons { head: Rc::new(Value::Int(3)), tail: Rc::new(Value::Unit) }),
    };
    assert_eq!(*run("(quasi ((1 (unquote (+ 1 1))) 3))"), expected);
    assert_eq!(*run("`((1 ,(+ 1 1)) 3)"), expected);
}

#[test]
fn equality_over_nested_values() {
    assert_eq!(*run("(= (+ 1 1) 2)"), Value::Int(1));
    assert_eq!(*run("(= (quote (1 2)) (quote (1 2)))"), Value::Int(1));
    assert_eq!(*run("(= '(1 2) (quote (1 2)))"), Value::Int(1));
    assert_eq!(*run("(= (quote (1 2)) (quote (1 3)))"), Value::Int(0));
    assert_eq!(*run("(= '(1 2) '(1 3))"), Value::Int(0));
}

#[test]
fn combined_nested_program() {
    assert_eq!(*run("(if (= (+ 1 1) 2) ((fn sq (x) (* x x)) (+ 2 1)) 0)"), Value::Int(9));
}

#[test]
fn array_literal_evaluates_elements() {
    let v = run("(let xs [1 (+ 1 2) 4])");
    match &*v {
        Value::Array(xs) => {
            assert_eq!(xs.len(), 3);
            assert_eq!(*xs[0], Value::Int(1));
            assert_eq!(*xs[1], Value::Int(3));
            assert_eq!(*xs[2], Value::Int(4));
        }
        other => panic!("expected array, got {other:?}"),
    }
}

#[test]
fn map_literal_evaluates_values() {
    let v = run("(let m {1: (+ 2 3)})");
    match &*v {
        Value::Dict(m) => {
            assert_eq!(m.len(), 1);
            assert_eq!(*m[0].0, Value::Int(1));
            assert_eq!(*m[0].1, Value::Int(5));
        }
        other => panic!("expected map, got {other:?}"),
    }
}

#[test]
fn e2e_array_in_head_position_is_not_callable() {
    assert!(try_run("([1, 2, 3])").is_err());
}

#[test]
fn unknown_identifier_in_nested_form_is_error() {
    assert!(try_run("(+ 1 (* 2 nope))").is_err());
}

#[test]
fn division_by_zero_in_nested_form_is_error() {
    assert!(try_run("(/ (+ 5 5) (- 3 3))").is_err());
}

#[test]
fn program_value_is_last_form() {
    assert_eq!(*run("(+ 1 2)\n(+ 3 4)"), Value::Int(7));
}

#[test]
fn let_binding_persists_across_top_level_forms() {
    assert_eq!(*run("(let x 10)\n(+ x 5)"), Value::Int(15));
}

#[test]
fn fn_defined_in_one_form_callable_from_the_next() {
    assert_eq!(*run("(fn sq (x) (* x x))\n(sq 6)"), Value::Int(36));
}

#[test]
fn comments_separate_top_level_forms() {
    assert_eq!(*run("(let x 1) ;; bind x\n(let y 2) ;; bind y\n(+ x y)"), Value::Int(3));
}

#[test]
fn do_returns_last_form() {
    assert_eq!(*run("(do 1 2 (+ 1 2))"), Value::Int(3));
}

#[test]
fn do_threads_let_to_later_forms() {
    assert_eq!(*run("(do (let x 7) (* x 2))"), Value::Int(14));
}

#[test]
fn ref_deref_roundtrip() {
    assert_eq!(*run("(deref (ref 5))"), Value::Int(5));
    assert_eq!(*run("(deref (ref \"hi\"))"), Value::Str(Rc::new("hi".to_string())));
}

#[test]
fn set_returns_the_new_value() {
    assert_eq!(*run("(set! (ref 1) 42)"), Value::Int(42));
}

#[test]
fn set_then_deref_sees_the_update() {
    let src = "
        (let r (ref 0))
        (set! r 9)
        (deref r)";
    assert_eq!(*run(src), Value::Int(9));
}

#[test]
fn aliased_bindings_share_the_cell() {
    let src = "
        (let a (ref 0))
        (let b a)
        (set! a 7)
        (deref b)";
    assert_eq!(*run(src), Value::Int(7));
}

#[test]
fn closure_captures_the_cell_not_a_snapshot() {
    let src = "
        (let c (ref 0))
        (fn bump () (set! c (+ (deref c) 1)))
        (bump) (bump) (bump)
        (deref c)";
    assert_eq!(*run(src), Value::Int(3));
}

#[test]
fn set_on_non_ref_errors() {
    assert!(try_run("(set! 5 1)").is_err());
    assert!(try_run("(set! \"x\" 1)").is_err());
}

#[test]
fn deref_on_non_ref_errors() {
    assert!(try_run("(deref 5)").is_err());
    assert!(try_run("(deref [1 2])").is_err());
}

#[test]
fn ref_truthiness_recurses_into_contents() {
    assert_eq!(*run("(if (ref 0) 1 2)"), Value::Int(2));
    assert_eq!(*run("(if (ref \"\") 1 2)"), Value::Int(2));
    assert_eq!(*run("(if (ref ()) 1 2)"), Value::Int(2));
    assert_eq!(*run("(if (ref 1) 1 2)"), Value::Int(1));
}

#[test]
fn nested_refs_require_repeated_deref() {
    assert_eq!(*run("(deref (deref (ref (ref 5))))"), Value::Int(5));
    let v = run("(deref (ref (ref 5)))");
    assert!(matches!(*v, Value::Ref(_)));
}

#[test]
fn set_with_ref_value_creates_alias_not_copy() {
    let src = "
        (let inner (ref 1))
        (let outer (ref 0))
        (set! outer inner)
        (set! inner 42)
        (deref (deref outer))";
    assert_eq!(*run(src), Value::Int(42));
}

#[test]
fn closure_keeps_ref_after_outer_binding_shadowed() {
    let src = "
        (let c (ref 0))
        (fn bump () (set! c (+ (deref c) 1)))
        (let c 999)
        (bump)
        (bump)
        (bump)";
    assert_eq!(*run(src), Value::Int(3));
}

#[test]
fn ref_in_head_position_is_callable_if_it_holds_a_fn() {
    let src = "
        (let f (ref (fn sq (x) (* x x))))
        (f 6)";
    assert_eq!(*run(src), Value::Int(36));
    let src_nested = "
        (let f (ref (ref (fn sq (x) (* x x)))))
        (f 7)";
    assert_eq!(*run(src_nested), Value::Int(49));
    assert!(try_run("((ref 5))").is_err());
}

#[test]
fn do_lets_a_function_body_run_a_sequence() {
    let src = "
        ((fn run (x)
           (do (let y (* x 2))
               (let z (+ y 1))
               (+ y z)))
         3)";
    assert_eq!(*run(src), Value::Int(13));
}

#[test]
fn extra_arg_in_let_still_arity_error() {
    let src = r#"(let x 1 2)"#;
    assert!(try_run(src).is_err());
}

#[test]
fn macro_expansion_is_evaluated_in_the_caller() {
    let src = "
        (defmacro swap-args (f a b) (quasi ((unquote f) (unquote b) (unquote a))))
        (let x 10)
        (swap-args - 1 x)";
    assert_eq!(*run(src), Value::Int(9));
    let src = "
        (defmacro my-quote (x) (quasi (quote (unquote x))))
        (my-quote (a b))";
    assert_eq!(*run(src), Value::Cons {
        head: Rc::new(Value::Ident(Rc::new("a".to_string()))),
        tail: Rc::new(Value::Cons { head: Rc::new(Value::Ident(Rc::new("b".to_string()))), tail: Rc::new(Value::Unit) }),
    });
}
