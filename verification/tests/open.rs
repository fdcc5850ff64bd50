//! `(open PATH [PREFIX])` with a host that keeps its modules in memory:
//! what a module gives back, how its bindings merge, and the errors.

use rizz::parser::Decimal;
use rizz::prelude::builtins::with_core;
use rizz::runtime::{
    Arity, Cells, Env, Natives, RizzError, RuntimeError, Value, parse_and_run_with_env,
};
use std::collections::HashMap;
use std::rc::Rc;

const DEPTH: usize = 2000;

/// `+` and `*` on ints (ids 0 and 1), and modules by path, each read and run
/// in an environment seeded with the caller's seed (or the standard one)
/// and anchored at the module's directory.
struct ModuleHost {
    files: HashMap<String, String>,
}

fn join(dir: Option<Rc<String>>, path: &str) -> String {
    match dir {
        Some(d) if !path.starts_with('/') => format!("{}/{}", d, path),
        _ => path.to_string(),
    }
}

impl Natives for ModuleHost {
    fn name(&self, id: usize) -> String {
        if id == 0 { "+".to_string() } else { "*".to_string() }
    }
    fn arity(&self, _id: usize) -> Arity {
        Arity::Exactly(2)
    }
    fn takes_forms(&self, _id: usize) -> bool {
        false
    }
    fn apply(
        &mut self,
        id: usize,
        args: Vec<Rc<Value>>,
        _env: &Env,
    ) -> Result<(Rc<Value>, Option<Env>), RuntimeError> {
        match (&*args[0], &*args[1]) {
            (Value::Int(a), Value::Int(b)) => {
                Ok((Rc::new(Value::Int(if id == 0 { a + b } else { a * b })), None))
            }
            _ => Err(RuntimeError::TypeMismatch {
                name: self.name(id),
                expected: "int".to_string(),
                got: "other".to_string(),
            }),
        }
    }
    fn float_bits(&self, _d: &Decimal) -> u64 {
        0
    }
    fn open(&mut self, path: Rc<Value>, env: &Env) -> Result<(Rc<Value>, Env), RuntimeError> {
        let name = match &*path {
            Value::Str(s) | Value::Ident(s) => s.to_string(),
            _ => unreachable!("the library checks the path"),
        };
        let file = name.rsplit('/').next().unwrap_or("").to_string();
        let name = if file.contains('.') { name } else { format!("{name}.rz") };
        let full = join(env.base_dir(), &name);
        let src = match self.files.get(&full) {
            Some(s) => s.clone(),
            None => return Err(RuntimeError::IOError(format!("no file {full}"))),
        };
        let dir = full.rsplit_once('/').map(|(d, _)| Rc::new(d.to_string()));
        let seed = match env.base_env() {
            Some(s) => s.duplicate(),
            None => standard(),
        };
        let start = seed.duplicate().with_base_dir(dir);
        let (v, after) = parse_and_run_with_env(self, &mut Cells::new(), src.as_bytes(), &start, DEPTH)
            .map_err(|e| RuntimeError::InModule { path: full.clone(), source: Box::new(e) })?;
        let mut own = Env::new();
        for (n, x) in after.entries() {
            if seed.get(n.as_str()).map_or(true, |old| old != x) {
                own = own.update(n, x);
            }
        }
        Ok((v, own))
    }
}

fn standard() -> Env {
    with_core(Env::new())
        .update(Rc::new("+".to_string()), Rc::new(Value::Native(0)))
        .update(Rc::new("*".to_string()), Rc::new(Value::Native(1)))
}

fn host(files: &[(&str, &str)]) -> ModuleHost {
    ModuleHost { files: files.iter().map(|(p, s)| (p.to_string(), s.to_string())).collect() }
}

fn try_run_in(files: &[(&str, &str)], src: &str, env: &Env) -> Result<Rc<Value>, RizzError> {
    parse_and_run_with_env(&mut host(files), &mut Cells::new(), src.as_bytes(), env, DEPTH).map(|(v, _)| v)
}

fn try_run(files: &[(&str, &str)], src: &str) -> Result<Rc<Value>, RizzError> {
    try_run_in(files, src, &standard())
}

fn run(files: &[(&str, &str)], src: &str) -> Rc<Value> {
    try_run(files, src).unwrap_or_else(|e| panic!("eval of `{src}` failed: {e:?}"))
}

#[test]
fn open_returns_value_of_last_form() {
    assert_eq!(*run(&[("/t/m.rz", "(let x 1) (+ 41 1)")], "(open \"/t/m.rz\")"), Value::Int(42));
}

#[test]
fn open_leaks_public_bindings_into_caller() {
    let files = [("/t/m.rz", "(let answer 42) (fn dbl (x) (* x 2))")];
    assert_eq!(*run(&files, "(open \"/t/m.rz\") (dbl answer)"), Value::Int(84));
}

#[test]
fn open_merges_private_underscore_bindings() {
    let files = [("/t/m.rz", "(let _secret 7) (let public 1)")];
    assert_eq!(*run(&files, "(open \"/t/m.rz\") _secret"), Value::Int(7));
    assert_eq!(*run(&files, "(open \"/t/m.rz\") public"), Value::Int(1));
}

#[test]
fn open_with_prefix_namespaces_bindings() {
    let files = [("/t/m.rz", "(let answer 42) (fn dbl (x) (* x 2))")];
    assert_eq!(*run(&files, "(open \"/t/m.rz\" m) (m.dbl m.answer)"), Value::Int(84));
}

#[test]
fn open_with_prefix_does_not_bind_unprefixed_names() {
    let files = [("/t/m.rz", "(let answer 42)")];
    assert!(try_run(&files, "(open \"/t/m.rz\" m) answer").is_err());
}

#[test]
fn open_with_non_ident_prefix_is_type_error() {
    let err = try_run(&[("/t/m.rz", "1")], "(open \"/t/m.rz\" \"m\")").expect_err("type error");
    assert!(matches!(err, RizzError::RuntimeError(RuntimeError::TypeMismatch { .. })));
}

#[test]
fn open_with_prefix_does_not_namespace_the_prelude() {
    let files = [("/t/m.rz", "(fn dbl (x) (* x 2))")];
    assert!(try_run(&files, "(open \"/t/m.rz\" m) m.+").is_err());
}

#[test]
fn open_appends_rz_extension_when_missing() {
    assert_eq!(*run(&[("/t/m.rz", "123")], "(open \"/t/m\")"), Value::Int(123));
}

#[test]
fn open_preserves_existing_extension() {
    assert_eq!(*run(&[("/t/m.lisp", "456")], "(open \"/t/m.lisp\")"), Value::Int(456));
}

#[test]
fn open_resolves_relative_path_against_base_dir() {
    let env = standard().with_base_dir(Some(Rc::new("/t".to_string())));
    let v = try_run_in(&[("/t/mod.rz", "(let v 10)")], "(open \"mod\") v", &env).expect("eval");
    assert_eq!(*v, Value::Int(10));
}

#[test]
fn nested_open_resolves_relative_to_opened_files_directory() {
    let files = [("/t/inner.rz", "(let v 77)"), ("/t/outer.rz", "(open \"inner\") v")];
    assert_eq!(*run(&files, "(open \"/t/outer.rz\")"), Value::Int(77));
}

#[test]
fn open_with_no_args_is_arity_error() {
    let err = try_run(&[], "(open)").expect_err("arity error");
    assert!(matches!(
        err,
        RizzError::RuntimeError(RuntimeError::ArityMismatch { expected: Arity::Range(1, 2), got: 0, .. })
    ));
}

#[test]
fn open_with_three_args_is_arity_error() {
    let err = try_run(&[], "(open \"a\" b c)").expect_err("arity error");
    assert!(matches!(
        err,
        RizzError::RuntimeError(RuntimeError::ArityMismatch { expected: Arity::Range(1, 2), got: 3, .. })
    ));
}

#[test]
fn open_with_non_string_path_is_type_error() {
    let err = try_run(&[], "(open 5)").expect_err("type error");
    assert!(matches!(err, RizzError::RuntimeError(RuntimeError::TypeMismatch { .. })));
}

#[test]
fn open_missing_file_surfaces_io_error() {
    let err = try_run(&[], "(open \"/t/does-not-exist.rz\")").expect_err("io error");
    assert!(matches!(err, RizzError::RuntimeError(RuntimeError::IOError(_))));
}

#[test]
fn open_accepts_ident_path() {
    let env = standard().with_base_dir(Some(Rc::new("/t".to_string())));
    let v = try_run_in(&[("/t/modname.rz", "(let x 9)")], "(open 'modname) x", &env).expect("eval");
    assert_eq!(*v, Value::Int(9));
}

#[test]
fn runtime_error_inside_module_surfaces_as_in_module() {
    let err = try_run(&[("/t/bad.rz", "(car 5)")], "(open \"/t/bad.rz\")").expect_err("module error");
    match err {
        RizzError::RuntimeError(RuntimeError::InModule { path, source }) => {
            assert!(path.ends_with("bad.rz"), "path was {path:?}");
            assert!(matches!(*source, RizzError::RuntimeError(RuntimeError::TypeMismatch { .. })));
        }
        other => panic!("expected InModule, got {other:?}"),
    }
}

#[test]
fn parse_error_inside_module_surfaces_as_in_module() {
    let err = try_run(&[("/t/bad.rz", "(let x")], "(open \"/t/bad.rz\")").expect_err("module error");
    match err {
        RizzError::RuntimeError(RuntimeError::InModule { source, .. }) => {
            assert!(matches!(*source, RizzError::ParseError(rizz::ParseError::UnexpectedEof { .. })));
        }
        other => panic!("expected InModule, got {other:?}"),
    }
}
