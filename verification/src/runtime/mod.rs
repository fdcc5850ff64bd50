//! The runtime: values, environments, and the tree-walking evaluator.

pub mod error;
pub mod eval;
pub mod run;
pub mod semantics;
pub mod value;

pub use error::Arity;
pub use eval::{apply, bind_and_eval, eval, quasi};
pub use value::{Cells, Closure, Env, Natives, RuntimeError, Value};
pub use run::{RizzError, eval_forms, from_sexp, parse_and_run_with_env};
