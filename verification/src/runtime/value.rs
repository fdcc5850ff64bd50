//! Runtime values, environments and errors.
//!
//! A float is held as the bits of its `f64`: the library moves floats
//! around and compares them for identity, and the host computes with them.
//! A builtin is an id that the host's [`Natives`] dispatches. A ref cell
//! is an id into the host's store of cells.

use crate::runtime::error::Arity;
use crate::text::same_text;
use std::rc::Rc;
use vstd::prelude::*;
use vstd::string::StringExecFns;

verus! {

/// The universal runtime value, which doubles as the forms the evaluator
/// walks: `(+ 1 2)` is a `Cons` chain.
#[derive(Debug, PartialEq)]
pub enum Value {
    /// A string.
    Str(Rc<String>),
    /// A 64-bit signed integer.
    Int(i64),
    /// A 64-bit float, by its bits.
    Float(u64),
    /// An identifier, as quoted code holds it.
    Ident(Rc<String>),
    /// The unit value, also the empty list. Falsy.
    Unit,
    /// A cons cell `(head . tail)`.
    Cons { head: Rc<Value>, tail: Rc<Value> },
    /// A builtin, by the id its host dispatches on.
    Native(usize),
    /// A user-defined function.
    Closure(Rc<Closure>),
    /// A user-defined macro: its arguments are passed unevaluated.
    Macro(Rc<Closure>),
    /// An array.
    Array(Vec<Rc<Value>>),
    /// A map, as its entries; no two keys are equal.
    Dict(Vec<(Rc<Value>, Rc<Value>)>),
    /// A mutable cell of the host's store, by id.
    Ref(usize),
}

impl Drop for Value {
    /// Unlinks the cons spine iteratively, so that dropping a long list does
    /// not recurse once per element. This only releases memory and states
    /// nothing.
    #[verifier::external_body]
    fn drop(&mut self)
        opens_invariants none
        no_unwind
    {
        let Value::Cons { tail, .. } = self else {
            return;
        };
        let mut cur = std::mem::replace(tail, Rc::new(Value::Unit));
        while let Ok(mut node) = Rc::try_unwrap(cur) {
            match &mut node {
                Value::Cons { tail, .. } => cur = std::mem::replace(tail, Rc::new(Value::Unit)),
                _ => break,
            }
        }
    }
}

/// A user-defined function or macro, with the environment it captured.
#[derive(Debug, PartialEq)]
pub struct Closure {
    pub name: Rc<String>,
    pub params: Vec<Rc<String>>,
    pub rest: Option<Rc<String>>,
    pub body: Rc<Value>,
    pub env: Env,
    pub doc: Option<Rc<String>>,
}

/// A lexical environment: each name bound at most once, with the directory
/// that relative paths of `(open ...)` resolve against and the environment
/// opened modules start from, when they are set.
#[derive(Debug, PartialEq)]
pub struct Env {
    bindings: Vec<(Rc<String>, Rc<Value>)>,
    base_dir: Option<Rc<String>>,
    base_env: Option<Rc<Env>>,
}

/// Why evaluation failed.
#[derive(Debug)]
pub enum RuntimeError {
    /// An identifier with no binding.
    UnknownIdent(Rc<String>),
    /// A value that cannot be called stood in head position.
    NotCallable { value: Rc<Value> },
    /// A call had a number of arguments its callee does not take.
    ArityMismatch { name: String, expected: Arity, got: usize },
    /// An argument of the wrong type.
    TypeMismatch { name: String, expected: String, got: String },
    /// An index outside a collection.
    IndexOob { name: String, length: i64, got: i64 },
    /// An arithmetic fault.
    ArithmeticError { name: String, reason: String },
    /// A text that did not parse as a number.
    ParseError { name: String, reason: String },
    /// Evaluation nested deeper than its limit.
    RecursionLimit,
    /// A module could not be read.
    IOError(String),
    /// Running the module at `path` failed.
    InModule { path: String, source: Box<crate::runtime::run::RizzError> },
    /// Any other failure the host reported.
    Host { reason: String },
}

/// The host's builtins (every builtin id below [`CORE_BASE`]), the floats
/// of number literals, and the reading of modules, which the host provides.
/// The library calls them and states nothing of what they return.
///
/// [`CORE_BASE`]: crate::prelude::builtins::CORE_BASE
pub trait Natives {
    /// The name of builtin `id`, for error messages.
    fn name(&self, id: usize) -> String;

    /// How many arguments builtin `id` takes.
    fn arity(&self, id: usize) -> Arity;

    /// Whether builtin `id` takes its arguments unevaluated.
    fn takes_forms(&self, id: usize) -> bool;

    /// Applies builtin `id` to `args` in `env`: the value, and the
    /// environment to go on with when the builtin extends it.
    fn apply(&mut self, id: usize, args: Vec<Rc<Value>>, env: &Env) -> Result<
        (Rc<Value>, Option<Env>),
        RuntimeError,
    >;

    /// The bits of the `f64` nearest to the decimal float literal `d`.
    fn float_bits(&self, d: &crate::parser::Decimal) -> u64;

    /// Reads and runs the module that `path` (a string or an identifier)
    /// names, for `(open PATH [PREFIX])`: its last value and the bindings
    /// its top-level forms made. The library merges them into the caller.
    fn open(&mut self, path: Rc<Value>, env: &Env) -> Result<(Rc<Value>, Env), RuntimeError>;
}

/// Calls `Rc::clone`: a new handle to the same value.
#[verifier::external_body]
pub fn share<T>(r: &Rc<T>) -> (res: Rc<T>)
    ensures
        res == *r,
{
    Rc::clone(r)
}

/// A text made from a literal.
pub fn text(s: &str) -> (r: String)
    ensures
        r@ == s@,
{
    String::from_str(s)
}

/// Whether `b` binds `name` to `v`.
pub open spec fn binds(b: Seq<(Rc<String>, Rc<Value>)>, name: Seq<char>, v: Rc<Value>) -> bool {
    exists|i: int| 0 <= i < b.len() && (#[trigger] b[i]).0@ == name && b[i].1 == v
}

/// Whether `b` binds `name` at all.
pub open spec fn bound(b: Seq<(Rc<String>, Rc<Value>)>, name: Seq<char>) -> bool {
    exists|i: int| 0 <= i < b.len() && (#[trigger] b[i]).0@ == name
}

impl View for Env {
    type V = Seq<(Rc<String>, Rc<Value>)>;

    closed spec fn view(&self) -> Seq<(Rc<String>, Rc<Value>)> {
        self.bindings@
    }
}

impl Env {
    /// No name is bound twice.
    #[verifier::type_invariant]
    spec fn distinct_names(&self) -> bool {
        forall|a: int, b: int|
            0 <= a < b < self.bindings@.len() ==> (#[trigger] self.bindings@[a]).0@ != (
            #[trigger] self.bindings@[b]).0@
    }

    /// The directory relative paths of `(open ...)` resolve against.
    pub closed spec fn dir(&self) -> Option<Rc<String>> {
        self.base_dir
    }

    /// The environment opened modules start from.
    pub closed spec fn seed(&self) -> Option<Rc<Env>> {
        self.base_env
    }

    /// An environment with no bindings, no directory and no seed.
    pub fn new() -> (r: Env)
        ensures
            r@.len() == 0,
            r.dir() is None,
            r.seed() is None,
    {
        Env { bindings: Vec::new(), base_dir: None, base_env: None }
    }

    /// This environment with the directory `dir`.
    pub fn with_base_dir(self, dir: Option<Rc<String>>) -> (r: Env)
        ensures
            r@ == self@,
            r.dir() == dir,
            r.seed() == self.seed(),
    {
        proof {
            use_type_invariant(&self);
        }
        Env { bindings: self.bindings, base_dir: dir, base_env: self.base_env }
    }

    /// This environment with the seed `env`.
    pub fn with_base_env(self, env: Rc<Env>) -> (r: Env)
        ensures
            r@ == self@,
            r.dir() == self.dir(),
            r.seed() == Some(env),
    {
        proof {
            use_type_invariant(&self);
        }
        Env { bindings: self.bindings, base_dir: self.base_dir, base_env: Some(env) }
    }

    /// The directory relative paths of `(open ...)` resolve against.
    pub fn base_dir(&self) -> (r: Option<Rc<String>>)
        ensures
            r == self.dir(),
    {
        match &self.base_dir {
            Some(d) => Some(share(d)),
            None => None,
        }
    }

    /// The environment opened modules start from.
    pub fn base_env(&self) -> (r: Option<Rc<Env>>)
        ensures
            r == self.seed(),
    {
        match &self.base_env {
            Some(e) => Some(share(e)),
            None => None,
        }
    }

    /// A copy sharing every bound value.
    pub fn duplicate(&self) -> (r: Env)
        ensures
            r@ == self@,
            r.dir() == self.dir(),
            r.seed() == self.seed(),
    {
        proof {
            use_type_invariant(self);
        }
        let mut out: Vec<(Rc<String>, Rc<Value>)> = Vec::new();
        let mut k: usize = 0;
        while k < self.bindings.len()
            invariant
                k <= self.bindings@.len(),
                out@ == self.bindings@.take(k as int),
            decreases self.bindings@.len() - k,
        {
            let entry = (share(&self.bindings[k].0), share(&self.bindings[k].1));
            out.push(entry);
            proof {
                assert(self.bindings@.take(k as int + 1) =~= self.bindings@.take(k as int).push(
                    self.bindings@[k as int],
                ));
            }
            k = k + 1;
        }
        proof {
            assert(self.bindings@.take(k as int) =~= self.bindings@);
        }
        Env { bindings: out, base_dir: self.base_dir(), base_env: self.base_env() }
    }

    /// The bindings, each name with its value.
    pub fn entries(&self) -> (r: Vec<(Rc<String>, Rc<Value>)>)
        ensures
            r@ == self@,
    {
        let mut out: Vec<(Rc<String>, Rc<Value>)> = Vec::new();
        let mut k: usize = 0;
        while k < self.bindings.len()
            invariant
                k <= self.bindings@.len(),
                out@ == self.bindings@.take(k as int),
            decreases self.bindings@.len() - k,
        {
            out.push((share(&self.bindings[k].0), share(&self.bindings[k].1)));
            proof {
                assert(self.bindings@.take(k as int + 1) =~= self.bindings@.take(k as int).push(
                    self.bindings@[k as int],
                ));
            }
            k = k + 1;
        }
        proof {
            assert(self.bindings@.take(k as int) =~= self.bindings@);
        }
        out
    }

    /// The value bound to `name`, if any.
    pub fn get(&self, name: &str) -> (r: Option<Rc<Value>>)
        ensures
            r is None <==> !bound(self@, name@),
            r matches Some(v) ==> binds(self@, name@, v),
            r matches Some(v) ==> forall|x: Rc<Value>| binds(self@, name@, x) ==> x == v,
    {
        proof {
            use_type_invariant(self);
        }
        let mut k: usize = 0;
        while k < self.bindings.len()
            invariant
                k <= self.bindings@.len(),
                forall|j: int| 0 <= j < k ==> (#[trigger] self.bindings@[j]).0@ != name@,
                forall|a: int, b: int|
                    0 <= a < b < self.bindings@.len() ==> (#[trigger] self.bindings@[a]).0@ != (
                    #[trigger] self.bindings@[b]).0@,
            decreases self.bindings@.len() - k,
        {
            if same_text(self.bindings[k].0.as_str(), name) {
                let v = share(&self.bindings[k].1);
                proof {
                    assert(self@[k as int] == self.bindings@[k as int]);
                    assert forall|x: Rc<Value>| binds(self@, name@, x) implies x == v by {
                        let i = choose|i: int|
                            0 <= i < self@.len() && (#[trigger] self@[i]).0@ == name@ && self@[i].1 == x;
                        if i != k as int {
                            if i < k as int {
                                assert(self.bindings@[i].0@ != name@);
                            } else {
                                assert(self.bindings@[k as int].0@ != self.bindings@[i].0@);
                            }
                        }
                    }
                }
                return Some(v);
            }
            k = k + 1;
        }
        proof {
            assert forall|i: int| 0 <= i < self@.len() implies (#[trigger] self@[i]).0@ != name@ by {
                assert(self@[i] == self.bindings@[i]);
            }
        }
        None
    }

    /// This environment with `name` bound to `v`, replacing any binding of
    /// `name`.
    pub fn update(self, name: Rc<String>, v: Rc<Value>) -> (r: Env)
        ensures
            r.dir() == self.dir(),
            r.seed() == self.seed(),
            binds(r@, name@, v),
            forall|n: Seq<char>| n != name@ ==> (bound(r@, n) <==> bound(self@, n)),
            forall|n: Seq<char>, x: Rc<Value>| n != name@ ==> (binds(r@, n, x) <==> binds(self@, n, x)),
    {
        let ghost old_b = self.bindings@;
        proof {
            use_type_invariant(&self);
            assert(old_b == self@);
        }
        let mut bindings = self.bindings;
        let mut k: usize = 0;
        while k < bindings.len()
            invariant
                k <= bindings@.len(),
                bindings@ == old_b,
                old_b == self@,
                forall|j: int| 0 <= j < k ==> (#[trigger] bindings@[j]).0@ != name@,
                forall|a: int, b: int|
                    0 <= a < b < old_b.len() ==> (#[trigger] old_b[a]).0@ != (#[trigger] old_b[b]).0@,
            decreases bindings@.len() - k,
        {
            if same_text(bindings[k].0.as_str(), name.as_str()) {
                bindings.set(k, (name, v));
                let r = Env { bindings, base_dir: self.base_dir, base_env: self.base_env };
                proof {
                    assert(r@ == old_b.update(k as int, r@[k as int]));
                    assert(r@[k as int].0@ == old_b[k as int].0@);
                    assert forall|a: int, b: int| 0 <= a < b < r@.len() implies (#[trigger] r@[a]).0@
                        != (#[trigger] r@[b]).0@ by {
                        assert(old_b[a].0@ != old_b[b].0@);
                        if a != k as int {
                            assert(r@[a] == old_b[a]);
                        }
                        if b != k as int {
                            assert(r@[b] == old_b[b]);
                        }
                    }
                    assert(r@[k as int].0@ == name@ && r@[k as int].1 == v);
                    assert forall|n: Seq<char>| n != name@ implies (bound(r@, n) <==> bound(old_b, n)) by {
                        if bound(r@, n) {
                            let i = choose|i: int| 0 <= i < r@.len() && (#[trigger] r@[i]).0@ == n;
                            assert(old_b[i].0@ == n);
                        }
                        if bound(old_b, n) {
                            let i = choose|i: int| 0 <= i < old_b.len() && (#[trigger] old_b[i]).0@ == n;
                            assert(r@[i].0@ == n);
                        }
                    }
                    assert forall|n: Seq<char>, x: Rc<Value>| n != name@ implies (binds(r@, n, x)
                        <==> binds(old_b, n, x)) by {
                        if binds(r@, n, x) {
                            let i = choose|i: int|
                                0 <= i < r@.len() && (#[trigger] r@[i]).0@ == n && r@[i].1 == x;
                            assert(i != k);
                            assert(old_b[i] == r@[i]);
                        }
                        if binds(old_b, n, x) {
                            let i = choose|i: int|
                                0 <= i < old_b.len() && (#[trigger] old_b[i]).0@ == n && old_b[i].1 == x;
                            assert(i != k);
                            assert(old_b[i] == r@[i]);
                        }
                    }
                }
                return r;
            }
            k = k + 1;
        }
        bindings.push((name, v));
        let r = Env { bindings, base_dir: self.base_dir, base_env: self.base_env };
        proof {
            let last = old_b.len() as int;
            assert(r@ == old_b.push(r@[last]));
            assert(r@[last].0@ == name@ && r@[last].1 == v);
            assert forall|a: int, b: int| 0 <= a < b < r@.len() implies (#[trigger] r@[a]).0@
                != (#[trigger] r@[b]).0@ by {
                assert(r@[a] == old_b[a]);
                if b < last {
                    assert(r@[b] == old_b[b]);
                    assert(old_b[a].0@ != old_b[b].0@);
                } else {
                    assert(bindings@[a].0@ != name@);
                }
            }
            assert forall|n: Seq<char>| n != name@ implies (bound(r@, n) <==> bound(old_b, n)) by {
                if bound(r@, n) {
                    let i = choose|i: int| 0 <= i < r@.len() && (#[trigger] r@[i]).0@ == n;
                    assert(i != last);
                    assert(old_b[i] == r@[i]);
                }
                if bound(old_b, n) {
                    let i = choose|i: int| 0 <= i < old_b.len() && (#[trigger] old_b[i]).0@ == n;
                    assert(old_b[i] == r@[i]);
                }
            }
            assert forall|n: Seq<char>, x: Rc<Value>| n != name@ implies (binds(r@, n, x) <==> binds(
                old_b,
                n,
                x,
            )) by {
                if binds(r@, n, x) {
                    let i = choose|i: int| 0 <= i < r@.len() && (#[trigger] r@[i]).0@ == n && r@[i].1 == x;
                    assert(i != last);
                    assert(old_b[i] == r@[i]);
                }
                if binds(old_b, n, x) {
                    let i = choose|i: int|
                        0 <= i < old_b.len() && (#[trigger] old_b[i]).0@ == n && old_b[i].1 == x;
                    assert(old_b[i] == r@[i]);
                }
            }
        }
        r
    }

    /// The bindings of `self` together with those of `other` whose names
    /// `self` does not bind: on a name both bind, `self` wins.
    pub fn union(&self, other: &Env) -> (r: Env)
        ensures
            r.dir() == self.dir(),
            r.seed() == self.seed(),
            forall|n: Seq<char>| bound(r@, n) <==> (bound(self@, n) || bound(other@, n)),
            forall|n: Seq<char>, x: Rc<Value>|
                bound(self@, n) ==> (binds(r@, n, x) <==> binds(self@, n, x)),
            forall|n: Seq<char>, x: Rc<Value>|
                !bound(self@, n) ==> (binds(r@, n, x) <==> binds(other@, n, x)),
    {
        proof {
            use_type_invariant(other);
        }
        let mut acc = self.duplicate();
        let mut k: usize = 0;
        while k < other.bindings.len()
            invariant
                acc.dir() == self.dir(),
                acc.seed() == self.seed(),
                k <= other.bindings@.len(),
                other@ == other.bindings@,
                forall|a: int, b: int|
                    0 <= a < b < other.bindings@.len() ==> (#[trigger] other.bindings@[a]).0@ != (
                    #[trigger] other.bindings@[b]).0@,
                forall|n: Seq<char>|
                    bound(acc@, n) <==> (bound(self@, n) || bound(other@.take(k as int), n)),
                forall|n: Seq<char>, x: Rc<Value>|
                    bound(self@, n) ==> (binds(acc@, n, x) <==> binds(self@, n, x)),
                forall|n: Seq<char>, x: Rc<Value>|
                    !bound(self@, n) ==> (binds(acc@, n, x) <==> binds(other@.take(k as int), n, x)),
            decreases other.bindings@.len() - k,
        {
            let ghost before = acc@;
            let ghost t0 = other@.take(k as int);
            let ghost t1 = other@.take(k as int + 1);
            let ghost e = other@[k as int];
            proof {
                assert(t1 =~= t0.push(e));
                assert forall|n: Seq<char>| bound(t1, n) <==> (bound(t0, n) || e.0@ == n) by {
                    if bound(t1, n) {
                        let i = choose|i: int| 0 <= i < t1.len() && (#[trigger] t1[i]).0@ == n;
                        if i < t0.len() {
                            assert(t0[i] == t1[i]);
                        }
                    }
                    if bound(t0, n) {
                        let i = choose|i: int| 0 <= i < t0.len() && (#[trigger] t0[i]).0@ == n;
                        assert(t1[i] == t0[i]);
                    }
                    if e.0@ == n {
                        assert(t1[k as int] == e);
                    }
                }
                assert(!bound(t0, e.0@)) by {
                    if bound(t0, e.0@) {
                        let i = choose|i: int| 0 <= i < t0.len() && (#[trigger] t0[i]).0@ == e.0@;
                        assert(other.bindings@[i].0@ != other.bindings@[k as int].0@);
                    }
                }
                assert forall|n: Seq<char>, x: Rc<Value>| binds(t1, n, x) <==> (binds(t0, n, x) || (
                e.0@ == n && e.1 == x)) by {
                    if binds(t1, n, x) {
                        let i = choose|i: int|
                            0 <= i < t1.len() && (#[trigger] t1[i]).0@ == n && t1[i].1 == x;
                        if i < t0.len() {
                            assert(t0[i] == t1[i]);
                        }
                    }
                    if binds(t0, n, x) {
                        let i = choose|i: int|
                            0 <= i < t0.len() && (#[trigger] t0[i]).0@ == n && t0[i].1 == x;
                        assert(t1[i] == t0[i]);
                    }
                    if e.0@ == n && e.1 == x {
                        assert(t1[k as int] == e);
                    }
                }
            }
            if acc.get(other.bindings[k].0.as_str()).is_none() {
                acc = acc.update(share(&other.bindings[k].0), share(&other.bindings[k].1));
                proof {
                    use_type_invariant(&acc);
                    assert(binds(acc@, e.0@, e.1));
                    assert forall|x: Rc<Value>| binds(acc@, e.0@, x) implies x == e.1 by {
                        if binds(acc@, e.0@, x) && x != e.1 {
                            let i = choose|i: int|
                                0 <= i < acc@.len() && (#[trigger] acc@[i]).0@ == e.0@ && acc@[i].1 == x;
                            let j = choose|j: int|
                                0 <= j < acc@.len() && (#[trigger] acc@[j]).0@ == e.0@ && acc@[j].1 == e.1;
                            assert(acc.bindings@[i].0@ == acc.bindings@[j].0@);
                            if i < j {
                                assert(acc.bindings@[i].0@ != acc.bindings@[j].0@);
                            } else if j < i {
                                assert(acc.bindings@[j].0@ != acc.bindings@[i].0@);
                            }
                        }
                    }
                }
            }
            k = k + 1;
        }
        proof {
            assert(other@.take(k as int) =~= other@);
        }
        acc
    }
}


/// The store of ref cells: cell `id` is the `id`-th value.
pub struct Cells {
    cells: Vec<Rc<Value>>,
}

impl View for Cells {
    type V = Seq<Rc<Value>>;

    closed spec fn view(&self) -> Seq<Rc<Value>> {
        self.cells@
    }
}

impl Cells {
    /// A store with no cells.
    pub fn new() -> (r: Cells)
        ensures
            r@.len() == 0,
    {
        Cells { cells: Vec::new() }
    }

    /// A new cell holding `v`, and its id.
    pub fn new_cell(&mut self, v: Rc<Value>) -> (r: usize)
        ensures
            r == old(self)@.len(),
            final(self)@ == old(self)@.push(v),
    {
        self.cells.push(v);
        self.cells.len() - 1
    }

    /// What cell `id` holds, or `None` when there is no such cell.
    pub fn get(&self, id: usize) -> (r: Option<Rc<Value>>)
        ensures
            id < self@.len() ==> r == Some(self@[id as int]),
            id >= self@.len() ==> r is None,
    {
        if id < self.cells.len() {
            Some(share(&self.cells[id]))
        } else {
            None
        }
    }

    /// How many cells there are.
    pub fn get_len(&self) -> (r: usize)
        ensures
            r == self@.len(),
    {
        self.cells.len()
    }

    /// Stores `v` in cell `id`, when there is such a cell; whether there was.
    pub fn set(&mut self, id: usize, v: Rc<Value>) -> (r: bool)
        ensures
            r == (id < old(self)@.len()),
            r ==> final(self)@ == old(self)@.update(id as int, v),
            !r ==> final(self)@ == old(self)@,
    {
        if id < self.cells.len() {
            self.cells.set(id, v);
            true
        } else {
            false
        }
    }
}


/// The name a module binding `n` gets when merged under `prefix`:
/// `PREFIX.n`, or `n` itself without one.
pub open spec fn qualified(prefix: Option<Seq<char>>, n: Seq<char>) -> Seq<char> {
    match prefix {
        Some(p) => p + seq!['.'] + n,
        None => n,
    }
}

proof fn lemma_qualified_injective(prefix: Option<Seq<char>>, a: Seq<char>, b: Seq<char>)
    requires
        qualified(prefix, a) == qualified(prefix, b),
    ensures
        a == b,
{
    if let Some(p) = prefix {
        assert(qualified(prefix, a).skip(p.len() + 1int) =~= a);
        assert(qualified(prefix, b).skip(p.len() + 1int) =~= b);
    }
}

/// The text of an optional prefix.
pub open spec fn prefix_of(prefix: Option<&str>) -> Option<Seq<char>> {
    match prefix {
        Some(p) => Some(p@),
        None => None,
    }
}

/// `name` merged under `prefix`.
fn qualify(prefix: Option<&str>, name: &Rc<String>) -> (r: Rc<String>)
    ensures
        r@ == qualified(prefix_of(prefix), name@),
{
    match prefix {
        Some(p) => {
            let mut t = String::from_str(p);
            t.append(".");
            t.append(name.as_str());
            proof {
                reveal_strlit(".");
            }
            Rc::new(t)
        },
        None => share(name),
    }
}

impl Env {
    /// This environment with every binding of `module` merged in under
    /// `prefix` (see [`qualified`]): a merged name takes the module's value,
    /// every other name keeps its own.
    pub fn merged(&self, module: &Env, prefix: Option<&str>) -> (r: Env)
        ensures
            r.dir() == self.dir(),
            r.seed() == self.seed(),
            forall|n: Seq<char>, x: Rc<Value>|
                binds(module@, n, x) ==> binds(r@, qualified(prefix_of(prefix), n), x),
            forall|n: Seq<char>|
                !bound(module@, n) ==> (bound(r@, qualified(prefix_of(prefix), n)) <==> bound(
                    self@,
                    qualified(prefix_of(prefix), n),
                )),
            forall|n: Seq<char>, x: Rc<Value>|
                (forall|m: Seq<char>| bound(module@, m) ==> qualified(prefix_of(prefix), m) != n) ==> (
                binds(r@, n, x) <==> binds(self@, n, x)),
    {
        let ghost pf = prefix_of(prefix);
        proof {
            use_type_invariant(module);
        }
        let mut acc = self.duplicate();
        let mut k: usize = 0;
        while k < module.bindings.len()
            invariant
                acc.dir() == self.dir(),
                acc.seed() == self.seed(),
                k <= module.bindings@.len(),
                module@ == module.bindings@,
                pf == prefix_of(prefix),
                forall|a: int, b: int|
                    0 <= a < b < module.bindings@.len() ==> (#[trigger] module.bindings@[a]).0@ != (
                    #[trigger] module.bindings@[b]).0@,
                forall|n: Seq<char>, x: Rc<Value>|
                    binds(module@.take(k as int), n, x) ==> binds(acc@, qualified(pf, n), x),
                forall|n: Seq<char>, x: Rc<Value>|
                    (forall|m: Seq<char>| bound(module@.take(k as int), m) ==> qualified(pf, m) != n)
                        ==> (binds(acc@, n, x) <==> binds(self@, n, x)),
                forall|n: Seq<char>|
                    (forall|m: Seq<char>| bound(module@.take(k as int), m) ==> qualified(pf, m) != n)
                        ==> (bound(acc@, n) <==> bound(self@, n)),
            decreases module.bindings@.len() - k,
        {
            let ghost t0 = module@.take(k as int);
            let ghost t1 = module@.take(k as int + 1);
            let ghost e = module@[k as int];
            let ghost before = acc@;
            proof {
                assert(t1 =~= t0.push(e));
                assert forall|n: Seq<char>| bound(t1, n) <==> (bound(t0, n) || e.0@ == n) by {
                    if bound(t1, n) {
                        let i = choose|i: int| 0 <= i < t1.len() && (#[trigger] t1[i]).0@ == n;
                        if i < t0.len() {
                            assert(t0[i] == t1[i]);
                        }
                    }
                    if bound(t0, n) {
                        let i = choose|i: int| 0 <= i < t0.len() && (#[trigger] t0[i]).0@ == n;
                        assert(t1[i] == t0[i]);
                    }
                    if e.0@ == n {
                        assert(t1[k as int] == e);
                    }
                }
                assert forall|n: Seq<char>, x: Rc<Value>| binds(t1, n, x) implies (binds(t0, n, x) || (
                e.0@ == n && e.1 == x)) by {
                    let i = choose|i: int| 0 <= i < t1.len() && (#[trigger] t1[i]).0@ == n && t1[i].1 == x;
                    if i < t0.len() {
                        assert(t0[i] == t1[i]);
                    }
                }
                assert(!bound(t0, e.0@)) by {
                    if bound(t0, e.0@) {
                        let i = choose|i: int| 0 <= i < t0.len() && (#[trigger] t0[i]).0@ == e.0@;
                        assert(module.bindings@[i].0@ != module.bindings@[k as int].0@);
                    }
                }
            }
            let q = qualify(prefix, &module.bindings[k].0);
            acc = acc.update(q, share(&module.bindings[k].1));
            proof {
                let qn = qualified(pf, e.0@);
                assert forall|n: Seq<char>, x: Rc<Value>| binds(t1, n, x) implies binds(
                    acc@,
                    qualified(pf, n),
                    x,
                ) by {
                    if binds(t0, n, x) {
                        let m = n;
                        assert(bound(t0, m));
                        if qualified(pf, m) == qn {
                            lemma_qualified_injective(pf, m, e.0@);
                        }
                        assert(binds(before, qualified(pf, n), x));
                    } else {
                        assert(e.0@ == n && e.1 == x);
                    }
                }
                assert forall|n: Seq<char>, x: Rc<Value>| (forall|m: Seq<char>|
                    bound(t1, m) ==> qualified(pf, m) != n) implies (binds(acc@, n, x) <==> binds(
                    self@,
                    n,
                    x,
                )) by {
                    assert(bound(t1, e.0@));
                    assert forall|m: Seq<char>| bound(t0, m) implies qualified(pf, m) != n by {
                        assert(bound(t1, m));
                    }
                }
                assert forall|n: Seq<char>| (forall|m: Seq<char>| bound(t1, m) ==> qualified(pf, m) != n)
                    implies (bound(acc@, n) <==> bound(self@, n)) by {
                    assert(bound(t1, e.0@));
                    assert forall|m: Seq<char>| bound(t0, m) implies qualified(pf, m) != n by {
                        assert(bound(t1, m));
                    }
                }
            }
            k = k + 1;
        }
        proof {
            assert(module@.take(k as int) =~= module@);
            assert forall|n: Seq<char>, x: Rc<Value>| binds(module@, n, x) implies binds(
                acc@,
                qualified(pf, n),
                x,
            ) by {
                assert(binds(module@.take(k as int), n, x));
            }
            assert forall|n: Seq<char>| !bound(module@, n) implies (bound(acc@, qualified(pf, n)) <==> bound(
                self@,
                qualified(pf, n),
            )) by {
                assert forall|m: Seq<char>| bound(module@, m) implies qualified(pf, m) != qualified(pf, n) by {
                    if qualified(pf, m) == qualified(pf, n) {
                        lemma_qualified_injective(pf, m, n);
                    }
                }
            }
        }
        acc
    }
}

} // verus!
