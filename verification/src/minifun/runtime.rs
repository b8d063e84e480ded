//! Values that MiniFun evaluation produces, and value environments.
use vstd::prelude::*;
use crate::minifun::ast::Term;

verus! {

/// A MiniFun value.
#[derive(Debug)]
pub enum Value {
    Int(i64),
    Bool(bool),
    /// A closure: parameter, body, and the environment it was made in.
    Closure(String, Box<Term>, Env),
    /// A recursive closure: function name, parameter, body, and the
    /// environment it was made in.
    RecClosure(String, String, Box<Term>, Env),
}

/// A value environment: which value each variable has. A later binding of
/// a name hides the earlier ones.
#[derive(Debug)]
pub enum Env {
    Empty,
    Bind(String, Box<Value>, Box<Env>),
}

impl Env {
    /// The value that `name` has, if any.
    pub open spec fn lookup(self, name: Seq<char>) -> Option<Value>
        decreases self,
    {
        match self {
            Env::Empty => None,
            Env::Bind(n, v, rest) => if n@ == name {
                Some(*v)
            } else {
                rest.lookup(name)
            },
        }
    }

    /// The environment with `name` bound to `value`.
    pub open spec fn bind(self, name: String, value: Value) -> Env {
        Env::Bind(name, Box::new(value), Box::new(self))
    }

    /// An empty environment.
    pub fn new() -> (r: Env)
        ensures
            r == Env::Empty,
    {
        Env::Empty
    }

    /// Binds `name` to `value`, hiding any value it had.
    pub fn insert(&mut self, name: String, value: Value)
        ensures
            *final(self) == old(self).bind(name, value),
    {
        let mut rest = Env::Empty;
        std::mem::swap(&mut rest, self);
        *self = Env::Bind(name, Box::new(value), Box::new(rest));
    }

    /// The value that `name` has, if any.
    pub fn get(&self, name: &String) -> (r: Option<&Value>)
        ensures
            match r {
                Some(v) => self.lookup(name@) == Some(*v),
                None => self.lookup(name@) is None,
            },
        decreases self,
    {
        match self {
            Env::Empty => None,
            Env::Bind(n, v, rest) => {
                if n.eq(name) {
                    Some(&**v)
                } else {
                    rest.get(name)
                }
            },
        }
    }

    /// A copy of the environment.
    pub fn copy(&self) -> (r: Env)
        ensures
            r == *self,
        decreases self,
    {
        match self {
            Env::Empty => Env::Empty,
            Env::Bind(n, v, rest) => Env::Bind(n.clone(), Box::new(v.copy()), Box::new(rest.copy())),
        }
    }
}

impl Value {
    /// A copy of the value.
    pub fn copy(&self) -> (r: Value)
        ensures
            r == *self,
        decreases self,
    {
        match self {
            Value::Int(n) => Value::Int(*n),
            Value::Bool(b) => Value::Bool(*b),
            Value::Closure(x, body, env) => Value::Closure(x.clone(), Box::new(body.copy()), env.copy()),
            Value::RecClosure(f, x, body, env) => Value::RecClosure(
                f.clone(),
                x.clone(),
                Box::new(body.copy()),
                env.copy(),
            ),
        }
    }
}

impl Clone for Env {
    fn clone(&self) -> (r: Env)
        ensures
            r == *self,
    {
        self.copy()
    }
}

impl Clone for Value {
    fn clone(&self) -> (r: Value)
        ensures
            r == *self,
    {
        self.copy()
    }
}

} // verus!
