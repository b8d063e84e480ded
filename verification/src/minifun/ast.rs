//! The abstract syntax of MiniFun terms.
use vstd::prelude::*;
use crate::minifun::types::Type;

verus! {

/// A MiniFun term.
#[derive(Debug)]
pub enum Term {
    Int(i64),
    True,
    False,
    Var(String),
    /// `fun x : t => body`
    Fun(String, Type, Box<Term>),
    /// Application `t1 t2`.
    App(Box<Term>, Box<Term>),
    Add(Box<Term>, Box<Term>),
    Sub(Box<Term>, Box<Term>),
    Mul(Box<Term>, Box<Term>),
    And(Box<Term>, Box<Term>),
    Less(Box<Term>, Box<Term>),
    Not(Box<Term>),
    /// `if c then t else e`
    If(Box<Term>, Box<Term>, Box<Term>),
    /// `let x = t1 in t2`
    Let(String, Box<Term>, Box<Term>),
    /// `letfun f x : t = body in rest`
    LetFun(String, String, Type, Box<Term>, Box<Term>),
}

impl Term {
    /// A copy of the term.
    pub fn copy(&self) -> (r: Term)
        ensures
            r == *self,
        decreases self,
    {
        match self {
            Term::Int(n) => Term::Int(*n),
            Term::True => Term::True,
            Term::False => Term::False,
            Term::Var(x) => Term::Var(x.clone()),
            Term::Fun(x, t, b) => Term::Fun(x.clone(), t.copy(), Box::new(b.copy())),
            Term::App(a, b) => Term::App(Box::new(a.copy()), Box::new(b.copy())),
            Term::Add(a, b) => Term::Add(Box::new(a.copy()), Box::new(b.copy())),
            Term::Sub(a, b) => Term::Sub(Box::new(a.copy()), Box::new(b.copy())),
            Term::Mul(a, b) => Term::Mul(Box::new(a.copy()), Box::new(b.copy())),
            Term::And(a, b) => Term::And(Box::new(a.copy()), Box::new(b.copy())),
            Term::Less(a, b) => Term::Less(Box::new(a.copy()), Box::new(b.copy())),
            Term::Not(a) => Term::Not(Box::new(a.copy())),
            Term::If(c, a, b) => Term::If(Box::new(c.copy()), Box::new(a.copy()), Box::new(b.copy())),
            Term::Let(x, a, b) => Term::Let(x.clone(), Box::new(a.copy()), Box::new(b.copy())),
            Term::LetFun(f, x, t, a, b) => Term::LetFun(
                f.clone(),
                x.clone(),
                t.copy(),
                Box::new(a.copy()),
                Box::new(b.copy()),
            ),
        }
    }
}

impl Clone for Term {
    fn clone(&self) -> (r: Term)
        ensures
            r == *self,
    {
        self.copy()
    }
}

} // verus!
