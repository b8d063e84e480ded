//! The abstract syntax of MiniImp programs.
use vstd::prelude::*;

verus! {

/// A MiniImp program: its input variable, its output variable and its body.
#[derive(Debug)]
pub struct Program {
    pub input_var: String,
    pub output_var: String,
    pub body: Cmd,
}

/// A MiniImp command.
#[derive(Debug)]
pub enum Cmd {
    Skip,
    Assign(String, Expr),
    /// `c1; c2`
    Sequence(Box<Cmd>, Box<Cmd>),
    If(BoolExpr, Box<Cmd>, Box<Cmd>),
    While(BoolExpr, Box<Cmd>),
}

/// An arithmetic expression.
#[derive(Debug)]
pub enum Expr {
    Var(String),
    Int(i64),
    Add(Box<Expr>, Box<Expr>),
    Sub(Box<Expr>, Box<Expr>),
    Mul(Box<Expr>, Box<Expr>),
}

/// A boolean expression.
#[derive(Debug)]
pub enum BoolExpr {
    True,
    False,
    And(Box<BoolExpr>, Box<BoolExpr>),
    Not(Box<BoolExpr>),
    Less(Box<Expr>, Box<Expr>),
}

impl Expr {
    /// A copy of the expression.
    pub fn copy(&self) -> (r: Expr)
        ensures
            r == *self,
        decreases self,
    {
        match self {
            Expr::Var(x) => Expr::Var(x.clone()),
            Expr::Int(n) => Expr::Int(*n),
            Expr::Add(a, b) => Expr::Add(Box::new(a.copy()), Box::new(b.copy())),
            Expr::Sub(a, b) => Expr::Sub(Box::new(a.copy()), Box::new(b.copy())),
            Expr::Mul(a, b) => Expr::Mul(Box::new(a.copy()), Box::new(b.copy())),
        }
    }
}

impl BoolExpr {
    /// A copy of the expression.
    pub fn copy(&self) -> (r: BoolExpr)
        ensures
            r == *self,
        decreases self,
    {
        match self {
            BoolExpr::True => BoolExpr::True,
            BoolExpr::False => BoolExpr::False,
            BoolExpr::And(a, b) => BoolExpr::And(Box::new(a.copy()), Box::new(b.copy())),
            BoolExpr::Not(a) => BoolExpr::Not(Box::new(a.copy())),
            BoolExpr::Less(a, b) => BoolExpr::Less(Box::new(a.copy()), Box::new(b.copy())),
        }
    }
}

impl Cmd {
    /// A copy of the command.
    pub fn copy(&self) -> (r: Cmd)
        ensures
            r == *self,
        decreases self,
    {
        match self {
            Cmd::Skip => Cmd::Skip,
            Cmd::Assign(x, e) => Cmd::Assign(x.clone(), e.copy()),
            Cmd::Sequence(a, b) => Cmd::Sequence(Box::new(a.copy()), Box::new(b.copy())),
            Cmd::If(c, a, b) => Cmd::If(c.copy(), Box::new(a.copy()), Box::new(b.copy())),
            Cmd::While(c, b) => Cmd::While(c.copy(), Box::new(b.copy())),
        }
    }
}

impl Program {
    /// A copy of the program.
    pub fn copy(&self) -> (r: Program)
        ensures
            r == *self,
    {
        Program {
            input_var: self.input_var.clone(),
            output_var: self.output_var.clone(),
            body: self.body.copy(),
        }
    }
}

impl Clone for Expr {
    fn clone(&self) -> (r: Expr)
        ensures
            r == *self,
    {
        self.copy()
    }
}

impl Clone for BoolExpr {
    fn clone(&self) -> (r: BoolExpr)
        ensures
            r == *self,
    {
        self.copy()
    }
}

impl Clone for Cmd {
    fn clone(&self) -> (r: Cmd)
        ensures
            r == *self,
    {
        self.copy()
    }
}

impl Clone for Program {
    fn clone(&self) -> (r: Program)
        ensures
            r == *self,
    {
        self.copy()
    }
}

} // verus!
