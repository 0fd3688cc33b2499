//! The abstract syntax of Lorenz programs.
//!
//! Numbers are binary64 values, held as their IEEE-754 bit patterns.

use vstd::prelude::*;
use crate::text::push_str;

verus! {

/// Expressions of the chaotic expression language.
#[derive(Debug, PartialEq)]
pub enum Expr {
    /// Reference to a variable in the system by name.
    Var(String),
    /// A deterministic literal value (zero variance), as binary64 bits.
    Literal(u64),
    /// Addition of two expressions: `a + b`.
    Add(Box<Expr>, Box<Expr>),
    /// Propagate an expression forward in time by a time step (binary64 bits).
    Propagate(Box<Expr>, u64),
    /// Collapse an expression to a deterministic value.
    Collapse(Box<Expr>),
    /// `chaotic(mean, variance)`, both as binary64 bits.
    ChaoticConstructor(u64, u64),
    /// `let name = expr`.
    Let(String, Box<Expr>),
    /// A block of expressions evaluated in sequence.
    Block(Vec<Expr>),
}

impl Expr {
    /// `Expr::Var` with the given name.
    pub fn var(name: &str) -> (r: Self)
        ensures
            r matches Expr::Var(s) && s@ == name@,
    {
        Expr::Var(name.to_owned())
    }

    /// `Expr::Literal` with the given value.
    pub fn lit(value: u64) -> (r: Self)
        ensures
            r == Expr::Literal(value),
    {
        Expr::Literal(value)
    }

    /// `Expr::Add` of two expressions.
    pub fn add(left: Expr, right: Expr) -> (r: Self)
        ensures
            r == Expr::Add(Box::new(left), Box::new(right)),
    {
        Expr::Add(Box::new(left), Box::new(right))
    }

    /// `Expr::Propagate` of an expression by a time step.
    pub fn propagate(expr: Expr, time_step: u64) -> (r: Self)
        ensures
            r == Expr::Propagate(Box::new(expr), time_step),
    {
        Expr::Propagate(Box::new(expr), time_step)
    }

    /// `Expr::Collapse` of an expression.
    pub fn collapse(expr: Expr) -> (r: Self)
        ensures
            r == Expr::Collapse(Box::new(expr)),
    {
        Expr::Collapse(Box::new(expr))
    }

    /// `Expr::ChaoticConstructor` with the given mean and variance.
    pub fn chaotic(mean: u64, variance: u64) -> (r: Self)
        ensures
            r == Expr::ChaoticConstructor(mean, variance),
    {
        Expr::ChaoticConstructor(mean, variance)
    }

    /// `Expr::Let` binding a name to an expression.
    pub fn let_binding(name: &str, expr: Expr) -> (r: Self)
        ensures
            r matches Expr::Let(s, e) && s@ == name@ && *e == expr,
    {
        Expr::Let(name.to_owned(), Box::new(expr))
    }

    /// `Expr::Block` of a sequence of expressions.
    pub fn block(exprs: Vec<Expr>) -> (r: Self)
        ensures
            r == Expr::Block(exprs),
    {
        Expr::Block(exprs)
    }
}

/// Errors that can occur during expression evaluation.
#[derive(Debug, Clone, PartialEq, Eq)]
pub enum EvalError {
    /// A variable reference was not found in the system state.
    VarNotFound(String),
}

/// The message that reports an evaluation error.
pub open spec fn eval_error_text(e: EvalError) -> Seq<char> {
    match e {
        EvalError::VarNotFound(name) => "variable '"@ + name@ + "' not found in system state"@,
    }
}

impl EvalError {
    /// The message that reports this error.
    pub fn message(&self) -> (r: String)
        ensures
            r@ == eval_error_text(*self),
    {
        match self {
            EvalError::VarNotFound(name) => {
                let mut s = "variable '".to_owned();
                push_str(&mut s, name.as_str());
                push_str(&mut s, "' not found in system state");
                s
            },
        }
    }
}

} // verus!
