//! Syntax tree of the circuit-description language, as the front end hands
//! it to lowering.
use vstd::prelude::*;
use crate::op::{BinOp, UnaryOp};

verus! {

/// One `mod name(arg, ...) { ... }` declaration.
#[derive(Debug)]
pub struct Module {
    pub name: String,
    pub arg_names: Vec<String>,
    pub stmts: Vec<Statement>,
}

/// A statement of a module body.
#[derive(Debug)]
pub enum Statement {
    /// The closing brace of the body.
    Terminator,
    /// A lone `;`.
    Empty,
    /// `let name = expr;`
    VarBinding(Vec<String>, Expr),
    /// `output(expr, ...);`
    Output(Vec<Expr>),
}

/// An expression.
#[derive(Debug)]
pub enum Expr {
    Ident(String),
    Constant(i64),
    BinOp(Box<Expr>, BinOp, Box<Expr>),
    UnOp(UnaryOp, Box<Expr>),
    /// `if(cond, a)` or `if(cond, a, b)`.
    If(Box<Expr>, Box<Expr>, Option<Box<Expr>>),
    /// `match(x) { pattern => value, ... }`
    Match(Box<Expr>, Vec<(Expr, Expr)>),
}

} // verus!
