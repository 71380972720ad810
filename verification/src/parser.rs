//! The syntax tree of the language and its public parser.
use vstd::prelude::*;

use crate::zz_slop;

verus! {

/// An expression.
#[derive(Debug, PartialEq)]
pub enum Expr {
    Num(i64),
    Var(String),
    Lam(String, Box<Expr>),
    App(Box<Expr>, Box<Expr>),
    Add(Box<Expr>, Box<Expr>),
    Sub(Box<Expr>, Box<Expr>),
    Mul(Box<Expr>, Box<Expr>),
    Div(Box<Expr>, Box<Expr>),
}

/// A statement: a binding or an expression to evaluate.
#[derive(Debug, PartialEq)]
pub enum Stmt {
    Let(String, Expr),
    Eval(Expr),
}

/// The mathematical form of an [`Expr`], with names as character sequences.
pub enum SExpr {
    Num(i64),
    Var(Seq<char>),
    Lam(Seq<char>, Box<SExpr>),
    App(Box<SExpr>, Box<SExpr>),
    Add(Box<SExpr>, Box<SExpr>),
    Sub(Box<SExpr>, Box<SExpr>),
    Mul(Box<SExpr>, Box<SExpr>),
    Div(Box<SExpr>, Box<SExpr>),
}

/// The mathematical form of a [`Stmt`].
pub enum SStmt {
    Let(Seq<char>, SExpr),
    Eval(SExpr),
}

pub open spec fn expr_view(e: Expr) -> SExpr
    decreases e,
{
    match e {
        Expr::Num(v) => SExpr::Num(v),
        Expr::Var(n) => SExpr::Var(n@),
        Expr::Lam(p, b) => SExpr::Lam(p@, Box::new(expr_view(*b))),
        Expr::App(f, a) => SExpr::App(Box::new(expr_view(*f)), Box::new(expr_view(*a))),
        Expr::Add(l, r) => SExpr::Add(Box::new(expr_view(*l)), Box::new(expr_view(*r))),
        Expr::Sub(l, r) => SExpr::Sub(Box::new(expr_view(*l)), Box::new(expr_view(*r))),
        Expr::Mul(l, r) => SExpr::Mul(Box::new(expr_view(*l)), Box::new(expr_view(*r))),
        Expr::Div(l, r) => SExpr::Div(Box::new(expr_view(*l)), Box::new(expr_view(*r))),
    }
}

impl View for Expr {
    type V = SExpr;

    open spec fn view(&self) -> SExpr {
        expr_view(*self)
    }
}

impl View for Stmt {
    type V = SStmt;

    open spec fn view(&self) -> SStmt {
        match self {
            Stmt::Let(n, e) => SStmt::Let(n@, e@),
            Stmt::Eval(e) => SStmt::Eval(e@),
        }
    }
}

/// A copy of `e`, built node by node.
pub fn clone_expr(e: &Expr) -> (r: Expr)
    ensures
        r@ == e@,
    decreases e,
{
    match e {
        Expr::Num(v) => Expr::Num(*v),
        Expr::Var(n) => Expr::Var(n.clone()),
        Expr::Lam(p, b) => Expr::Lam(p.clone(), Box::new(clone_expr(b))),
        Expr::App(f, a) => Expr::App(Box::new(clone_expr(f)), Box::new(clone_expr(a))),
        Expr::Add(l, r) => Expr::Add(Box::new(clone_expr(l)), Box::new(clone_expr(r))),
        Expr::Sub(l, r) => Expr::Sub(Box::new(clone_expr(l)), Box::new(clone_expr(r))),
        Expr::Mul(l, r) => Expr::Mul(Box::new(clone_expr(l)), Box::new(clone_expr(r))),
        Expr::Div(l, r) => Expr::Div(Box::new(clone_expr(l)), Box::new(clone_expr(r))),
    }
}

impl Clone for Expr {
    fn clone(&self) -> (r: Self)
        ensures
            r@ == self@,
    {
        clone_expr(self)
    }
}

impl Clone for Stmt {
    fn clone(&self) -> (r: Self)
        ensures
            r@ == self@,
    {
        match self {
            Stmt::Let(n, e) => Stmt::Let(n.clone(), clone_expr(e)),
            Stmt::Eval(e) => Stmt::Eval(clone_expr(e)),
        }
    }
}

/// Parses one statement: `name = expression` or an expression, where
/// expressions are numbers, variables, lambdas `|x, y| body`, calls `f(a)`,
/// and the four arithmetic operators with the usual precedence, grouped to
/// the left. Every failure is a `"syntax error"`.
pub fn parse(input: &str) -> (r: Result<Stmt, &'static str>)
    ensures
        match r {
            Ok(st) => zz_slop::parser::parse_spec(input@) == Some(st@),
            Err(e) => zz_slop::parser::parse_spec(input@) is None
                && e@ == zz_slop::parser::syntax_error(),
        },
{
    zz_slop::parser::parse(input)
}

} // verus!
