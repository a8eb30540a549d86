//! The syntax tree that the parser produces and the lowering pass reads.
use vstd::prelude::*;

verus! {

/// A parsed module: its functions, in source order.
#[derive(Debug)]
pub struct Module {
    pub items: Vec<Item>,
}

/// A function: name, generic parameters, parameters, return type and body.
#[derive(Debug)]
pub struct Item {
    pub name: String,
    pub ty_params: Vec<TyParam>,
    pub params: Vec<Param>,
    pub ret_ty: Type,
    pub body: Expr,
}

/// A function parameter with its declared type.
#[derive(Debug)]
pub struct Param {
    pub name: String,
    pub ty: Type,
}

/// A generic parameter: a lifetime or a type.
#[derive(Debug)]
pub enum TyParam {
    Lifetime(String),
    Type(String),
}

/// A type as written; descriptive only, lowering does not read it.
#[derive(Debug)]
pub enum Type {
    Ref { lifetime: String, ty: Box<Type> },
    Named(String),
}

/// The kind of a borrow.
#[derive(Debug, Clone, Copy)]
pub enum Ref {
    Ref,
    Mut,
}

/// An expression.
#[derive(Debug)]
pub enum Expr {
    Unit,
    Block(Vec<Expr>),
    Stmt(Box<Expr>),
    Let { name: String, init: Box<Expr> },
    Var(String),
    Ref(Ref, Box<Expr>),
    App { func: Box<Expr>, args: Vec<Expr> },
    If { cond: Box<Expr>, yes: Box<Expr>, no: Option<Box<Expr>> },
    While { cond: Box<Expr>, body: Box<Expr> },
}

} // verus!
