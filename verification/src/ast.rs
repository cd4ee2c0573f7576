//! Abstract syntax of the source language: lifetimes, types, expressions,
//! statements and functions, with their mathematical views.

use vstd::prelude::*;

verus! {

/// A lifetime: the static one, or the lexical scope that owns a borrow.
#[derive(Debug, Clone, Copy, PartialEq, Eq, Hash)]
pub enum Lifetime {
    Static,
    Lexical(usize),
}

/// Types of the language. Scalars are `Copy`; `Owned` and `MutRef` are affine
/// (moved on use); `RawPtr` is only usable inside `unsafe`.
#[derive(Debug, PartialEq, Eq)]
pub enum Type {
    U8,
    U32,
    U64,
    Bool,
    Owned(Box<Type>),
    Ref(Lifetime, Box<Type>),
    MutRef(Lifetime, Box<Type>),
    RawPtr(Box<Type>),
}

/// Affine types are those whose values are moved, not copied.
pub open spec fn type_is_affine(t: Type) -> bool {
    t is Owned || t is MutRef
}

impl Type {
    /// Whether values of this type obey move semantics.
    pub fn is_affine(&self) -> (r: bool)
        ensures
            r == type_is_affine(*self),
    {
        match self {
            Type::Owned(_) | Type::MutRef(_, _) => true,
            Type::Ref(_, _) | Type::RawPtr(_) | Type::U8 | Type::U32 | Type::U64 | Type::Bool => false,
        }
    }

    /// A structural copy of the type.
    pub fn copy_type(&self) -> (r: Type)
        ensures
            r == *self,
        decreases self,
    {
        match self {
            Type::U8 => Type::U8,
            Type::U32 => Type::U32,
            Type::U64 => Type::U64,
            Type::Bool => Type::Bool,
            Type::Owned(inner) => Type::Owned(Box::new(inner.copy_type())),
            Type::Ref(l, inner) => Type::Ref(*l, Box::new(inner.copy_type())),
            Type::MutRef(l, inner) => Type::MutRef(*l, Box::new(inner.copy_type())),
            Type::RawPtr(inner) => Type::RawPtr(Box::new(inner.copy_type())),
        }
    }
}

impl Clone for Type {
    fn clone(&self) -> (r: Type)
        ensures
            r == *self,
    {
        self.copy_type()
    }
}

/// Expressions.
#[derive(Debug)]
pub enum Expr {
    LiteralInt(u64),
    LiteralBool(bool),
    Variable(String),
    Move(String),
    Borrow(String),
    BorrowMut(String),
    Deref(Box<Expr>),
    Add(Box<Expr>, Box<Expr>),
}

/// The mathematical value of an expression: names as character sequences.
pub enum ExprV {
    LiteralInt(u64),
    LiteralBool(bool),
    Variable(Seq<char>),
    Move(Seq<char>),
    Borrow(Seq<char>),
    BorrowMut(Seq<char>),
    Deref(Box<ExprV>),
    Add(Box<ExprV>, Box<ExprV>),
}

pub open spec fn expr_view(e: Expr) -> ExprV
    decreases e,
{
    match e {
        Expr::LiteralInt(v) => ExprV::LiteralInt(v),
        Expr::LiteralBool(b) => ExprV::LiteralBool(b),
        Expr::Variable(n) => ExprV::Variable(n@),
        Expr::Move(n) => ExprV::Move(n@),
        Expr::Borrow(n) => ExprV::Borrow(n@),
        Expr::BorrowMut(n) => ExprV::BorrowMut(n@),
        Expr::Deref(inner) => ExprV::Deref(Box::new(expr_view(*inner))),
        Expr::Add(l, r) => ExprV::Add(Box::new(expr_view(*l)), Box::new(expr_view(*r))),
    }
}

impl View for Expr {
    type V = ExprV;

    open spec fn view(&self) -> ExprV {
        expr_view(*self)
    }
}

impl Expr {
    /// A copy of the expression with the same view.
    pub fn copy_expr(&self) -> (r: Expr)
        ensures
            r@ == self@,
        decreases self,
    {
        match self {
            Expr::LiteralInt(v) => Expr::LiteralInt(*v),
            Expr::LiteralBool(b) => Expr::LiteralBool(*b),
            Expr::Variable(n) => Expr::Variable(n.clone()),
            Expr::Move(n) => Expr::Move(n.clone()),
            Expr::Borrow(n) => Expr::Borrow(n.clone()),
            Expr::BorrowMut(n) => Expr::BorrowMut(n.clone()),
            Expr::Deref(inner) => Expr::Deref(Box::new(inner.copy_expr())),
            Expr::Add(l, r) => Expr::Add(Box::new(l.copy_expr()), Box::new(r.copy_expr())),
        }
    }
}

impl Clone for Expr {
    fn clone(&self) -> (r: Expr)
        ensures
            r@ == self@,
    {
        self.copy_expr()
    }
}

/// Statements. `SyntheticDrop` is never written by the programmer: the borrow
/// checker inserts it where an affine resource dies.
#[derive(Debug)]
pub enum Stmt {
    Let(String, Type, Expr),
    Assign(Expr, Expr),
    Block(Vec<Stmt>),
    UnsafeBlock(Vec<Stmt>),
    SyntheticDrop(String),
    Return(Expr),
}

/// The mathematical value of a statement.
pub enum StmtV {
    Let(Seq<char>, Type, ExprV),
    Assign(ExprV, ExprV),
    Block(Seq<StmtV>),
    UnsafeBlock(Seq<StmtV>),
    SyntheticDrop(Seq<char>),
    Return(ExprV),
}

pub open spec fn stmt_view(s: Stmt) -> StmtV
    decreases s,
{
    match s {
        Stmt::Let(n, t, e) => StmtV::Let(n@, t, e@),
        Stmt::Assign(l, r) => StmtV::Assign(l@, r@),
        Stmt::Block(v) => StmtV::Block(stmts_view(v@)),
        Stmt::UnsafeBlock(v) => StmtV::UnsafeBlock(stmts_view(v@)),
        Stmt::SyntheticDrop(n) => StmtV::SyntheticDrop(n@),
        Stmt::Return(e) => StmtV::Return(e@),
    }
}

impl View for Stmt {
    type V = StmtV;

    open spec fn view(&self) -> StmtV {
        stmt_view(*self)
    }
}

/// The views of a sequence of statements.
pub open spec fn stmts_view(v: Seq<Stmt>) -> Seq<StmtV>
    decreases v,
{
    Seq::new(v.len(), |i: int| if 0 <= i < v.len() { stmt_view(v[i]) } else { StmtV::Block(seq![]) })
}

impl Stmt {
    /// A copy of the statement with the same view.
    pub fn copy_stmt(&self) -> (r: Stmt)
        ensures
            r@ == self@,
        decreases self,
    {
        match self {
            Stmt::Let(n, t, e) => Stmt::Let(n.clone(), t.copy_type(), e.copy_expr()),
            Stmt::Assign(l, r) => Stmt::Assign(l.copy_expr(), r.copy_expr()),
            Stmt::Block(v) => {
                let c = copy_stmts(v);
                Stmt::Block(c)
            },
            Stmt::UnsafeBlock(v) => {
                let c = copy_stmts(v);
                Stmt::UnsafeBlock(c)
            },
            Stmt::SyntheticDrop(n) => Stmt::SyntheticDrop(n.clone()),
            Stmt::Return(e) => Stmt::Return(e.copy_expr()),
        }
    }
}

/// Copies a list of statements, keeping each view.
pub fn copy_stmts(v: &Vec<Stmt>) -> (r: Vec<Stmt>)
    ensures
        stmts_view(r@) == stmts_view(v@),
    decreases v,
{
    let mut r: Vec<Stmt> = Vec::new();
    let mut i: usize = 0;
    while i < v.len()
        invariant
            i <= v.len(),
            r@.len() == i,
            forall|k: int| 0 <= k < i ==> r@[k]@ == v@[k]@,
        decreases v.len() - i,
    {
        r.push(v[i].copy_stmt());
        i += 1;
    }
    assert(stmts_view(r@) =~= stmts_view(v@));
    r
}

impl Clone for Stmt {
    fn clone(&self) -> (r: Stmt)
        ensures
            r@ == self@,
    {
        self.copy_stmt()
    }
}

/// A function definition.
#[derive(Debug, Clone)]
pub struct Function {
    pub name: String,
    pub args: Vec<(String, Type)>,
    pub return_type: Type,
    pub body: Stmt,
}

} // verus!
