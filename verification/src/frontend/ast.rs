//! The syntax tree of a source file.
use crate::common::diagnostics::ErrorNode;
use crate::common::ids::SymbolId;
use crate::common::span::Span;
use vstd::prelude::*;

verus! {

#[derive(Clone, Copy, PartialEq, Eq, Debug, Structural)]
pub enum UnaryOp {
    Neg,
    Not,
}

#[derive(Clone, Copy, PartialEq, Eq, Debug, Structural)]
pub enum BinOp {
    Add,
    Sub,
    Mul,
    Div,
    Mod,
    Eq,
    Ne,
    Lt,
    Le,
    Gt,
    Ge,
    And,
    Or,
}

#[derive(Clone, Copy, PartialEq, Eq, Debug, Structural)]
pub enum StageMarker {
    Comptime,
    Runtime,
}

#[derive(Debug)]
pub struct Expr {
    pub kind: ExprKind,
    pub span: Span,
}

#[allow(inconsistent_fields)]
#[derive(Debug)]
pub enum ExprKind {
    Int(i64),
    Bool(bool),
    String(String),
    Var(SymbolId),
    Unary { op: UnaryOp, expr: Box<Expr> },
    Binary { op: BinOp, lhs: Box<Expr>, rhs: Box<Expr> },
    Call { callee: Box<Expr>, args: Vec<Expr> },
    If { cond: Box<Expr>, then_block: BlockExpr, else_block: Option<BlockExpr> },
    Block(BlockExpr),
    StageBlock { stage: StageMarker, block: BlockExpr },
    Handle { body: Box<Expr>, effect: SymbolId, clauses: Vec<HandlerClause> },
    Error(ErrorNode),
}

#[derive(Debug)]
pub struct BlockExpr {
    pub statements: Vec<Stmt>,
    pub tail: Option<Box<Expr>>,
    pub span: Span,
}

#[allow(inconsistent_fields)]
#[derive(Debug)]
pub enum Stmt {
    Let { name: SymbolId, value: Expr, span: Span },
    Expr { value: Expr, span: Span },
    Perform { effect: SymbolId, operation: SymbolId, args: Vec<Expr>, span: Span },
    Error(ErrorNode),
}

#[derive(Debug)]
pub struct HandlerClause {
    pub operation: SymbolId,
    pub params: Vec<SymbolId>,
    pub body: BlockExpr,
    pub span: Span,
}

#[derive(Clone, Copy, PartialEq, Eq, Debug, Structural)]
pub struct Param {
    pub name: SymbolId,
    pub span: Span,
}

#[derive(Debug)]
pub struct FunctionItem {
    pub name: SymbolId,
    pub params: Vec<Param>,
    pub effects: Vec<SymbolId>,
    pub body: BlockExpr,
    pub span: Span,
}

#[derive(Debug)]
pub struct EffectOperation {
    pub name: SymbolId,
    pub params: Vec<Param>,
    pub span: Span,
}

#[derive(Debug)]
pub struct EffectItem {
    pub name: SymbolId,
    pub operations: Vec<EffectOperation>,
    pub span: Span,
}

#[derive(Debug)]
pub struct StructItem {
    pub name: SymbolId,
    pub fields: Vec<Param>,
    pub span: Span,
}

#[derive(Debug)]
pub struct VariantItem {
    pub name: SymbolId,
    pub fields: Vec<Param>,
    pub span: Span,
}

#[derive(Debug)]
pub struct EnumItem {
    pub name: SymbolId,
    pub variants: Vec<VariantItem>,
    pub span: Span,
}

#[derive(Debug)]
pub enum Item {
    Function(FunctionItem),
    Effect(EffectItem),
    Struct(StructItem),
    Enum(EnumItem),
    Error(ErrorNode),
}

#[derive(Debug)]
pub struct Program {
    pub items: Vec<Item>,
}

} // verus!
