//! From the syntax tree to the core program.
//!
//! Expressions stay pure; what performs effects becomes statements. Every
//! function is declared before any body is lowered, so that calls resolve
//! whatever the order of the source.
use crate::common::diagnostics::{DiagnosticBag, DiagnosticModel, ErrorModel};
use crate::common::ids::{
    EffectLabelId, ExprId, FuncId, HandlerId, StmtId, SymbolId, TypeId, VarId,
};
use crate::common::span::Span;
use crate::frontend::ast;
use crate::ir::core_ir::{
    AdtEnumDecl, AdtEnumVariantDecl, AdtStructDecl, BinaryOp, ClauseModel, CoreModel, CoreProgram,
    EnumModel, ExprKind, ExprModel, ExprNode, ExprNodeModel, FunctionDecl, FunctionModel,
    HandlerClause, HandlerDef, HandlerModel, Literal, LiteralModel, StageDirective, StmtKind, StmtModel, StmtNode,
    StmtNodeModel, UnaryOp,
};
use crate::sema::effect::SortedEffectRow;
use std::collections::{HashMap, HashSet};
use vstd::prelude::*;

verus! {

// ---------------------------------------------------------------------------
// Names in scope
// ---------------------------------------------------------------------------

/// How many arguments an operation of an effect takes.
#[derive(Clone, Copy, PartialEq, Eq, Debug, Structural)]
pub struct OperationArity {
    pub effect: EffectLabelId,
    pub operation: SymbolId,
    pub arity: usize,
}

/// What the names of a program stand for.
#[verifier::ext_equal]
pub struct LowerEnv {
    pub functions: Map<usize, FuncId>,
    /// The declared effects of each function.
    pub declared: Seq<Seq<EffectLabelId>>,
    pub effects: Map<usize, EffectLabelId>,
    pub operations: Seq<OperationArity>,
    pub structs: Map<usize, usize>,
    pub enums: Map<usize, (SymbolId, usize)>,
}

/// What the callee of a call stands for.
#[derive(Clone, Copy, PartialEq, Eq, Debug, Structural)]
pub enum CallTarget {
    /// A function without effects.
    Function(FuncId),
    /// A function that performs effects.
    Effectful(FuncId),
    /// A variant of an enum, with its number of fields.
    Variant(SymbolId, SymbolId, usize),
    /// A struct, with its number of fields.
    Struct(SymbolId, usize),
    /// A name that stands for none of these.
    Unknown,
    /// Something other than a name.
    Complex,
}

/// The variables in scope, by name.
pub type Locals = Map<usize, VarId>;

/// The arity of an operation, by its last declaration.
pub open spec fn operation_arity(
    operations: Seq<OperationArity>,
    effect: EffectLabelId,
    operation: SymbolId,
) -> Option<usize>
    decreases operations.len(),
{
    if operations.len() == 0 {
        None
    } else if operations.last().effect == effect && operations.last().operation == operation {
        Some(operations.last().arity)
    } else {
        operation_arity(operations.drop_last(), effect, operation)
    }
}

impl LowerEnv {
    pub open spec fn target(self, callee: ast::Expr) -> CallTarget {
        match callee.kind {
            ast::ExprKind::Var(name) => if self.functions.contains_key(name.0) {
                let f = self.functions[name.0];
                if f.0 < self.declared.len() && self.declared[f.0 as int].len() > 0 {
                    CallTarget::Effectful(f)
                } else {
                    CallTarget::Function(f)
                }
            } else if self.enums.contains_key(name.0) {
                CallTarget::Variant(self.enums[name.0].0, name, self.enums[name.0].1)
            } else if self.structs.contains_key(name.0) {
                CallTarget::Struct(name, self.structs[name.0])
            } else {
                CallTarget::Unknown
            },
            _ => CallTarget::Complex,
        }
    }

    pub open spec fn effect(self, name: SymbolId) -> EffectLabelId {
        if self.effects.contains_key(name.0) {
            self.effects[name.0]
        } else {
            EffectLabelId::invalid()
        }
    }

    /// Whether an expression becomes statements.
    pub open spec fn performs(self, e: ast::Expr) -> bool {
        match e.kind {
            ast::ExprKind::StageBlock { .. } => true,
            ast::ExprKind::Handle { .. } => true,
            ast::ExprKind::Call { callee, .. } => self.target(*callee) is Effectful,
            _ => false,
        }
    }
}

pub open spec fn unary_op(op: ast::UnaryOp) -> UnaryOp {
    match op {
        ast::UnaryOp::Neg => UnaryOp::Neg,
        ast::UnaryOp::Not => UnaryOp::Not,
    }
}

pub open spec fn binary_op(op: ast::BinOp) -> BinaryOp {
    match op {
        ast::BinOp::Add => BinaryOp::Add,
        ast::BinOp::Sub => BinaryOp::Sub,
        ast::BinOp::Mul => BinaryOp::Mul,
        ast::BinOp::Div => BinaryOp::Div,
        ast::BinOp::Mod => BinaryOp::Mod,
        ast::BinOp::Eq => BinaryOp::Eq,
        ast::BinOp::Ne => BinaryOp::Ne,
        ast::BinOp::Lt => BinaryOp::Lt,
        ast::BinOp::Le => BinaryOp::Le,
        ast::BinOp::Gt => BinaryOp::Gt,
        ast::BinOp::Ge => BinaryOp::Ge,
        ast::BinOp::And => BinaryOp::And,
        ast::BinOp::Or => BinaryOp::Or,
    }
}

pub open spec fn stage_directive(stage: ast::StageMarker) -> StageDirective {
    match stage {
        ast::StageMarker::Comptime => StageDirective::Comptime,
        ast::StageMarker::Runtime => StageDirective::Runtime,
    }
}

fn map_unary_op(op: ast::UnaryOp) -> (mapped: UnaryOp)
    ensures
        mapped == unary_op(op),
{
    match op {
        ast::UnaryOp::Neg => UnaryOp::Neg,
        ast::UnaryOp::Not => UnaryOp::Not,
    }
}

fn map_binary_op(op: ast::BinOp) -> (mapped: BinaryOp)
    ensures
        mapped == binary_op(op),
{
    match op {
        ast::BinOp::Add => BinaryOp::Add,
        ast::BinOp::Sub => BinaryOp::Sub,
        ast::BinOp::Mul => BinaryOp::Mul,
        ast::BinOp::Div => BinaryOp::Div,
        ast::BinOp::Mod => BinaryOp::Mod,
        ast::BinOp::Eq => BinaryOp::Eq,
        ast::BinOp::Ne => BinaryOp::Ne,
        ast::BinOp::Lt => BinaryOp::Lt,
        ast::BinOp::Le => BinaryOp::Le,
        ast::BinOp::Gt => BinaryOp::Gt,
        ast::BinOp::Ge => BinaryOp::Ge,
        ast::BinOp::And => BinaryOp::And,
        ast::BinOp::Or => BinaryOp::Or,
    }
}

fn map_stage_marker(stage: ast::StageMarker) -> (mapped: StageDirective)
    ensures
        mapped == stage_directive(stage),
{
    match stage {
        ast::StageMarker::Comptime => StageDirective::Comptime,
        ast::StageMarker::Runtime => StageDirective::Runtime,
    }
}

// ---------------------------------------------------------------------------
// Expressions
// ---------------------------------------------------------------------------

pub open spec fn unknown_var() -> Seq<char> {
    "Unknown variable during AST->Core lowering"@
}

pub open spec fn effectful_in_pure() -> Seq<char> {
    "Effectful call used where a pure expression is required in v0"@
}

pub open spec fn unknown_function() -> Seq<char> {
    "Unknown function call target during AST->Core lowering"@
}

pub open spec fn complex_callee() -> Seq<char> {
    "Only direct calls by function name are supported in v0 lowering"@
}

pub open spec fn unsupported() -> Seq<char> {
    "This expression form is parsed but not lowered yet in v0"@
}

/// A message that some count is not what was expected.
pub open spec fn mismatch(what: Seq<char>, expected: nat, got: nat) -> Seq<char> {
    what + " mismatch: expected "@ + crate::common::text::decimal(expected) + ", got "@
        + crate::common::text::decimal(got)
}

/// The error node for a message at an expression.
pub open spec fn error_at(message: Seq<char>, span: Span) -> ExprModel {
    ExprModel::Error(ErrorModel { message, span })
}

/// What the core expression for an expression of the tree says.
pub open spec fn expr_is(
    env: LowerEnv,
    core: CoreModel,
    locals: Locals,
    e: ast::Expr,
    id: ExprId,
) -> bool
    decreases e,
{
    let kind = core.expr(id);
    &&& core.has_expr(id)
    &&& core.exprs[id.0 as int].span == e.span
    &&& match e.kind {
        ast::ExprKind::Int(value) => kind == ExprModel::Literal(LiteralModel::Int(value)),
        ast::ExprKind::Bool(value) => kind == ExprModel::Literal(LiteralModel::Bool(value)),
        ast::ExprKind::String(value) => kind == ExprModel::Literal(LiteralModel::String(value@)),
        ast::ExprKind::Var(name) => kind == if locals.contains_key(name.0) {
            ExprModel::Var(locals[name.0])
        } else {
            error_at(unknown_var(), e.span)
        },
        ast::ExprKind::Unary { op, expr } => {
            &&& kind matches ExprModel::Unary { op: op2, expr: inner }
            &&& op2 == unary_op(op)
            &&& expr_is(env, core, locals, *expr, inner)
        },
        ast::ExprKind::Binary { op, lhs, rhs } => {
            &&& kind matches ExprModel::Binary { op: op2, lhs: l2, rhs: r2 }
            &&& op2 == binary_op(op)
            &&& expr_is(env, core, locals, *lhs, l2)
            &&& expr_is(env, core, locals, *rhs, r2)
        },
        ast::ExprKind::Call { callee, args } => match env.target(*callee) {
            CallTarget::Function(f) => {
                &&& kind matches ExprModel::PureCall { callee: c2, args: ids }
                &&& c2 == f
                &&& ids.len() == args@.len()
                &&& forall|i: int| #![trigger ids[i]]
                    0 <= i < args@.len() ==> expr_is(env, core, locals, args@[i], ids[i])
            },
            CallTarget::Variant(ty, variant, _) => {
                &&& kind matches ExprModel::MakeEnum { ty: t2, variant: v2, fields: ids }
                &&& t2 == ty
                &&& v2 == variant
                &&& ids.len() == args@.len()
                &&& forall|i: int| #![trigger ids[i]]
                    0 <= i < args@.len() ==> expr_is(env, core, locals, args@[i], ids[i])
            },
            CallTarget::Struct(ty, _) => {
                &&& kind matches ExprModel::MakeStruct { ty: t2, fields: ids }
                &&& t2 == ty
                &&& ids.len() == args@.len()
                &&& forall|i: int| #![trigger ids[i]]
                    0 <= i < args@.len() ==> expr_is(env, core, locals, args@[i], ids[i])
            },
            CallTarget::Effectful(_) => kind == error_at(effectful_in_pure(), e.span),
            CallTarget::Unknown => kind == error_at(unknown_function(), e.span),
            CallTarget::Complex => kind == error_at(complex_callee(), e.span),
        },
        ast::ExprKind::If { .. }
        | ast::ExprKind::Block(_)
        | ast::ExprKind::StageBlock { .. }
        | ast::ExprKind::Handle { .. } => kind == error_at(unsupported(), e.span),
        ast::ExprKind::Error(error) => kind == ExprModel::Error(error@),
    }
}

/// Core expressions say, in order, what some expressions of the tree say.
pub open spec fn exprs_are(
    env: LowerEnv,
    core: CoreModel,
    locals: Locals,
    es: Seq<ast::Expr>,
    ids: Seq<ExprId>,
) -> bool {
    &&& ids.len() == es.len()
    &&& forall|i: int| #![trigger ids[i]]
        0 <= i < es.len() ==> expr_is(env, core, locals, es[i], ids[i])
}

/// One error.
pub open spec fn one_error(code: Seq<char>, message: Seq<char>, span: Span) -> Seq<DiagnosticModel> {
    seq![DiagnosticModel::error(code, message, span)]
}

/// An error where two counts differ.
pub open spec fn arity_error(
    code: Seq<char>,
    what: Seq<char>,
    expected: usize,
    got: nat,
    span: Span,
) -> Seq<DiagnosticModel> {
    if expected == got {
        Seq::empty()
    } else {
        one_error(code, mismatch(what, expected as nat, got), span)
    }
}

/// What is reported of an expression where a pure one is wanted.
pub open spec fn expr_reports(env: LowerEnv, locals: Locals, e: ast::Expr) -> Seq<DiagnosticModel>
    decreases e, 0nat,
{
    match e.kind {
        ast::ExprKind::Int(_)
        | ast::ExprKind::Bool(_)
        | ast::ExprKind::String(_)
        | ast::ExprKind::Error(_) => Seq::empty(),
        ast::ExprKind::Var(name) => if locals.contains_key(name.0) {
            Seq::empty()
        } else {
            one_error("LOWER_UNKNOWN_VAR"@, unknown_var(), e.span)
        },
        ast::ExprKind::Unary { expr, .. } => expr_reports(env, locals, *expr),
        ast::ExprKind::Binary { lhs, rhs, .. } => expr_reports(env, locals, *lhs) + expr_reports(
            env,
            locals,
            *rhs,
        ),
        ast::ExprKind::Call { callee, args } => match env.target(*callee) {
            CallTarget::Function(_) => exprs_reports(env, locals, args@, args@.len()),
            CallTarget::Variant(_, _, expected) => arity_error(
                "LOWER_BAD_ENUM_CTOR_ARITY"@,
                "Enum constructor argument count"@,
                expected,
                args@.len(),
                e.span,
            ) + exprs_reports(env, locals, args@, args@.len()),
            CallTarget::Struct(_, expected) => arity_error(
                "LOWER_BAD_STRUCT_CTOR_ARITY"@,
                "Struct constructor argument count"@,
                expected,
                args@.len(),
                e.span,
            ) + exprs_reports(env, locals, args@, args@.len()),
            CallTarget::Effectful(_) => one_error(
                "LOWER_EFFECTFUL_CALL_PURE_CTX"@,
                effectful_in_pure(),
                e.span,
            ),
            CallTarget::Unknown => one_error("LOWER_UNKNOWN_FUNC"@, unknown_function(), e.span),
            CallTarget::Complex => one_error("LOWER_COMPLEX_CALLEE"@, complex_callee(), e.span),
        },
        ast::ExprKind::If { .. }
        | ast::ExprKind::Block(_)
        | ast::ExprKind::StageBlock { .. }
        | ast::ExprKind::Handle { .. } => one_error(
            "LOWER_EXPR_UNSUPPORTED"@,
            unsupported(),
            e.span,
        ),
    }
}

/// What is reported of the first of some expressions.
pub open spec fn exprs_reports(
    env: LowerEnv,
    locals: Locals,
    es: Seq<ast::Expr>,
    first: nat,
) -> Seq<DiagnosticModel>
    decreases es, first,
    when first <= es.len()
{
    if first == 0 {
        Seq::empty()
    } else {
        exprs_reports(env, locals, es, (first - 1) as nat) + expr_reports(
            env,
            locals,
            es[first - 1],
        )
    }
}

// ---------------------------------------------------------------------------
// How many variables are introduced
// ---------------------------------------------------------------------------

/// The variable introduced after some others.
pub open spec fn var_at(count: nat) -> VarId {
    VarId(count as usize)
}

/// The variables of a block.
pub open spec fn block_vars(env: LowerEnv, block: ast::BlockExpr) -> nat
    decreases block, 1nat, 0nat,
{
    vars_before(env, block, block.statements@.len()) + match block.tail {
        Some(tail) => if env.performs(*tail) {
            performed_vars(env, *tail) + 1
        } else {
            0
        },
        None => 0,
    }
}

/// The variables of the first statements of a block.
pub open spec fn vars_before(env: LowerEnv, block: ast::BlockExpr, first: nat) -> nat
    decreases block, 0nat, first,
    when first <= block.statements@.len()
{
    if first == 0 {
        0
    } else {
        vars_before(env, block, (first - 1) as nat) + stmt_vars(env, block.statements@[first - 1])
    }
}

/// The variables of a statement.
pub open spec fn stmt_vars(env: LowerEnv, stmt: ast::Stmt) -> nat
    decreases stmt, 0nat, 0nat,
{
    match stmt {
        ast::Stmt::Let { value, .. } => 1 + value_vars(env, value),
        ast::Stmt::Expr { value, .. } => 1 + value_vars(env, value),
        ast::Stmt::Perform { .. } => 0,
        ast::Stmt::Error(_) => 1,
    }
}

/// The variables of a value that is bound.
pub open spec fn value_vars(env: LowerEnv, e: ast::Expr) -> nat
    decreases e, 2nat, 0nat,
{
    if env.performs(e) {
        performed_vars(env, e)
    } else {
        0
    }
}

/// The variables of an expression that becomes statements.
pub open spec fn performed_vars(env: LowerEnv, e: ast::Expr) -> nat
    decreases e, 1nat, 0nat,
{
    match e.kind {
        ast::ExprKind::StageBlock { block, .. } => block_vars(env, block),
        ast::ExprKind::Call { .. } => 1,
        ast::ExprKind::Handle { body, clauses, .. } => 1 + clause_vars(env, e, clauses@.len())
            + handled_vars(env, *body),
        _ => 0,
    }
}

/// The variables of the first clauses of a handler.
pub open spec fn clause_vars(env: LowerEnv, e: ast::Expr, first: nat) -> nat
    decreases e, 0nat, first,
    when e.kind is Handle && first <= e.kind->clauses@.len()
{
    if first == 0 {
        0
    } else {
        let clause = e.kind->clauses@[first - 1];
        clause_vars(env, e, (first - 1) as nat) + clause.params@.len() + block_vars(
            env,
            clause.body,
        )
    }
}

/// The variables of the body of a handler.
pub open spec fn handled_vars(env: LowerEnv, e: ast::Expr) -> nat
    decreases e, 2nat, 0nat,
{
    if env.performs(e) {
        performed_vars(env, e)
    } else {
        match e.kind {
            ast::ExprKind::Block(block) => block_vars(env, block),
            _ => 0,
        }
    }
}

// ---------------------------------------------------------------------------
// Blocks and what performs effects
// ---------------------------------------------------------------------------

/// The variables in scope at a statement of a block whose own variables are
/// numbered from `base`.
pub open spec fn locals_before(
    env: LowerEnv,
    block: ast::BlockExpr,
    locals: Locals,
    base: nat,
    first: nat,
) -> Locals
    decreases first,
{
    if first == 0 {
        locals
    } else {
        let before = locals_before(env, block, locals, base, (first - 1) as nat);
        match block.statements@[first - 1] {
            ast::Stmt::Let { name, .. } => before.insert(
                name.0,
                var_at(base + vars_before(env, block, (first - 1) as nat)),
            ),
            _ => before,
        }
    }
}

/// Variables in a row.
pub open spec fn vars_from(base: nat, count: nat) -> Seq<VarId> {
    Seq::new(count, |i: int| var_at(base + i as nat))
}

/// Names bound, in order, to variables in a row.
pub open spec fn bind_from(locals: Locals, names: Seq<SymbolId>, base: nat, first: nat) -> Locals
    decreases first,
{
    if first == 0 {
        locals
    } else {
        bind_from(locals, names, base, (first - 1) as nat).insert(
            names[first - 1].0,
            var_at(base + (first - 1) as nat),
        )
    }
}

/// A statement that returns a variable and does nothing else.
pub open spec fn returns_var(core: CoreModel, id: StmtId, var: VarId, span: Span) -> bool {
    &&& core.has_stmt(id)
    &&& core.stmt_span(id) == span
    &&& core.stmt(id) matches StmtModel::Return(e)
    &&& core.has_expr(e)
    &&& core.exprs[e.0 as int] == (ExprNodeModel { span, kind: ExprModel::Var(var) })
}

/// What comes after a statement of a block.
pub open spec fn next_of(kind: StmtModel) -> StmtId {
    match kind {
        StmtModel::Let { next, .. } => next,
        StmtModel::Val { next, .. } => next,
        StmtModel::Perform { next, .. } => next,
        _ => StmtId::invalid(),
    }
}

/// What the core statement for a block says, where the block's own variables
/// are numbered from `base`.
pub open spec fn block_is(
    env: LowerEnv,
    core: CoreModel,
    locals: Locals,
    block: ast::BlockExpr,
    base: nat,
    id: StmtId,
) -> bool
    decreases block, 1nat, 0nat,
{
    block_from(env, core, locals, block, base, 0, id)
}

/// What the core statement for a block from one of its statements on says.
pub open spec fn block_from(
    env: LowerEnv,
    core: CoreModel,
    locals: Locals,
    block: ast::BlockExpr,
    base: nat,
    at: nat,
    id: StmtId,
) -> bool
    decreases block, 0nat, block.statements@.len() - at,
{
    let here = locals_before(env, block, locals, base, at);
    let count = base + vars_before(env, block, at);
    &&& core.has_stmt(id)
    &&& if at < block.statements@.len() {
        &&& step_is(env, core, here, block.statements@[at as int], count, core.stmts[id.0 as int])
        &&& block_from(env, core, locals, block, base, at + 1, next_of(core.stmt(id)))
    } else {
        match block.tail {
            Some(tail) => if env.performs(*tail) {
                let result = var_at(count + performed_vars(env, *tail));
                &&& core.stmt_span(id) == tail.span
                &&& core.stmt(id) matches StmtModel::Val { binding, value, next }
                &&& binding == result
                &&& performed_is(env, core, here, *tail, count, value)
                &&& returns_var(core, next, result, tail.span)
            } else {
                &&& core.stmt_span(id) == block.span
                &&& core.stmt(id) matches StmtModel::Return(value)
                &&& expr_is(env, core, here, *tail, value)
            },
            None => {
                &&& core.stmt_span(id) == block.span
                &&& core.stmt(id) matches StmtModel::Return(value)
                &&& core.has_expr(value)
                &&& core.exprs[value.0 as int] == (ExprNodeModel {
                    span: block.span,
                    kind: ExprModel::Literal(LiteralModel::Unit),
                })
            },
        }
    }
}

/// What the core statement for a statement says, but for what comes after.
pub open spec fn step_is(
    env: LowerEnv,
    core: CoreModel,
    here: Locals,
    stmt: ast::Stmt,
    count: nat,
    node: StmtNodeModel,
) -> bool
    decreases stmt, 0nat, 0nat,
{
    match stmt {
        ast::Stmt::Let { value, span, .. } => {
            &&& node.span == span
            &&& binds(env, core, here, value, count, node.kind)
        },
        ast::Stmt::Expr { value, span } => {
            &&& node.span == span
            &&& binds(env, core, here, value, count, node.kind)
        },
        ast::Stmt::Perform { effect, operation, args, span } => {
            &&& node.span == span
            &&& node.kind matches StmtModel::Perform {
                result,
                effect: e2,
                operation: o2,
                args: ids,
                ..
            }
            &&& result is None
            &&& e2 == env.effect(effect)
            &&& o2 == operation
            &&& exprs_are(env, core, here, args@, ids)
        },
        ast::Stmt::Error(error) => {
            &&& node.span == error.span
            &&& node.kind matches StmtModel::Let { binding, value, .. }
            &&& binding == var_at(count)
            &&& core.has_expr(value)
            &&& core.exprs[value.0 as int] == (ExprNodeModel {
                span: error.span,
                kind: ExprModel::Error(error@),
            })
        },
    }
}

/// What the core statement that binds a value to a fresh variable says.
pub open spec fn binds(
    env: LowerEnv,
    core: CoreModel,
    here: Locals,
    value: ast::Expr,
    count: nat,
    kind: StmtModel,
) -> bool
    decreases value, 2nat, 0nat,
{
    if env.performs(value) {
        &&& kind matches StmtModel::Val { binding, value: v2, .. }
        &&& binding == var_at(count)
        &&& performed_is(env, core, here, value, count + 1, v2)
    } else {
        &&& kind matches StmtModel::Let { binding, value: v2, .. }
        &&& binding == var_at(count)
        &&& expr_is(env, core, here, value, v2)
    }
}

/// What the core statement for an expression that performs effects says.
pub open spec fn performed_is(
    env: LowerEnv,
    core: CoreModel,
    here: Locals,
    e: ast::Expr,
    count: nat,
    id: StmtId,
) -> bool
    decreases e, 1nat, 0nat,
{
    &&& core.has_stmt(id)
    &&& core.stmt_span(id) == e.span
    &&& match e.kind {
        ast::ExprKind::StageBlock { stage, block } => {
            &&& core.stmt(id) matches StmtModel::Stage { stage: s2, body, next }
            &&& s2 == stage_directive(stage)
            &&& next is None
            &&& block_is(env, core, here, block, count, body)
        },
        ast::ExprKind::Call { callee, args } => {
            &&& env.target(*callee) matches CallTarget::Effectful(f)
            &&& core.stmt(id) matches StmtModel::Call {
                result,
                callee: c2,
                args: ids,
                effects,
                next,
            }
            &&& result == var_at(count)
            &&& c2 == f
            &&& exprs_are(env, core, here, args@, ids)
            &&& effects == env.declared[f.0 as int]
            &&& returns_var(core, next, result, e.span)
        },
        ast::ExprKind::Handle { body, effect, clauses } => {
            &&& core.stmt(id) matches StmtModel::Handle { handler, body: b2, next }
            &&& next is None
            &&& core.has_handler(handler)
            &&& core.handler(handler).effect == env.effect(effect)
            &&& core.handler(handler).return_param == var_at(count)
            &&& returns_var(core, core.handler(handler).return_body, var_at(count), e.span)
            &&& core.handler(handler).span == e.span
            &&& core.handler(handler).clauses.len() == clauses@.len()
            &&& forall|i: int| #![trigger core.handler(handler).clauses[i]]
                0 <= i < clauses@.len() ==> clause_is(
                    env,
                    core,
                    here,
                    e,
                    count + 1,
                    i,
                    core.handler(handler).clauses[i],
                )
            &&& handled_is(
                env,
                core,
                here,
                *body,
                count + 1 + clause_vars(env, e, clauses@.len()),
                b2,
            )
        },
        _ => false,
    }
}

/// What a clause of a core handler says.
pub open spec fn clause_is(
    env: LowerEnv,
    core: CoreModel,
    here: Locals,
    e: ast::Expr,
    count: nat,
    i: int,
    clause: ClauseModel,
) -> bool
    decreases e, 0nat, 0nat,
    when e.kind is Handle && 0 <= i < e.kind->clauses@.len()
{
    let source = e.kind->clauses@[i];
    let base = count + clause_vars(env, e, i as nat);
    &&& clause.operation == source.operation
    &&& clause.params == vars_from(base, source.params@.len())
    &&& clause.resume_param is None
    &&& clause.span == source.span
    &&& block_is(
        env,
        core,
        bind_from(here, source.params@, base, source.params@.len()),
        source.body,
        base + source.params@.len(),
        clause.body,
    )
}

/// What the core statement for the body of a handler says.
pub open spec fn handled_is(
    env: LowerEnv,
    core: CoreModel,
    here: Locals,
    e: ast::Expr,
    count: nat,
    id: StmtId,
) -> bool
    decreases e, 2nat, 0nat,
{
    if env.performs(e) {
        performed_is(env, core, here, e, count, id)
    } else {
        match e.kind {
            ast::ExprKind::Block(block) => block_is(env, core, here, block, count, id),
            _ => {
                &&& core.has_stmt(id)
                &&& core.stmt_span(id) == e.span
                &&& core.stmt(id) matches StmtModel::Return(value)
                &&& expr_is(env, core, here, e, value)
            },
        }
    }
}

// ---------------------------------------------------------------------------
// What is reported of them
// ---------------------------------------------------------------------------

/// An error where an operation is not one of the effect, or takes another
/// number of arguments. An unknown effect is reported elsewhere.
pub open spec fn operation_reports(
    env: LowerEnv,
    effect: EffectLabelId,
    operation: SymbolId,
    got: nat,
    arity_code: Seq<char>,
    arity_what: Seq<char>,
    unknown_code: Seq<char>,
    unknown: Seq<char>,
    span: Span,
) -> Seq<DiagnosticModel> {
    if effect == EffectLabelId::invalid() {
        Seq::empty()
    } else {
        match operation_arity(env.operations, effect, operation) {
            Some(expected) => arity_error(arity_code, arity_what, expected, got, span),
            None => one_error(unknown_code, unknown, span),
        }
    }
}

/// An error where an effect is not known.
pub open spec fn effect_reports(
    env: LowerEnv,
    effect: SymbolId,
    code: Seq<char>,
    message: Seq<char>,
    span: Span,
) -> Seq<DiagnosticModel> {
    if env.effects.contains_key(effect.0) {
        Seq::empty()
    } else {
        one_error(code, message, span)
    }
}

/// What is reported of a block.
pub open spec fn block_reports(
    env: LowerEnv,
    locals: Locals,
    block: ast::BlockExpr,
    base: nat,
) -> Seq<DiagnosticModel>
    decreases block, 1nat, 0nat,
{
    let n = block.statements@.len();
    steps_reports(env, locals, block, base, n) + match block.tail {
        Some(tail) => value_reports(
            env,
            locals_before(env, block, locals, base, n),
            *tail,
            base + vars_before(env, block, n),
        ),
        None => Seq::empty(),
    }
}

/// What is reported of the first statements of a block.
pub open spec fn steps_reports(
    env: LowerEnv,
    locals: Locals,
    block: ast::BlockExpr,
    base: nat,
    first: nat,
) -> Seq<DiagnosticModel>
    decreases block, 0nat, first,
    when first <= block.statements@.len()
{
    if first == 0 {
        Seq::empty()
    } else {
        let at = (first - 1) as nat;
        steps_reports(env, locals, block, base, at) + step_reports(
            env,
            locals_before(env, block, locals, base, at),
            block.statements@[at as int],
            base + vars_before(env, block, at),
        )
    }
}

/// What is reported of a statement.
pub open spec fn step_reports(
    env: LowerEnv,
    here: Locals,
    stmt: ast::Stmt,
    count: nat,
) -> Seq<DiagnosticModel>
    decreases stmt, 0nat, 0nat,
{
    match stmt {
        ast::Stmt::Let { value, .. } => value_reports(env, here, value, count + 1),
        ast::Stmt::Expr { value, .. } => value_reports(env, here, value, count + 1),
        ast::Stmt::Perform { effect, operation, args, span } => effect_reports(
            env,
            effect,
            "LOWER_UNKNOWN_EFFECT"@,
            "Unknown effect in `do` statement during AST->Core lowering"@,
            span,
        ) + operation_reports(
            env,
            env.effect(effect),
            operation,
            args@.len(),
            "LOWER_BAD_EFFECT_OP_ARITY"@,
            "Effect operation argument count"@,
            "LOWER_UNKNOWN_EFFECT_OP"@,
            "Unknown operation for this effect in `do` statement"@,
            span,
        ) + exprs_reports(env, here, args@, args@.len()),
        ast::Stmt::Error(_) => Seq::empty(),
    }
}

/// What is reported of a value that is bound.
pub open spec fn value_reports(
    env: LowerEnv,
    here: Locals,
    e: ast::Expr,
    count: nat,
) -> Seq<DiagnosticModel>
    decreases e, 2nat, 0nat,
{
    if env.performs(e) {
        performed_reports(env, here, e, count)
    } else {
        expr_reports(env, here, e)
    }
}

/// What is reported of an expression that performs effects.
pub open spec fn performed_reports(
    env: LowerEnv,
    here: Locals,
    e: ast::Expr,
    count: nat,
) -> Seq<DiagnosticModel>
    decreases e, 1nat, 0nat,
{
    match e.kind {
        ast::ExprKind::StageBlock { block, .. } => block_reports(env, here, block, count),
        ast::ExprKind::Call { args, .. } => exprs_reports(env, here, args@, args@.len()),
        ast::ExprKind::Handle { body, effect, clauses } => effect_reports(
            env,
            effect,
            "LOWER_UNKNOWN_HANDLER_EFFECT"@,
            "Unknown effect in `handle` expression during AST->Core lowering"@,
            e.span,
        ) + clauses_reports(env, here, e, count + 1, clauses@.len()) + handled_reports(
            env,
            here,
            *body,
            count + 1 + clause_vars(env, e, clauses@.len()),
        ),
        _ => Seq::empty(),
    }
}

/// Whether an earlier clause handles the same operation.
pub open spec fn repeats(clauses: Seq<ast::HandlerClause>, i: int) -> bool {
    exists|j: int| 0 <= j < i && (#[trigger] clauses[j]).operation == clauses[i].operation
}

/// What is reported of the first clauses of a handler.
pub open spec fn clauses_reports(
    env: LowerEnv,
    here: Locals,
    e: ast::Expr,
    count: nat,
    first: nat,
) -> Seq<DiagnosticModel>
    decreases e, 0nat, first,
    when e.kind is Handle && first <= e.kind->clauses@.len()
{
    if first == 0 {
        Seq::empty()
    } else {
        let at = (first - 1) as nat;
        let clause = e.kind->clauses@[at as int];
        let base = count + clause_vars(env, e, at);
        clauses_reports(env, here, e, count, at) + (if repeats(e.kind->clauses@, at as int) {
            one_error(
                "LOWER_DUP_HANDLER_CLAUSE"@,
                "Duplicate handler clause for operation"@,
                clause.span,
            )
        } else {
            Seq::empty()
        }) + operation_reports(
            env,
            env.effect(e.kind->Handle_effect),
            clause.operation,
            clause.params@.len(),
            "LOWER_BAD_HANDLER_CLAUSE_ARITY"@,
            "Handler clause parameter count"@,
            "LOWER_UNKNOWN_HANDLER_OP"@,
            "Unknown operation in handler clause for this effect"@,
            clause.span,
        ) + block_reports(
            env,
            bind_from(here, clause.params@, base, clause.params@.len()),
            clause.body,
            base + clause.params@.len(),
        )
    }
}

/// What is reported of the body of a handler.
pub open spec fn handled_reports(
    env: LowerEnv,
    here: Locals,
    e: ast::Expr,
    count: nat,
) -> Seq<DiagnosticModel>
    decreases e, 2nat, 0nat,
{
    if env.performs(e) {
        performed_reports(env, here, e, count)
    } else {
        match e.kind {
            ast::ExprKind::Block(block) => block_reports(env, here, block, count),
            _ => expr_reports(env, here, e),
        }
    }
}

// ---------------------------------------------------------------------------
// Which nodes are made
// ---------------------------------------------------------------------------

/// The nodes of a program, in the order in which they are made. The identifier
/// of a node is its place.
#[verifier::ext_equal]
pub struct Nodes {
    pub exprs: Seq<ExprNodeModel>,
    pub stmts: Seq<StmtNodeModel>,
    pub handlers: Seq<HandlerModel>,
}

/// A statement of a block, with what comes after it.
pub open spec fn with_next(node: StmtNodeModel, next: StmtId) -> StmtNodeModel {
    StmtNodeModel {
        kind: match node.kind {
            StmtModel::Let { binding, value, .. } => StmtModel::Let { binding, value, next },
            StmtModel::Val { binding, value, .. } => StmtModel::Val { binding, value, next },
            StmtModel::Perform { result, effect, operation, args, .. } => StmtModel::Perform {
                result,
                effect,
                operation,
                args,
                next,
            },
            other => other,
        },
        ..node
    }
}

impl Nodes {
    pub open spec fn start() -> Self {
        Nodes { exprs: Seq::empty(), stmts: Seq::empty(), handlers: Seq::empty() }
    }

    pub open spec fn add_expr(self, kind: ExprModel, span: Span) -> Self {
        Nodes { exprs: self.exprs.push(ExprNodeModel { span, kind }), ..self }
    }

    pub open spec fn add_stmt(self, kind: StmtModel, span: Span) -> Self {
        Nodes { stmts: self.stmts.push(StmtNodeModel { span, kind }), ..self }
    }

    pub open spec fn last_expr(self) -> ExprId {
        ExprId((self.exprs.len() - 1) as usize)
    }

    pub open spec fn last_stmt(self) -> StmtId {
        StmtId((self.stmts.len() - 1) as usize)
    }

    /// A statement that returns a variable.
    pub open spec fn ret(self, var: VarId, span: Span) -> Self {
        let made = self.add_expr(ExprModel::Var(var), span);
        made.add_stmt(StmtModel::Return(made.last_expr()), span)
    }

    /// The nodes of an expression; its own comes last.
    pub open spec fn expr(self, env: LowerEnv, locals: Locals, e: ast::Expr) -> Self
        decreases e, 0nat,
    {
        match e.kind {
            ast::ExprKind::Int(value) => self.add_expr(
                ExprModel::Literal(LiteralModel::Int(value)),
                e.span,
            ),
            ast::ExprKind::Bool(value) => self.add_expr(
                ExprModel::Literal(LiteralModel::Bool(value)),
                e.span,
            ),
            ast::ExprKind::String(value) => self.add_expr(
                ExprModel::Literal(LiteralModel::String(value@)),
                e.span,
            ),
            ast::ExprKind::Var(name) => if locals.contains_key(name.0) {
                self.add_expr(ExprModel::Var(locals[name.0]), e.span)
            } else {
                self.add_expr(error_at(unknown_var(), e.span), e.span)
            },
            ast::ExprKind::Unary { op, expr } => {
                let made = self.expr(env, locals, *expr);
                made.add_expr(
                    ExprModel::Unary { op: unary_op(op), expr: made.last_expr() },
                    e.span,
                )
            },
            ast::ExprKind::Binary { op, lhs, rhs } => {
                let left = self.expr(env, locals, *lhs);
                let both = left.expr(env, locals, *rhs);
                both.add_expr(
                    ExprModel::Binary {
                        op: binary_op(op),
                        lhs: left.last_expr(),
                        rhs: both.last_expr(),
                    },
                    e.span,
                )
            },
            ast::ExprKind::Call { callee, args } => match env.target(*callee) {
                CallTarget::Function(f) => {
                    let (made, ids) = self.exprs(env, locals, args@, args@.len());
                    made.add_expr(ExprModel::PureCall { callee: f, args: ids }, e.span)
                },
                CallTarget::Variant(ty, variant, _) => {
                    let (made, ids) = self.exprs(env, locals, args@, args@.len());
                    made.add_expr(ExprModel::MakeEnum { ty, variant, fields: ids }, e.span)
                },
                CallTarget::Struct(ty, _) => {
                    let (made, ids) = self.exprs(env, locals, args@, args@.len());
                    made.add_expr(ExprModel::MakeStruct { ty, fields: ids }, e.span)
                },
                CallTarget::Effectful(_) => self.add_expr(
                    error_at(effectful_in_pure(), e.span),
                    e.span,
                ),
                CallTarget::Unknown => self.add_expr(
                    error_at(unknown_function(), e.span),
                    e.span,
                ),
                CallTarget::Complex => self.add_expr(error_at(complex_callee(), e.span), e.span),
            },
            ast::ExprKind::If { .. }
            | ast::ExprKind::Block(_)
            | ast::ExprKind::StageBlock { .. }
            | ast::ExprKind::Handle { .. } => self.add_expr(
                error_at(unsupported(), e.span),
                e.span,
            ),
            ast::ExprKind::Error(error) => self.add_expr(ExprModel::Error(error@), e.span),
        }
    }

    /// The nodes of the first of some expressions, and where each of them is.
    pub open spec fn exprs(
        self,
        env: LowerEnv,
        locals: Locals,
        es: Seq<ast::Expr>,
        first: nat,
    ) -> (Self, Seq<ExprId>)
        decreases es, first,
        when first <= es.len()
    {
        if first == 0 {
            (self, Seq::empty())
        } else {
            let (before, ids) = self.exprs(env, locals, es, (first - 1) as nat);
            let made = before.expr(env, locals, es[first - 1]);
            (made, ids.push(made.last_expr()))
        }
    }

    /// The nodes of a value that is bound.
    pub open spec fn value(self, env: LowerEnv, here: Locals, e: ast::Expr, count: nat) -> Self
        decreases e, 2nat, 0nat,
    {
        if env.performs(e) {
            self.performed(env, here, e, count)
        } else {
            self.expr(env, here, e)
        }
    }

    /// The statement that binds the value made last.
    pub open spec fn binding(self, env: LowerEnv, e: ast::Expr, count: nat) -> StmtModel {
        if env.performs(e) {
            StmtModel::Val {
                binding: var_at(count),
                value: self.last_stmt(),
                next: StmtId::invalid(),
            }
        } else {
            StmtModel::Let {
                binding: var_at(count),
                value: self.last_expr(),
                next: StmtId::invalid(),
            }
        }
    }

    /// The nodes that a statement of a block is made of, and the statement itself
    /// but for what comes after it.
    pub open spec fn step(self, env: LowerEnv, here: Locals, stmt: ast::Stmt, count: nat) -> (
        Self,
        StmtNodeModel,
    )
        decreases stmt, 0nat, 0nat,
    {
        match stmt {
            ast::Stmt::Let { value, span, .. } => {
                let made = self.value(env, here, value, count + 1);
                (made, StmtNodeModel { span, kind: made.binding(env, value, count) })
            },
            ast::Stmt::Expr { value, span } => {
                let made = self.value(env, here, value, count + 1);
                (made, StmtNodeModel { span, kind: made.binding(env, value, count) })
            },
            ast::Stmt::Perform { effect, operation, args, span } => {
                let (made, ids) = self.exprs(env, here, args@, args@.len());
                (
                    made,
                    StmtNodeModel {
                        span,
                        kind: StmtModel::Perform {
                            result: None,
                            effect: env.effect(effect),
                            operation,
                            args: ids,
                            next: StmtId::invalid(),
                        },
                    },
                )
            },
            ast::Stmt::Error(error) => {
                let made = self.add_expr(ExprModel::Error(error@), error.span);
                (
                    made,
                    StmtNodeModel {
                        span: error.span,
                        kind: StmtModel::Let {
                            binding: var_at(count),
                            value: made.last_expr(),
                            next: StmtId::invalid(),
                        },
                    },
                )
            },
        }
    }

    pub open spec fn steps(
        self,
        env: LowerEnv,
        locals: Locals,
        block: ast::BlockExpr,
        base: nat,
        first: nat,
    ) -> (Self, Seq<StmtNodeModel>)
        decreases block, 0nat, first,
        when first <= block.statements@.len()
    {
        if first == 0 {
            (self, Seq::empty())
        } else {
            let at = (first - 1) as nat;
            let (before, steps) = self.steps(env, locals, block, base, at);
            let (made, step) = before.step(
                env,
                locals_before(env, block, locals, base, at),
                block.statements@[at as int],
                base + vars_before(env, block, at),
            );
            (made, steps.push(step))
        }
    }

    /// The nodes of the end of a block.
    pub open spec fn tail(
        self,
        env: LowerEnv,
        locals: Locals,
        block: ast::BlockExpr,
        base: nat,
    ) -> Self
        decreases block, 0nat, 0nat,
    {
        let n = block.statements@.len();
        let count = base + vars_before(env, block, n);
        match block.tail {
            Some(tail) => {
                let made = self.value(
                    env,
                    locals_before(env, block, locals, base, n),
                    *tail,
                    count,
                );
                if env.performs(*tail) {
                    let result = var_at(count + performed_vars(env, *tail));
                    let after = made.ret(result, tail.span);
                    after.add_stmt(
                        StmtModel::Val {
                            binding: result,
                            value: made.last_stmt(),
                            next: after.last_stmt(),
                        },
                        tail.span,
                    )
                } else {
                    made.add_stmt(StmtModel::Return(made.last_expr()), block.span)
                }
            },
            None => {
                let made = self.add_expr(ExprModel::Literal(LiteralModel::Unit), block.span);
                made.add_stmt(StmtModel::Return(made.last_expr()), block.span)
            },
        }
    }

    /// The first of some statements are made, the last one first, each before
    /// what was made last.
    pub open spec fn chain(self, steps: Seq<StmtNodeModel>, first: nat) -> Self
        decreases first,
    {
        if first == 0 {
            self
        } else {
            let node = with_next(steps[first - 1], self.last_stmt());
            self.add_stmt(node.kind, node.span).chain(steps, (first - 1) as nat)
        }
    }

    /// The nodes of a block; its first statement comes last.
    pub open spec fn block(
        self,
        env: LowerEnv,
        locals: Locals,
        block: ast::BlockExpr,
        base: nat,
    ) -> Self
        decreases block, 1nat, 0nat,
    {
        let (made, steps) = self.steps(env, locals, block, base, block.statements@.len());
        made.tail(env, locals, block, base).chain(steps, steps.len())
    }

    /// The nodes of an expression that performs effects; its own comes last.
    pub open spec fn performed(self, env: LowerEnv, here: Locals, e: ast::Expr, count: nat) -> Self
        decreases e, 1nat, 0nat,
    {
        match e.kind {
            ast::ExprKind::StageBlock { stage, block } => {
                let made = self.block(env, here, block, count);
                made.add_stmt(
                    StmtModel::Stage {
                        stage: stage_directive(stage),
                        body: made.last_stmt(),
                        next: None,
                    },
                    e.span,
                )
            },
            ast::ExprKind::Call { callee, args } => {
                let f = env.target(*callee)->Effectful_0;
                let (made, ids) = self.exprs(env, here, args@, args@.len());
                let after = made.ret(var_at(count), e.span);
                after.add_stmt(
                    StmtModel::Call {
                        result: var_at(count),
                        callee: f,
                        args: ids,
                        effects: env.declared[f.0 as int],
                        next: after.last_stmt(),
                    },
                    e.span,
                )
            },
            ast::ExprKind::Handle { body, effect, clauses } => {
                let returned = self.ret(var_at(count), e.span);
                let (made, lowered) = returned.clauses(env, here, e, count + 1, clauses@.len());
                let handler = HandlerModel {
                    effect: env.effect(effect),
                    return_param: var_at(count),
                    return_body: returned.last_stmt(),
                    clauses: lowered,
                    span: e.span,
                };
                let with_handler = Nodes { handlers: made.handlers.push(handler), ..made };
                let with_body = with_handler.handled(
                    env,
                    here,
                    *body,
                    count + 1 + clause_vars(env, e, clauses@.len()),
                );
                with_body.add_stmt(
                    StmtModel::Handle {
                        handler: HandlerId(made.handlers.len() as usize),
                        body: with_body.last_stmt(),
                        next: None,
                    },
                    e.span,
                )
            },
            _ => self,
        }
    }

    /// The nodes of the first clauses of a handler, and the clauses.
    pub open spec fn clauses(
        self,
        env: LowerEnv,
        here: Locals,
        e: ast::Expr,
        count: nat,
        first: nat,
    ) -> (Self, Seq<ClauseModel>)
        decreases e, 0nat, first,
        when e.kind is Handle && first <= e.kind->clauses@.len()
    {
        if first == 0 {
            (self, Seq::empty())
        } else {
            let at = (first - 1) as nat;
            let source = e.kind->clauses@[at as int];
            let base = count + clause_vars(env, e, at);
            let (before, clauses) = self.clauses(env, here, e, count, at);
            let made = before.block(
                env,
                bind_from(here, source.params@, base, source.params@.len()),
                source.body,
                base + source.params@.len(),
            );
            (
                made,
                clauses.push(
                    ClauseModel {
                        operation: source.operation,
                        params: vars_from(base, source.params@.len()),
                        resume_param: None,
                        body: made.last_stmt(),
                        span: source.span,
                    },
                ),
            )
        }
    }

    /// The nodes of the body of a handler.
    pub open spec fn handled(self, env: LowerEnv, here: Locals, e: ast::Expr, count: nat) -> Self
        decreases e, 2nat, 0nat,
    {
        if env.performs(e) {
            self.performed(env, here, e, count)
        } else {
            match e.kind {
                ast::ExprKind::Block(block) => self.block(env, here, block, count),
                _ => {
                    let made = self.expr(env, here, e);
                    made.add_stmt(StmtModel::Return(made.last_expr()), e.span)
                },
            }
        }
    }

    /// The nodes that stand for the bodies of the first functions until those are
    /// lowered.
    pub open spec fn headers(self, functions: Seq<ast::FunctionItem>, first: nat) -> Self
        decreases first,
    {
        if first == 0 {
            self
        } else {
            let span = functions[first - 1].span;
            let made = self.headers(functions, (first - 1) as nat).add_expr(
                ExprModel::Literal(LiteralModel::Unit),
                span,
            );
            made.add_stmt(StmtModel::Return(made.last_expr()), span)
        }
    }

    /// The nodes of the bodies of the first functions.
    pub open spec fn bodies(
        self,
        env: LowerEnv,
        functions: Seq<ast::FunctionItem>,
        first: nat,
    ) -> Self
        decreases first,
    {
        if first == 0 {
            self
        } else {
            let at = (first - 1) as nat;
            self.bodies(env, functions, at).block(
                env,
                bind_from(
                    Map::empty(),
                    names_of(functions[at as int].params@),
                    params_before(functions, at),
                    functions[at as int].params@.len(),
                ),
                functions[at as int].body,
                params_before(functions, functions.len()) + bodies_before(env, functions, at),
            )
        }
    }
}

impl CoreModel {
    /// The nodes of a program.
    pub open spec fn nodes(self) -> Nodes {
        Nodes { exprs: self.exprs, stmts: self.stmts, handlers: self.handlers }
    }
}

/// The nodes that stand for bodies, and those of all bodies up to some function.
pub open spec fn nodes_until(ast: ast::Program, core: CoreModel, first: nat) -> Nodes {
    let functions = functions_in(ast.items@, ast.items@.len());
    Nodes::start().headers(functions, functions.len()).bodies(
        program_env(ast, core),
        functions,
        first,
    )
}

/// A program has the nodes that lowering makes, in that order, and no others.
pub open spec fn nodes_are(ast: ast::Program, core: CoreModel) -> bool {
    let functions = functions_in(ast.items@, ast.items@.len());
    &&& core.nodes() == nodes_until(ast, core, functions.len())
    &&& forall|i: int| #![trigger core.functions[i]]
        0 <= i < functions.len() ==> core.functions[i].body == nodes_until(
            ast,
            core,
            (i + 1) as nat,
        ).last_stmt()
}

// ---------------------------------------------------------------------------
// What has been lowered stays
// ---------------------------------------------------------------------------

proof fn lemma_expr_grows(
    env: LowerEnv,
    a: CoreModel,
    b: CoreModel,
    locals: Locals,
    e: ast::Expr,
    id: ExprId,
)
    requires
        b.extends(a),
        expr_is(env, a, locals, e, id),
    ensures
        expr_is(env, b, locals, e, id),
    decreases e,
{
    match e.kind {
        ast::ExprKind::Unary { op, expr } => {
            lemma_expr_grows(env, a, b, locals, *expr, a.expr(id)->Unary_expr);
        },
        ast::ExprKind::Binary { op, lhs, rhs } => {
            lemma_expr_grows(env, a, b, locals, *lhs, a.expr(id)->lhs);
            lemma_expr_grows(env, a, b, locals, *rhs, a.expr(id)->rhs);
        },
        ast::ExprKind::Call { callee, args } => {
            let ids = match env.target(*callee) {
                CallTarget::Function(f) => a.expr(id)->args,
                CallTarget::Variant(_, _, _) => a.expr(id)->MakeEnum_fields,
                CallTarget::Struct(_, _) => a.expr(id)->MakeStruct_fields,
                _ => Seq::empty(),
            };
            if ids.len() == args@.len() {
                assert forall|i: int| #![trigger ids[i]]
                    0 <= i < args@.len() && expr_is(env, a, locals, args@[i], ids[i]) implies expr_is(
                    env,
                    b,
                    locals,
                    args@[i],
                    ids[i],
                ) by {
                    lemma_expr_grows(env, a, b, locals, args@[i], ids[i]);
                }
            }
        },
        _ => {},
    }
}

proof fn lemma_exprs_grow(
    env: LowerEnv,
    a: CoreModel,
    b: CoreModel,
    locals: Locals,
    es: Seq<ast::Expr>,
    ids: Seq<ExprId>,
)
    requires
        b.extends(a),
        exprs_are(env, a, locals, es, ids),
    ensures
        exprs_are(env, b, locals, es, ids),
{
    assert forall|i: int| #![trigger ids[i]] 0 <= i < es.len() implies expr_is(
        env,
        b,
        locals,
        es[i],
        ids[i],
    ) by {
        lemma_expr_grows(env, a, b, locals, es[i], ids[i]);
    }
}

proof fn lemma_block_grows(
    env: LowerEnv,
    a: CoreModel,
    b: CoreModel,
    locals: Locals,
    block: ast::BlockExpr,
    base: nat,
    at: nat,
    id: StmtId,
)
    requires
        b.extends(a),
        block_from(env, a, locals, block, base, at, id),
    ensures
        block_from(env, b, locals, block, base, at, id),
    decreases block, 0nat, block.statements@.len() - at,
{
    let here = locals_before(env, block, locals, base, at);
    let count = base + vars_before(env, block, at);
    if at < block.statements@.len() {
        lemma_step_grows(
            env,
            a,
            b,
            here,
            block.statements@[at as int],
            count,
            a.stmts[id.0 as int],
        );
        lemma_block_grows(env, a, b, locals, block, base, at + 1, next_of(a.stmt(id)));
    } else {
        match block.tail {
            Some(tail) => if env.performs(*tail) {
                lemma_performed_grows(env, a, b, here, *tail, count, a.stmt(id)->Val_value);
            } else {
                lemma_expr_grows(env, a, b, here, *tail, a.stmt(id)->Return_0);
            },
            None => {},
        }
    }
}

proof fn lemma_step_grows(
    env: LowerEnv,
    a: CoreModel,
    b: CoreModel,
    here: Locals,
    stmt: ast::Stmt,
    count: nat,
    node: StmtNodeModel,
)
    requires
        b.extends(a),
        step_is(env, a, here, stmt, count, node),
    ensures
        step_is(env, b, here, stmt, count, node),
    decreases stmt, 0nat, 0nat,
{
    match stmt {
        ast::Stmt::Let { value, .. } => lemma_binds_grows(env, a, b, here, value, count, node.kind),
        ast::Stmt::Expr { value, .. } => lemma_binds_grows(env, a, b, here, value, count, node.kind),
        ast::Stmt::Perform { args, .. } => {
            lemma_exprs_grow(env, a, b, here, args@, node.kind->Perform_args);
        },
        ast::Stmt::Error(_) => {},
    }
}

proof fn lemma_binds_grows(
    env: LowerEnv,
    a: CoreModel,
    b: CoreModel,
    here: Locals,
    value: ast::Expr,
    count: nat,
    kind: StmtModel,
)
    requires
        b.extends(a),
        binds(env, a, here, value, count, kind),
    ensures
        binds(env, b, here, value, count, kind),
    decreases value, 2nat, 0nat,
{
    if env.performs(value) {
        lemma_performed_grows(env, a, b, here, value, count + 1, kind->Val_value);
    } else {
        lemma_expr_grows(env, a, b, here, value, kind->Let_value);
    }
}

proof fn lemma_performed_grows(
    env: LowerEnv,
    a: CoreModel,
    b: CoreModel,
    here: Locals,
    e: ast::Expr,
    count: nat,
    id: StmtId,
)
    requires
        b.extends(a),
        performed_is(env, a, here, e, count, id),
    ensures
        performed_is(env, b, here, e, count, id),
    decreases e, 1nat, 0nat,
{
    match e.kind {
        ast::ExprKind::StageBlock { stage, block } => {
            lemma_block_grows(env, a, b, here, block, count, 0, a.stmt(id)->Stage_body);
        },
        ast::ExprKind::Call { callee, args } => {
            lemma_exprs_grow(env, a, b, here, args@, a.stmt(id)->Call_args);
        },
        ast::ExprKind::Handle { body, effect, clauses } => {
            let h = a.stmt(id)->handler;
            assert(b.handler(h) == a.handler(h));
            assert forall|i: int| #![trigger b.handler(h).clauses[i]]
                0 <= i < clauses@.len() implies clause_is(
                env,
                b,
                here,
                e,
                count + 1,
                i,
                b.handler(h).clauses[i],
            ) by {
                assert(clause_is(env, a, here, e, count + 1, i, a.handler(h).clauses[i]));
                lemma_clause_grows(env, a, b, here, e, count + 1, i, a.handler(h).clauses[i]);
            }
            lemma_handled_grows(
                env,
                a,
                b,
                here,
                *body,
                count + 1 + clause_vars(env, e, clauses@.len()),
                a.stmt(id)->Handle_body,
            );
        },
        _ => {},
    }
}

proof fn lemma_clause_grows(
    env: LowerEnv,
    a: CoreModel,
    b: CoreModel,
    here: Locals,
    e: ast::Expr,
    count: nat,
    i: int,
    clause: ClauseModel,
)
    requires
        b.extends(a),
        e.kind is Handle,
        0 <= i < e.kind->clauses@.len(),
        clause_is(env, a, here, e, count, i, clause),
    ensures
        clause_is(env, b, here, e, count, i, clause),
    decreases e, 0nat, 0nat,
{
    let source = e.kind->clauses@[i];
    let base = count + clause_vars(env, e, i as nat);
    lemma_block_grows(
        env,
        a,
        b,
        bind_from(here, source.params@, base, source.params@.len()),
        source.body,
        base + source.params@.len(),
        0,
        clause.body,
    );
}

proof fn lemma_handled_grows(
    env: LowerEnv,
    a: CoreModel,
    b: CoreModel,
    here: Locals,
    e: ast::Expr,
    count: nat,
    id: StmtId,
)
    requires
        b.extends(a),
        handled_is(env, a, here, e, count, id),
    ensures
        handled_is(env, b, here, e, count, id),
    decreases e, 2nat, 0nat,
{
    if env.performs(e) {
        lemma_performed_grows(env, a, b, here, e, count, id);
    } else {
        match e.kind {
            ast::ExprKind::Block(block) => {
                lemma_block_grows(env, a, b, here, block, count, 0, id);
            },
            _ => {
                lemma_expr_grows(env, a, b, here, e, a.stmt(id)->Return_0);
            },
        }
    }
}

// ---------------------------------------------------------------------------
// The lowering
// ---------------------------------------------------------------------------

/// Which functions a program starts from.
#[derive(Debug)]
pub struct LowerConfig {
    pub entrypoints: Vec<SymbolId>,
}

impl Default for LowerConfig {
    fn default() -> (config: Self)
        ensures
            config.entrypoints@ == Seq::<SymbolId>::empty(),
    {
        LowerConfig { entrypoints: Vec::new() }
    }
}

impl LowerConfig {
    pub fn with_entrypoint(entrypoint: SymbolId) -> (config: Self)
        ensures
            config.entrypoints@ == seq![entrypoint],
    {
        let mut entrypoints: Vec<SymbolId> = Vec::new();
        entrypoints.push(entrypoint);
        LowerConfig { entrypoints }
    }
}

/// A core program, and what there is to say about it.
#[derive(Debug)]
pub struct LowerOutput {
    pub program: CoreProgram,
    pub diagnostics: DiagnosticBag,
}

/// A lowering under way.
pub struct Lowerer {
    pub program: CoreProgram,
    pub diagnostics: DiagnosticBag,
    /// Where each variable was introduced.
    pub origins: Vec<Span>,
    pub functions_by_name: HashMap<usize, FuncId>,
    pub effect_labels: HashMap<usize, EffectLabelId>,
    pub effect_ops: Vec<OperationArity>,
    pub struct_ctors: HashMap<usize, usize>,
    pub enum_ctors: HashMap<usize, (SymbolId, usize)>,
}

/// What becomes of a value that is bound.
pub enum LoweredValue {
    Expr(ExprId),
    Stmt(StmtId),
}

/// A statement of a block, before it is known what comes after it.
#[allow(inconsistent_fields)]
pub enum Action {
    Let { span: Span, binding: VarId, value: ExprId },
    Val { span: Span, binding: VarId, value: StmtId },
    Perform { span: Span, effect: EffectLabelId, operation: SymbolId, args: Vec<ExprId> },
}

impl Action {
    /// The statement, with what comes after it.
    pub open spec fn node(self, next: StmtId) -> StmtNodeModel {
        match self {
            Action::Let { span, binding, value } => StmtNodeModel {
                span,
                kind: StmtModel::Let { binding, value, next },
            },
            Action::Val { span, binding, value } => StmtNodeModel {
                span,
                kind: StmtModel::Val { binding, value, next },
            },
            Action::Perform { span, effect, operation, args } => StmtNodeModel {
                span,
                kind: StmtModel::Perform { result: None, effect, operation, args: args@, next },
            },
        }
    }

    /// The parts of the statement exist, but for what comes after it.
    pub open spec fn exists_in(self, core: CoreModel) -> bool {
        match self {
            Action::Let { value, .. } => core.has_expr(value),
            Action::Val { value, .. } => core.has_stmt(value),
            Action::Perform { args, .. } => forall|i: int| #![trigger args@[i]]
                0 <= i < args@.len() ==> core.has_expr(args@[i]),
        }
    }
}

/// The declared effects of each function.
pub open spec fn declared_of(functions: Seq<FunctionModel>) -> Seq<Seq<EffectLabelId>> {
    functions.map_values(|f: FunctionModel| f.declared_effects)
}

fn arity_message(what: &str, expected: usize, got: usize) -> (message: String)
    ensures
        message@ == mismatch(what@, expected as nat, got as nat),
{
    let mut message: String = String::new();
    crate::common::text::push_text(&mut message, what);
    crate::common::text::push_text(&mut message, " mismatch: expected ");
    crate::common::text::push_index(&mut message, expected);
    crate::common::text::push_text(&mut message, ", got ");
    crate::common::text::push_index(&mut message, got);
    assert(message@ =~= mismatch(what@, expected as nat, got as nat));
    message
}

/// The arity of an operation, by its last declaration.
fn find_operation(
    operations: &Vec<OperationArity>,
    effect: EffectLabelId,
    operation: SymbolId,
) -> (arity: Option<usize>)
    ensures
        arity == operation_arity(operations@, effect, operation),
{
    let mut left: usize = operations.len();
    assert(operations@.take(left as int) =~= operations@);
    while left > 0
        invariant
            left <= operations@.len(),
            operation_arity(operations@, effect, operation) == operation_arity(
                operations@.take(left as int),
                effect,
                operation,
            ),
        decreases left,
    {
        let entry = operations[left - 1];
        assert(operations@.take(left as int).last() == entry);
        assert(operations@.take(left as int).drop_last() =~= operations@.take(left as int - 1));
        if entry.effect == effect && entry.operation == operation {
            return Some(entry.arity);
        }
        left -= 1;
    }
    None
}

/// Whether nodes are laid out bottom up is a matter of the nodes alone.
proof fn lemma_bottom_up_same_nodes(a: CoreModel, b: CoreModel)
    requires
        a.bottom_up(),
        b.exprs == a.exprs,
        b.stmts == a.stmts,
    ensures
        b.bottom_up(),
{
    assert(forall|x: ExprId, part: ExprId| #![trigger b.expr(x).has_part(part)]
        b.expr(x).has_part(part) == a.expr(x).has_part(part));
    assert(forall|x: StmtId, part: StmtId| #![trigger b.stmt(x).has_part(part)]
        b.stmt(x).has_part(part) == a.stmt(x).has_part(part));
    assert(forall|x: StmtId, part: ExprId| #![trigger b.stmt(x).has_expr(part)]
        b.stmt(x).has_expr(part) == a.stmt(x).has_expr(part));
}

impl Lowerer {
    pub open spec fn env(self) -> LowerEnv {
        LowerEnv {
            functions: self.functions_by_name@,
            declared: declared_of(self.program@.functions),
            effects: self.effect_labels@,
            operations: self.effect_ops@,
            structs: self.struct_ctors@,
            enums: self.enum_ctors@,
        }
    }

    /// How many variables have been introduced.
    pub open spec fn count(self) -> nat {
        self.origins@.len()
    }

    /// The program so far holds together.
    pub open spec fn ready(self) -> bool {
        &&& self.program@.bottom_up()
        &&& self.program@.functions_closed()
        &&& self.program@.handlers_closed()
    }

    /// The lowering has gone on from an earlier state: nodes and handlers have
    /// been added, and nothing else has changed.
    pub open spec fn stepped(self, earlier: Self) -> bool {
        &&& self.ready()
        &&& self.program@.extends(earlier.program@)
        &&& self.program@.functions == earlier.program@.functions
        &&& self.program@.effects == earlier.program@.effects
        &&& self.program@.structs == earlier.program@.structs
        &&& self.program@.enums == earlier.program@.enums
        &&& self.program@.entrypoints == earlier.program@.entrypoints
        &&& self.env() == earlier.env()
    }

    /// Only expressions have been added.
    pub open spec fn stepped_pure(self, earlier: Self) -> bool {
        &&& self.stepped(earlier)
        &&& self.program@.stmts == earlier.program@.stmts
        &&& self.program@.handlers == earlier.program@.handlers
        &&& self.origins == earlier.origins
    }

    fn push_expr(&mut self, kind: ExprKind, span: Span) -> (id: ExprId)
        requires
            old(self).ready(),
            forall|part: ExprId| #[trigger]
                kind@.has_part(part) ==> old(self).program@.has_expr(part),
        ensures
            final(self).stepped_pure(*old(self)),
            final(self).diagnostics == old(self).diagnostics,
            final(self).program@.has_expr(id),
            final(self).program@.exprs[id.0 as int] == (ExprNodeModel { span, kind: kind@ }),
            final(self).program@.nodes() == old(self).program@.nodes().add_expr(kind@, span),
            id == final(self).program@.nodes().last_expr(),
    {
        let ghost p = self.program@;
        let node = ExprNode { span, kind };
        proof {
            crate::ir::core_ir::lemma_bottom_up_push_expr(p, node@);
        }
        let id = self.program.push_expr(node);
        assert(forall|f: FuncId| #![trigger self.program@.function(f)]
            self.program@.function(f) == p.function(f));
        assert(forall|h: HandlerId| #![trigger self.program@.handler(h)]
            self.program@.handler(h) == p.handler(h));
        id
    }

    fn push_stmt(&mut self, kind: StmtKind, span: Span) -> (id: StmtId)
        requires
            old(self).ready(),
            forall|part: StmtId| #[trigger]
                kind@.has_part(part) ==> old(self).program@.has_stmt(part),
            forall|part: ExprId| #[trigger]
                kind@.has_expr(part) ==> old(self).program@.has_expr(part),
        ensures
            final(self).stepped(*old(self)),
            final(self).origins == old(self).origins,
            final(self).diagnostics == old(self).diagnostics,
            final(self).program@.has_stmt(id),
            final(self).program@.stmts[id.0 as int] == (StmtNodeModel { span, kind: kind@ }),
            final(self).program@.nodes() == old(self).program@.nodes().add_stmt(kind@, span),
            id == final(self).program@.nodes().last_stmt(),
    {
        let ghost p = self.program@;
        let node = StmtNode { span, kind };
        proof {
            crate::ir::core_ir::lemma_bottom_up_push_stmt(p, node@);
        }
        let id = self.program.push_stmt(node);
        assert(forall|f: FuncId| #![trigger self.program@.function(f)]
            self.program@.function(f) == p.function(f));
        assert(forall|h: HandlerId| #![trigger self.program@.handler(h)]
            self.program@.handler(h) == p.handler(h));
        id
    }

    fn fresh_var(&mut self, origin: Span) -> (var: VarId)
        requires
            old(self).ready(),
        ensures
            final(self).stepped(*old(self)),
            final(self).program == old(self).program,
            final(self).diagnostics == old(self).diagnostics,
            final(self).count() == old(self).count() + 1,
            var == var_at(old(self).count()),
    {
        let var = VarId::new(self.origins.len());
        self.origins.push(origin);
        var
    }

    /// A statement that returns a variable and does nothing else.
    fn push_return(&mut self, var: VarId, span: Span) -> (id: StmtId)
        requires
            old(self).ready(),
        ensures
            final(self).stepped(*old(self)),
            final(self).origins == old(self).origins,
            final(self).diagnostics == old(self).diagnostics,
            returns_var(final(self).program@, id, var, span),
            final(self).program@.nodes() == old(self).program@.nodes().ret(var, span),
            id == final(self).program@.nodes().last_stmt(),
    {
        let value = self.push_expr(ExprKind::Var(var), span);
        self.push_stmt(StmtKind::Return(value), span)
    }

    /// What the callee of a call stands for.
    fn resolve(&self, callee: &ast::Expr) -> (target: CallTarget)
        ensures
            target == self.env().target(*callee),
    {
        match &callee.kind {
            ast::ExprKind::Var(name) => {
                if let Some(f) = self.functions_by_name.get(&name.0) {
                    let effectful = match self.program.function(*f) {
                        Some(function) => !function.declared_effects.is_empty(),
                        None => false,
                    };
                    if effectful {
                        CallTarget::Effectful(*f)
                    } else {
                        CallTarget::Function(*f)
                    }
                } else if let Some(found) = self.enum_ctors.get(&name.0) {
                    CallTarget::Variant(found.0, *name, found.1)
                } else if let Some(fields) = self.struct_ctors.get(&name.0) {
                    CallTarget::Struct(*name, *fields)
                } else {
                    CallTarget::Unknown
                }
            },
            _ => CallTarget::Complex,
        }
    }

    fn error_expr(&mut self, code: &'static str, message: &str, span: Span) -> (id: ExprId)
        requires
            old(self).ready(),
        ensures
            final(self).stepped_pure(*old(self)),
            final(self).diagnostics@ == old(self).diagnostics@ + one_error(code@, message@, span),
            final(self).program@.has_expr(id),
            final(self).program@.exprs[id.0 as int] == (ExprNodeModel {
                span,
                kind: error_at(message@, span),
            }),
            final(self).program@.nodes() == old(self).program@.nodes().add_expr(
                error_at(message@, span),
                span,
            ),
            id == final(self).program@.nodes().last_expr(),
    {
        let error = self.diagnostics.error_node(code, message, span);
        assert(self.diagnostics@ =~= old(self).diagnostics@ + one_error(code@, message@, span));
        self.push_expr(ExprKind::Error(error), span)
    }

    fn check_arity(
        &mut self,
        code: &'static str,
        what: &str,
        expected: usize,
        got: usize,
        span: Span,
    )
        requires
            old(self).ready(),
        ensures
            final(self).stepped_pure(*old(self)),
            final(self).program == old(self).program,
            final(self).diagnostics@ == old(self).diagnostics@ + arity_error(
                code@,
                what@,
                expected,
                got as nat,
                span,
            ),
    {
        if expected != got {
            let message = arity_message(what, expected, got);
            self.diagnostics.error(code, message.as_str(), span);
            assert(self.diagnostics@ =~= old(self).diagnostics@ + one_error(
                code@,
                mismatch(what@, expected as nat, got as nat),
                span,
            ));
        } else {
            assert(self.diagnostics@ =~= old(self).diagnostics@ + Seq::empty());
        }
    }

    fn lower_exprs(
        &mut self,
        exprs: &Vec<ast::Expr>,
        locals: &HashMap<usize, VarId>,
    ) -> (ids: Vec<ExprId>)
        requires
            old(self).ready(),
        ensures
            final(self).stepped_pure(*old(self)),
            exprs_are(final(self).env(), final(self).program@, locals@, exprs@, ids@),
            forall|i: int| #![trigger ids@[i]]
                0 <= i < ids@.len() ==> final(self).program@.has_expr(ids@[i]),
            final(self).diagnostics@ == old(self).diagnostics@ + exprs_reports(
                old(self).env(),
                locals@,
                exprs@,
                exprs@.len(),
            ),
            (final(self).program@.nodes(), ids@) == old(self).program@.nodes().exprs(
                old(self).env(),
                locals@,
                exprs@,
                exprs@.len(),
            ),
        decreases *exprs,
    {
        let ghost env = self.env();
        let mut ids: Vec<ExprId> = Vec::new();
        let mut i: usize = 0;
        assert(self.diagnostics@ =~= old(self).diagnostics@ + Seq::empty());
        while i < exprs.len()
            invariant
                self.stepped_pure(*old(self)),
                env == self.env(),
                i <= exprs@.len(),
                ids@.len() == i,
                forall|j: int| #![trigger ids@[j]]
                    0 <= j < i ==> expr_is(env, self.program@, locals@, exprs@[j], ids@[j]),
                self.diagnostics@ == old(self).diagnostics@ + exprs_reports(
                    env,
                    locals@,
                    exprs@,
                    i as nat,
                ),
                (self.program@.nodes(), ids@) == old(self).program@.nodes().exprs(
                    env,
                    locals@,
                    exprs@,
                    i as nat,
                ),
            decreases exprs@.len() - i,
        {
            let ghost before = self.program@;
            let id = self.lower_expr(&exprs[i], locals);
            proof {
                assert forall|j: int| #![trigger ids@[j]] 0 <= j < i implies expr_is(
                    env,
                    self.program@,
                    locals@,
                    exprs@[j],
                    ids@[j],
                ) by {
                    lemma_expr_grows(env, before, self.program@, locals@, exprs@[j], ids@[j]);
                }
                assert(self.diagnostics@ =~= old(self).diagnostics@ + exprs_reports(
                    env,
                    locals@,
                    exprs@,
                    (i + 1) as nat,
                ));
            }
            ids.push(id);
            i += 1;
        }
        ids
    }

    fn lower_expr(&mut self, expr: &ast::Expr, locals: &HashMap<usize, VarId>) -> (id: ExprId)
        requires
            old(self).ready(),
        ensures
            final(self).stepped_pure(*old(self)),
            expr_is(final(self).env(), final(self).program@, locals@, *expr, id),
            final(self).diagnostics@ == old(self).diagnostics@ + expr_reports(
                old(self).env(),
                locals@,
                *expr,
            ),
            final(self).program@.nodes() == old(self).program@.nodes().expr(
                old(self).env(),
                locals@,
                *expr,
            ),
            id == final(self).program@.nodes().last_expr(),
        decreases *expr,
    {
        let ghost env = self.env();
        let ghost given = self.diagnostics@;
        assert(given =~= given + Seq::empty());
        match &expr.kind {
            ast::ExprKind::Int(value) => self.push_expr(
                ExprKind::Literal(Literal::Int(*value)),
                expr.span,
            ),
            ast::ExprKind::Bool(value) => self.push_expr(
                ExprKind::Literal(Literal::Bool(*value)),
                expr.span,
            ),
            ast::ExprKind::String(value) => self.push_expr(
                ExprKind::Literal(Literal::String(value.clone())),
                expr.span,
            ),
            ast::ExprKind::Var(name) => {
                if let Some(var) = locals.get(&name.0) {
                    self.push_expr(ExprKind::Var(*var), expr.span)
                } else {
                    self.error_expr(
                        "LOWER_UNKNOWN_VAR",
                        "Unknown variable during AST->Core lowering",
                        expr.span,
                    )
                }
            },
            ast::ExprKind::Unary { op, expr: inner } => {
                let part = self.lower_expr(inner, locals);
                let ghost before = self.program@;
                let id = self.push_expr(
                    ExprKind::Unary { op: map_unary_op(*op), expr: part },
                    expr.span,
                );
                proof {
                    lemma_expr_grows(env, before, self.program@, locals@, **inner, part);
                }
                id
            },
            ast::ExprKind::Binary { op, lhs, rhs } => {
                let left = self.lower_expr(lhs, locals);
                let ghost first = self.program@;
                let right = self.lower_expr(rhs, locals);
                let ghost second = self.program@;
                let id = self.push_expr(
                    ExprKind::Binary { op: map_binary_op(*op), lhs: left, rhs: right },
                    expr.span,
                );
                proof {
                    lemma_expr_grows(env, first, self.program@, locals@, **lhs, left);
                    lemma_expr_grows(env, second, self.program@, locals@, **rhs, right);
                    assert(self.diagnostics@ =~= given + expr_reports(env, locals@, *expr));
                }
                id
            },
            ast::ExprKind::Call { callee, args } => self.lower_call(expr, locals),
            ast::ExprKind::If { .. }
            | ast::ExprKind::Block(_)
            | ast::ExprKind::StageBlock { .. }
            | ast::ExprKind::Handle { .. } => self.error_expr(
                "LOWER_EXPR_UNSUPPORTED",
                "This expression form is parsed but not lowered yet in v0",
                expr.span,
            ),
            ast::ExprKind::Error(error) => self.push_expr(
                ExprKind::Error(error.clone()),
                expr.span,
            ),
        }
    }

    fn lower_call(&mut self, expr: &ast::Expr, locals: &HashMap<usize, VarId>) -> (id: ExprId)
        requires
            old(self).ready(),
            expr.kind is Call,
        ensures
            final(self).stepped_pure(*old(self)),
            expr_is(final(self).env(), final(self).program@, locals@, *expr, id),
            final(self).diagnostics@ == old(self).diagnostics@ + expr_reports(
                old(self).env(),
                locals@,
                *expr,
            ),
            final(self).program@.nodes() == old(self).program@.nodes().expr(
                old(self).env(),
                locals@,
                *expr,
            ),
            id == final(self).program@.nodes().last_expr(),
        decreases expr.kind,
    {
        let ghost env = self.env();
        let ghost given = self.diagnostics@;
        match &expr.kind {
            ast::ExprKind::Call { callee, args } => match self.resolve(callee) {
                CallTarget::Function(f) => {
                    let ids = self.lower_exprs(args, locals);
                    let ghost before = self.program@;
                    let id = self.push_expr(ExprKind::PureCall { callee: f, args: ids }, expr.span);
                    proof {
                        lemma_exprs_grow(env, before, self.program@, locals@, args@, ids@);
                    }
                    id
                },
                CallTarget::Variant(ty, variant, expected) => {
                    self.check_arity(
                        "LOWER_BAD_ENUM_CTOR_ARITY",
                        "Enum constructor argument count",
                        expected,
                        args.len(),
                        expr.span,
                    );
                    let ids = self.lower_exprs(args, locals);
                    let ghost before = self.program@;
                    let id = self.push_expr(
                        ExprKind::MakeEnum { ty, variant, fields: ids },
                        expr.span,
                    );
                    proof {
                        lemma_exprs_grow(env, before, self.program@, locals@, args@, ids@);
                        assert(self.diagnostics@ =~= given + expr_reports(env, locals@, *expr));
                    }
                    id
                },
                CallTarget::Struct(ty, expected) => {
                    self.check_arity(
                        "LOWER_BAD_STRUCT_CTOR_ARITY",
                        "Struct constructor argument count",
                        expected,
                        args.len(),
                        expr.span,
                    );
                    let ids = self.lower_exprs(args, locals);
                    let ghost before = self.program@;
                    let id = self.push_expr(ExprKind::MakeStruct { ty, fields: ids }, expr.span);
                    proof {
                        lemma_exprs_grow(env, before, self.program@, locals@, args@, ids@);
                        assert(self.diagnostics@ =~= given + expr_reports(env, locals@, *expr));
                    }
                    id
                },
                CallTarget::Effectful(_) => self.error_expr(
                    "LOWER_EFFECTFUL_CALL_PURE_CTX",
                    "Effectful call used where a pure expression is required in v0",
                    expr.span,
                ),
                CallTarget::Unknown => self.error_expr(
                    "LOWER_UNKNOWN_FUNC",
                    "Unknown function call target during AST->Core lowering",
                    expr.span,
                ),
                CallTarget::Complex => self.error_expr(
                    "LOWER_COMPLEX_CALLEE",
                    "Only direct calls by function name are supported in v0 lowering",
                    expr.span,
                ),
            },
            _ => {
                assert(false);
                ExprId::invalid()
            },
        }
    }

    /// A value that is bound: an expression, or statements where it performs
    /// effects.
    fn lower_binding_value(
        &mut self,
        value: &ast::Expr,
        locals: &HashMap<usize, VarId>,
    ) -> (lowered: LoweredValue)
        requires
            old(self).ready(),
        ensures
            final(self).stepped(*old(self)),
            final(self).count() == old(self).count() + value_vars(old(self).env(), *value),
            match lowered {
                LoweredValue::Expr(id) => {
                    &&& !old(self).env().performs(*value)
                    &&& expr_is(final(self).env(), final(self).program@, locals@, *value, id)
                },
                LoweredValue::Stmt(id) => {
                    &&& old(self).env().performs(*value)
                    &&& performed_is(
                        final(self).env(),
                        final(self).program@,
                        locals@,
                        *value,
                        old(self).count(),
                        id,
                    )
                },
            },
            final(self).diagnostics@ == old(self).diagnostics@ + value_reports(
                old(self).env(),
                locals@,
                *value,
                old(self).count(),
            ),
            final(self).program@.nodes() == old(self).program@.nodes().value(
                old(self).env(),
                locals@,
                *value,
                old(self).count(),
            ),
            match lowered {
                LoweredValue::Expr(id) => id == final(self).program@.nodes().last_expr(),
                LoweredValue::Stmt(id) => id == final(self).program@.nodes().last_stmt(),
            },
        decreases *value, 2nat,
    {
        match self.lower_effectful_expr(value, locals) {
            Some(id) => LoweredValue::Stmt(id),
            None => LoweredValue::Expr(self.lower_expr(value, locals)),
        }
    }

    fn check_effect(
        &mut self,
        effect: SymbolId,
        code: &'static str,
        message: &str,
        span: Span,
    ) -> (label: EffectLabelId)
        requires
            old(self).ready(),
        ensures
            final(self).stepped_pure(*old(self)),
            final(self).program == old(self).program,
            label == old(self).env().effect(effect),
            final(self).diagnostics@ == old(self).diagnostics@ + effect_reports(
                old(self).env(),
                effect,
                code@,
                message@,
                span,
            ),
    {
        assert(self.diagnostics@ =~= self.diagnostics@ + Seq::empty());
        match self.effect_labels.get(&effect.0) {
            Some(label) => *label,
            None => {
                self.diagnostics.error(code, message, span);
                assert(self.diagnostics@ =~= old(self).diagnostics@ + one_error(
                    code@,
                    message@,
                    span,
                ));
                EffectLabelId::invalid()
            },
        }
    }

    fn check_operation(
        &mut self,
        effect: EffectLabelId,
        operation: SymbolId,
        got: usize,
        arity_code: &'static str,
        arity_what: &str,
        unknown_code: &'static str,
        unknown: &str,
        span: Span,
    )
        requires
            old(self).ready(),
        ensures
            final(self).stepped_pure(*old(self)),
            final(self).program == old(self).program,
            final(self).diagnostics@ == old(self).diagnostics@ + operation_reports(
                old(self).env(),
                effect,
                operation,
                got as nat,
                arity_code@,
                arity_what@,
                unknown_code@,
                unknown@,
                span,
            ),
    {
        assert(self.diagnostics@ =~= self.diagnostics@ + Seq::empty());
        if effect != EffectLabelId::invalid() {
            match find_operation(&self.effect_ops, effect, operation) {
                Some(expected) => {
                    self.check_arity(arity_code, arity_what, expected, got, span);
                },
                None => {
                    self.diagnostics.error(unknown_code, unknown, span);
                    assert(self.diagnostics@ =~= old(self).diagnostics@ + one_error(
                        unknown_code@,
                        unknown@,
                        span,
                    ));
                },
            }
        }
    }

    /// A statement of a block, before it is known what comes after it.
    fn lower_step(&mut self, stmt: &ast::Stmt, here: &HashMap<usize, VarId>) -> (action: Action)
        requires
            old(self).ready(),
        ensures
            final(self).stepped(*old(self)),
            final(self).count() == old(self).count() + stmt_vars(old(self).env(), *stmt),
            step_is(
                final(self).env(),
                final(self).program@,
                here@,
                *stmt,
                old(self).count(),
                action.node(StmtId::invalid()),
            ),
            action.exists_in(final(self).program@),
            final(self).diagnostics@ == old(self).diagnostics@ + step_reports(
                old(self).env(),
                here@,
                *stmt,
                old(self).count(),
            ),
            (final(self).program@.nodes(), action.node(StmtId::invalid())) == old(
                self,
            ).program@.nodes().step(old(self).env(), here@, *stmt, old(self).count()),
        decreases *stmt, 0nat,
    {
        let ghost env = self.env();
        let ghost given = self.diagnostics@;
        match stmt {
            ast::Stmt::Let { value, span, .. } => {
                let binding = self.fresh_var(*span);
                match self.lower_binding_value(value, here) {
                    LoweredValue::Expr(id) => Action::Let { span: *span, binding, value: id },
                    LoweredValue::Stmt(id) => Action::Val { span: *span, binding, value: id },
                }
            },
            ast::Stmt::Expr { value, span } => {
                let binding = self.fresh_var(*span);
                match self.lower_binding_value(value, here) {
                    LoweredValue::Expr(id) => Action::Let { span: *span, binding, value: id },
                    LoweredValue::Stmt(id) => Action::Val { span: *span, binding, value: id },
                }
            },
            ast::Stmt::Perform { effect, operation, args, span } => {
                let label = self.check_effect(
                    *effect,
                    "LOWER_UNKNOWN_EFFECT",
                    "Unknown effect in `do` statement during AST->Core lowering",
                    *span,
                );
                self.check_operation(
                    label,
                    *operation,
                    args.len(),
                    "LOWER_BAD_EFFECT_OP_ARITY",
                    "Effect operation argument count",
                    "LOWER_UNKNOWN_EFFECT_OP",
                    "Unknown operation for this effect in `do` statement",
                    *span,
                );
                let ids = self.lower_exprs(args, here);
                assert(self.diagnostics@ =~= given + step_reports(
                    env,
                    here@,
                    *stmt,
                    old(self).count(),
                ));
                Action::Perform { span: *span, effect: label, operation: *operation, args: ids }
            },
            ast::Stmt::Error(error) => {
                let value = self.push_expr(ExprKind::Error(error.clone()), error.span);
                let binding = self.fresh_var(error.span);
                assert(self.diagnostics@ =~= given + Seq::empty());
                Action::Let { span: error.span, binding, value }
            },
        }
    }

    /// The end of a block.
    fn lower_tail(&mut self, block: &ast::BlockExpr, here: &HashMap<usize, VarId>, Ghost(locals): Ghost<
        Locals,
    >, Ghost(base): Ghost<nat>) -> (id: StmtId)
        requires
            old(self).ready(),
            here@ == locals_before(
                old(self).env(),
                *block,
                locals,
                base,
                block.statements@.len(),
            ),
            old(self).count() == base + vars_before(
                old(self).env(),
                *block,
                block.statements@.len(),
            ),
        ensures
            final(self).stepped(*old(self)),
            final(self).count() == base + block_vars(old(self).env(), *block),
            block_from(
                final(self).env(),
                final(self).program@,
                locals,
                *block,
                base,
                block.statements@.len(),
                id,
            ),
            final(self).diagnostics@ == old(self).diagnostics@ + match block.tail {
                Some(tail) => value_reports(old(self).env(), here@, *tail, old(self).count()),
                None => Seq::empty(),
            },
            final(self).program@.nodes() == old(self).program@.nodes().tail(
                old(self).env(),
                locals,
                *block,
                base,
            ),
            id == final(self).program@.nodes().last_stmt(),
        decreases *block, 0nat,
    {
        let ghost env = self.env();
        let ghost given = self.diagnostics@;
        match &block.tail {
            Some(tail) => match self.lower_binding_value(tail, here) {
                LoweredValue::Expr(value) => {
                    let ghost before = self.program@;
                    let id = self.push_stmt(StmtKind::Return(value), block.span);
                    proof {
                        lemma_expr_grows(env, before, self.program@, here@, **tail, value);
                    }
                    id
                },
                LoweredValue::Stmt(value) => {
                    let ghost before = self.program@;
                    let binding = self.fresh_var(tail.span);
                    let next = self.push_return(binding, tail.span);
                    let id = self.push_stmt(StmtKind::Val { binding, value, next }, tail.span);
                    proof {
                        lemma_performed_grows(
                            env,
                            before,
                            self.program@,
                            here@,
                            **tail,
                            old(self).count(),
                            value,
                        );
                    }
                    id
                },
            },
            None => {
                let unit = self.push_expr(ExprKind::Literal(Literal::Unit), block.span);
                assert(self.diagnostics@ =~= given + Seq::empty());
                self.push_stmt(StmtKind::Return(unit), block.span)
            },
        }
    }

    fn push_action(&mut self, action: Action, next: StmtId) -> (id: StmtId)
        requires
            old(self).ready(),
            action.exists_in(old(self).program@),
            old(self).program@.has_stmt(next),
        ensures
            final(self).stepped(*old(self)),
            final(self).origins == old(self).origins,
            final(self).diagnostics == old(self).diagnostics,
            final(self).program@.has_stmt(id),
            final(self).program@.stmts[id.0 as int] == action.node(next),
            final(self).program@.nodes() == old(self).program@.nodes().add_stmt(
                action.node(next).kind,
                action.node(next).span,
            ),
            id == final(self).program@.nodes().last_stmt(),
    {
        match action {
            Action::Let { span, binding, value } => self.push_stmt(
                StmtKind::Let { binding, value, next },
                span,
            ),
            Action::Val { span, binding, value } => self.push_stmt(
                StmtKind::Val { binding, value, next },
                span,
            ),
            Action::Perform { span, effect, operation, args } => self.push_stmt(
                StmtKind::Perform { result: None, effect, operation, args, next },
                span,
            ),
        }
    }

    fn lower_block(&mut self, block: &ast::BlockExpr, outer_locals: &HashMap<usize, VarId>) -> (id:
        StmtId)
        requires
            old(self).ready(),
        ensures
            final(self).stepped(*old(self)),
            final(self).count() == old(self).count() + block_vars(old(self).env(), *block),
            block_is(
                final(self).env(),
                final(self).program@,
                outer_locals@,
                *block,
                old(self).count(),
                id,
            ),
            final(self).diagnostics@ == old(self).diagnostics@ + block_reports(
                old(self).env(),
                outer_locals@,
                *block,
                old(self).count(),
            ),
            final(self).program@.nodes() == old(self).program@.nodes().block(
                old(self).env(),
                outer_locals@,
                *block,
                old(self).count(),
            ),
            id == final(self).program@.nodes().last_stmt(),
        decreases *block, 1nat,
    {
        let ghost env = self.env();
        let ghost given = self.diagnostics@;
        let ghost base = self.count();
        let ghost locals = outer_locals@;
        let ghost n = block.statements@.len();
        let mut here: HashMap<usize, VarId> = outer_locals.clone();
        let mut actions: Vec<Action> = Vec::new();
        let ghost start = self.program@.nodes();
        let mut i: usize = 0;
        assert(self.diagnostics@ =~= given + Seq::empty());
        assert(nodes_of(actions@) =~= Seq::empty());
        while i < block.statements.len()
            invariant
                self.stepped(*old(self)),
                env == self.env(),
                n == block.statements@.len(),
                i <= n,
                actions@.len() == i,
                self.count() == base + vars_before(env, *block, i as nat),
                here@ == locals_before(env, *block, locals, base, i as nat),
                forall|j: int| #![trigger actions@[j]]
                    0 <= j < i ==> action_is(
                        env,
                        self.program@,
                        locals,
                        *block,
                        base,
                        j as nat,
                        actions@[j],
                    ),
                self.diagnostics@ == given + steps_reports(env, locals, *block, base, i as nat),
                (self.program@.nodes(), nodes_of(actions@)) == start.steps(
                    env,
                    locals,
                    *block,
                    base,
                    i as nat,
                ),
            decreases n - i,
        {
            let ghost before = self.program@;
            let ghost count = self.count();
            let stmt = &block.statements[i];
            let action = self.lower_step(stmt, &here);
            if let ast::Stmt::Let { name, .. } = stmt {
                let binding = match &action {
                    Action::Let { binding, .. } => *binding,
                    Action::Val { binding, .. } => *binding,
                    Action::Perform { .. } => VarId::invalid(),
                };
                here.insert(name.0, binding);
            }
            proof {
                assert forall|j: int| #![trigger actions@[j]] 0 <= j < i implies action_is(
                    env,
                    self.program@,
                    locals,
                    *block,
                    base,
                    j as nat,
                    actions@[j],
                ) by {
                    lemma_action_grows(
                        env,
                        before,
                        self.program@,
                        locals,
                        *block,
                        base,
                        j as nat,
                        actions@[j],
                    );
                }
                assert(self.diagnostics@ =~= given + steps_reports(
                    env,
                    locals,
                    *block,
                    base,
                    (i + 1) as nat,
                ));
            }
            let ghost actions_before = actions@;
            actions.push(action);
            assert(nodes_of(actions@) =~= nodes_of(actions_before).push(
                action.node(StmtId::invalid()),
            ));
            i += 1;
        }
        let ghost stepped_diagnostics = self.diagnostics@;
        let ghost before_tail = self.program@;
        let mut next = self.lower_tail(block, &here, Ghost(locals), Ghost(base));
        proof {
            assert(self.diagnostics@ =~= given + block_reports(env, locals, *block, base));
            assert forall|j: int| #![trigger actions@[j]] 0 <= j < n implies action_is(
                env,
                self.program@,
                locals,
                *block,
                base,
                j as nat,
                actions@[j],
            ) by {
                lemma_action_grows(
                    env,
                    before_tail,
                    self.program@,
                    locals,
                    *block,
                    base,
                    j as nat,
                    actions@[j],
                );
            }
        }
        let ghost lowered_count = self.count();
        let ghost steps = nodes_of(actions@);
        let ghost with_tail = self.program@.nodes();
        while actions.len() > 0
            invariant
                self.stepped(*old(self)),
                env == self.env(),
                n == block.statements@.len(),
                actions@.len() <= n,
                self.count() == lowered_count,
                self.diagnostics@ == given + block_reports(env, locals, *block, base),
                steps.len() == n,
                forall|j: int| #![trigger actions@[j]]
                    0 <= j < actions@.len() ==> steps[j] == actions@[j].node(StmtId::invalid()),
                self.program@.nodes().chain(steps, actions@.len()) == with_tail.chain(
                    steps,
                    steps.len(),
                ),
                next == self.program@.nodes().last_stmt(),
                block_from(
                    env,
                    self.program@,
                    locals,
                    *block,
                    base,
                    actions@.len(),
                    next,
                ),
                forall|j: int| #![trigger actions@[j]]
                    0 <= j < actions@.len() ==> action_is(
                        env,
                        self.program@,
                        locals,
                        *block,
                        base,
                        j as nat,
                        actions@[j],
                    ),
            decreases actions@.len(),
        {
            let ghost before = self.program@;
            let ghost all = actions@;
            let ghost at = (all.len() - 1) as nat;
            assert(action_is(env, before, locals, *block, base, at, all[at as int]));
            if let Some(action) = actions.pop() {
                let ghost rest = next;
                next = self.push_action(action, next);
                proof {
                    assert(with_next(steps[at as int], rest) == action.node(rest)) by {
                        assert(steps[at as int] == all[at as int].node(StmtId::invalid()));
                    }
                    lemma_block_grows(
                        env,
                        before,
                        self.program@,
                        locals,
                        *block,
                        base,
                        at + 1,
                        rest,
                    );
                    lemma_action_grows(
                        env,
                        before,
                        self.program@,
                        locals,
                        *block,
                        base,
                        at,
                        action,
                    );
                    lemma_step_any_next(
                        env,
                        self.program@,
                        locals_before(env, *block, locals, base, at),
                        block.statements@[at as int],
                        base + vars_before(env, *block, at),
                        action,
                        rest,
                    );
                    assert(block_from(env, self.program@, locals, *block, base, at, next));
                    assert forall|j: int| #![trigger actions@[j]]
                        0 <= j < actions@.len() implies action_is(
                        env,
                        self.program@,
                        locals,
                        *block,
                        base,
                        j as nat,
                        actions@[j],
                    ) by {
                        assert(actions@[j] == all[j]);
                        lemma_action_grows(
                            env,
                            before,
                            self.program@,
                            locals,
                            *block,
                            base,
                            j as nat,
                            all[j],
                        );
                    }
                }
            }
        }
        next
    }

    /// Lowers an expression that performs effects; gives nothing for one that
    /// does not.
    fn lower_effectful_expr(
        &mut self,
        expr: &ast::Expr,
        locals: &HashMap<usize, VarId>,
    ) -> (lowered: Option<StmtId>)
        requires
            old(self).ready(),
        ensures
            final(self).stepped(*old(self)),
            lowered is Some <==> old(self).env().performs(*expr),
            match lowered {
                Some(id) => {
                    &&& final(self).count() == old(self).count() + performed_vars(
                        old(self).env(),
                        *expr,
                    )
                    &&& performed_is(
                        final(self).env(),
                        final(self).program@,
                        locals@,
                        *expr,
                        old(self).count(),
                        id,
                    )
                    &&& final(self).diagnostics@ == old(self).diagnostics@ + performed_reports(
                        old(self).env(),
                        locals@,
                        *expr,
                        old(self).count(),
                    )
                    &&& final(self).program@.nodes() == old(self).program@.nodes().performed(
                        old(self).env(),
                        locals@,
                        *expr,
                        old(self).count(),
                    )
                    &&& id == final(self).program@.nodes().last_stmt()
                },
                None => *final(self) == *old(self),
            },
        decreases *expr, 1nat,
    {
        let ghost env = self.env();
        let ghost given = self.diagnostics@;
        let ghost count = self.count();
        match &expr.kind {
            ast::ExprKind::StageBlock { stage, block } => {
                let body = self.lower_block(block, locals);
                let ghost before = self.program@;
                let id = self.push_stmt(
                    StmtKind::Stage { stage: map_stage_marker(*stage), body, next: None },
                    expr.span,
                );
                proof {
                    lemma_block_grows(
                        env,
                        before,
                        self.program@,
                        locals@,
                        *block,
                        count,
                        0,
                        body,
                    );
                }
                Some(id)
            },
            ast::ExprKind::Call { callee, args } => match self.resolve(callee) {
                CallTarget::Effectful(f) => {
                    let effects = match self.program.function(f) {
                        Some(function) => function.declared_effects.clone(),
                        None => SortedEffectRow::empty(),
                    };
                    assert(effects@ == env.declared[f.0 as int]);
                    let result = self.fresh_var(expr.span);
                    let ids = self.lower_exprs(args, locals);
                    let ghost before = self.program@;
                    let next = self.push_return(result, expr.span);
                    let id = self.push_stmt(
                        StmtKind::Call { result, callee: f, args: ids, effects, next },
                        expr.span,
                    );
                    proof {
                        lemma_exprs_grow(env, before, self.program@, locals@, args@, ids@);
                    }
                    Some(id)
                },
                _ => None,
            },
            ast::ExprKind::Handle { .. } => Some(self.lower_handle(expr, locals)),
            _ => None,
        }
    }

    /// The parameters of a clause: fresh variables, brought into scope.
    fn bind_params(
        &mut self,
        names: &Vec<SymbolId>,
        locals: &HashMap<usize, VarId>,
        origin: Span,
    ) -> (bound: (Vec<VarId>, HashMap<usize, VarId>))
        requires
            old(self).ready(),
        ensures
            final(self).stepped(*old(self)),
            final(self).program == old(self).program,
            final(self).diagnostics == old(self).diagnostics,
            final(self).count() == old(self).count() + names@.len(),
            bound.0@ == vars_from(old(self).count(), names@.len()),
            bound.1@ == bind_from(locals@, names@, old(self).count(), names@.len()),
    {
        let ghost base = self.count();
        let mut scope: HashMap<usize, VarId> = locals.clone();
        let mut params: Vec<VarId> = Vec::new();
        let mut i: usize = 0;
        while i < names.len()
            invariant
                self.stepped(*old(self)),
                self.program == old(self).program,
                self.diagnostics == old(self).diagnostics,
                i <= names@.len(),
                self.count() == base + i,
                params@.len() == i,
                forall|j: int| #![trigger params@[j]]
                    0 <= j < i ==> params@[j] == var_at(base + j as nat),
                scope@ == bind_from(locals@, names@, base, i as nat),
            decreases names@.len() - i,
        {
            let var = self.fresh_var(origin);
            scope.insert(names[i].0, var);
            params.push(var);
            i += 1;
        }
        assert(params@ =~= vars_from(base, names@.len()));
        (params, scope)
    }

    /// The clauses of a handler.
    fn lower_clauses(
        &mut self,
        expr: &ast::Expr,
        label: EffectLabelId,
        locals: &HashMap<usize, VarId>,
    ) -> (lowered: Vec<HandlerClause>)
        requires
            old(self).ready(),
            expr.kind is Handle,
            label == old(self).env().effect(expr.kind->Handle_effect),
        ensures
            final(self).stepped(*old(self)),
            final(self).count() == old(self).count() + clause_vars(
                old(self).env(),
                *expr,
                expr.kind->clauses@.len(),
            ),
            lowered@.len() == expr.kind->clauses@.len(),
            forall|i: int| #![trigger lowered@[i]]
                0 <= i < lowered@.len() ==> clause_is(
                    final(self).env(),
                    final(self).program@,
                    locals@,
                    *expr,
                    old(self).count(),
                    i,
                    lowered@[i]@,
                ),
            final(self).diagnostics@ == old(self).diagnostics@ + clauses_reports(
                old(self).env(),
                locals@,
                *expr,
                old(self).count(),
                expr.kind->clauses@.len(),
            ),
            (final(self).program@.nodes(), crate::common::views(lowered@)) == old(
                self,
            ).program@.nodes().clauses(
                old(self).env(),
                locals@,
                *expr,
                old(self).count(),
                expr.kind->clauses@.len(),
            ),
        decreases expr.kind, 0nat,
    {
        let ghost env = self.env();
        let ghost given = self.diagnostics@;
        let ghost count = self.count();
        let ghost start = self.program@.nodes();
        let mut lowered: Vec<HandlerClause> = Vec::new();
        assert(crate::common::views(lowered@) =~= Seq::empty());
        match &expr.kind {
            ast::ExprKind::Handle { clauses, .. } => {
                let mut seen: HashSet<usize> = HashSet::new();
                let mut i: usize = 0;
                assert(self.diagnostics@ =~= given + Seq::empty());
                while i < clauses.len()
                    invariant
                        self.stepped(*old(self)),
                        env == self.env(),
                        expr.kind is Handle,
                        expr.kind->clauses == *clauses,
                        label == env.effect(expr.kind->Handle_effect),
                        i <= clauses@.len(),
                        self.count() == count + clause_vars(env, *expr, i as nat),
                        lowered@.len() == i,
                        forall|j: int| #![trigger lowered@[j]]
                            0 <= j < i ==> clause_is(
                                env,
                                self.program@,
                                locals@,
                                *expr,
                                count,
                                j,
                                lowered@[j]@,
                            ),
                        forall|op: usize| #[trigger]
                            seen@.contains(op) <==> (exists|j: int|
                                0 <= j < i && (#[trigger] clauses@[j]).operation == SymbolId(op)),
                        self.diagnostics@ == given + clauses_reports(
                            env,
                            locals@,
                            *expr,
                            count,
                            i as nat,
                        ),
                        (self.program@.nodes(), crate::common::views(lowered@)) == start.clauses(
                            env,
                            locals@,
                            *expr,
                            count,
                            i as nat,
                        ),
                    decreases clauses@.len() - i,
                {
                    let ghost before = self.program@;
                    let ghost seen_before = seen@;
                    let clause = &clauses[i];
                    let ghost base = self.count();
                    let (params, scope) = self.bind_params(&clause.params, locals, clause.span);
                    let ghost reported = self.diagnostics@;
                    let new_operation = seen.insert(clause.operation.0);
                    assert(new_operation <==> !repeats(clauses@, i as int)) by {
                        assert(seen_before.contains(clause.operation.0) <==> exists|j: int|
                            0 <= j < i && (#[trigger] clauses@[j]).operation
                                == clause.operation);
                    }
                    assert(reported =~= reported + Seq::empty());
                    if !new_operation {
                        self.diagnostics.error(
                            "LOWER_DUP_HANDLER_CLAUSE",
                            "Duplicate handler clause for operation",
                            clause.span,
                        );
                        assert(self.diagnostics@ =~= reported + one_error(
                            "LOWER_DUP_HANDLER_CLAUSE"@,
                            "Duplicate handler clause for operation"@,
                            clause.span,
                        ));
                    }
                    self.check_operation(
                        label,
                        clause.operation,
                        clause.params.len(),
                        "LOWER_BAD_HANDLER_CLAUSE_ARITY",
                        "Handler clause parameter count",
                        "LOWER_UNKNOWN_HANDLER_OP",
                        "Unknown operation in handler clause for this effect",
                        clause.span,
                    );
                    let body = self.lower_block(&clause.body, &scope);
                    let core_clause = HandlerClause {
                        operation: clause.operation,
                        params,
                        resume_param: None,
                        body,
                        span: clause.span,
                    };
                    proof {
                        assert(clause_is(
                            env,
                            self.program@,
                            locals@,
                            *expr,
                            count,
                            i as int,
                            core_clause@,
                        ));
                        assert forall|j: int| #![trigger lowered@[j]] 0 <= j < i implies clause_is(
                            env,
                            self.program@,
                            locals@,
                            *expr,
                            count,
                            j,
                            lowered@[j]@,
                        ) by {
                            lemma_clause_grows(
                                env,
                                before,
                                self.program@,
                                locals@,
                                *expr,
                                count,
                                j,
                                lowered@[j]@,
                            );
                        }
                        assert(self.diagnostics@ =~= given + clauses_reports(
                            env,
                            locals@,
                            *expr,
                            count,
                            (i + 1) as nat,
                        ));
                        assert forall|op: usize| #[trigger] seen@.contains(op) <==> (exists|j: int|
                            0 <= j < i + 1 && (#[trigger] clauses@[j]).operation == SymbolId(
                                op,
                            )) by {
                            if seen@.contains(op) {
                                if seen_before.contains(op) {
                                    let j = choose|j: int|
                                        0 <= j < i && (#[trigger] clauses@[j]).operation
                                            == SymbolId(op);
                                    assert(clauses@[j].operation == SymbolId(op));
                                } else {
                                    assert(clauses@[i as int].operation == SymbolId(op));
                                }
                            }
                        }
                    }
                    proof {
                        crate::common::lemma_views_push(lowered@, core_clause);
                    }
                    lowered.push(core_clause);
                    i += 1;
                }
            },
            _ => {},
        }
        lowered
    }

    /// The body of a handler.
    #[verifier::spinoff_prover]
    fn lower_handled(&mut self, body: &ast::Expr, locals: &HashMap<usize, VarId>) -> (id: StmtId)
        requires
            old(self).ready(),
        ensures
            final(self).stepped(*old(self)),
            final(self).count() == old(self).count() + handled_vars(old(self).env(), *body),
            handled_is(
                final(self).env(),
                final(self).program@,
                locals@,
                *body,
                old(self).count(),
                id,
            ),
            final(self).diagnostics@ == old(self).diagnostics@ + handled_reports(
                old(self).env(),
                locals@,
                *body,
                old(self).count(),
            ),
            final(self).program@.nodes() == old(self).program@.nodes().handled(
                old(self).env(),
                locals@,
                *body,
                old(self).count(),
            ),
            id == final(self).program@.nodes().last_stmt(),
        decreases *body, 2nat,
    {
        match self.lower_effectful_expr(body, locals) {
            Some(stmt) => stmt,
            None => match &body.kind {
                ast::ExprKind::Block(block) => self.lower_block(block, locals),
                _ => {
                    let value = self.lower_expr(body, locals);
                    let ghost before = self.program@;
                    let stmt = self.push_stmt(StmtKind::Return(value), body.span);
                    proof {
                        lemma_expr_grows(
                            self.env(),
                            before,
                            self.program@,
                            locals@,
                            *body,
                            value,
                        );
                    }
                    stmt
                },
            },
        }
    }

    /// A handled expression.
    #[verifier::rlimit(40)]
    #[verifier::spinoff_prover]
    fn lower_handle(&mut self, expr: &ast::Expr, locals: &HashMap<usize, VarId>) -> (id: StmtId)
        requires
            old(self).ready(),
            expr.kind is Handle,
        ensures
            final(self).stepped(*old(self)),
            final(self).count() == old(self).count() + performed_vars(old(self).env(), *expr),
            performed_is(
                final(self).env(),
                final(self).program@,
                locals@,
                *expr,
                old(self).count(),
                id,
            ),
            final(self).diagnostics@ == old(self).diagnostics@ + performed_reports(
                old(self).env(),
                locals@,
                *expr,
                old(self).count(),
            ),
            final(self).program@.nodes() == old(self).program@.nodes().performed(
                old(self).env(),
                locals@,
                *expr,
                old(self).count(),
            ),
            id == final(self).program@.nodes().last_stmt(),
        decreases expr.kind, 1nat,
    {
        let ghost env = self.env();
        let ghost given = self.diagnostics@;
        let ghost count = self.count();
        match &expr.kind {
            ast::ExprKind::Handle { body, effect, clauses } => {
                let label = self.check_effect(
                    *effect,
                    "LOWER_UNKNOWN_HANDLER_EFFECT",
                    "Unknown effect in `handle` expression during AST->Core lowering",
                    expr.span,
                );
                let return_param = self.fresh_var(expr.span);
                let return_body = self.push_return(return_param, expr.span);
                let core_clauses = self.lower_clauses(expr, label, locals);
                let ghost after_clauses = self.program@;
                let ghost reported = self.diagnostics@;
                let ghost body_count = self.count();
                let def = HandlerDef {
                    effect: label,
                    return_param,
                    return_body,
                    clauses: core_clauses,
                    span: expr.span,
                };
                let ghost clause_models = crate::common::views(core_clauses@);
                proof {
                    assert forall|i: int| #![trigger clause_models[i]]
                        0 <= i < clause_models.len() implies clause_is(
                        env,
                        after_clauses,
                        locals@,
                        *expr,
                        count + 1,
                        i,
                        clause_models[i],
                    ) by {
                        assert(clause_models[i] == core_clauses@[i]@);
                    }
                    assert(def@.clauses == clause_models);
                }
                let handler = self.add_handler(def, Ghost(env), Ghost(locals@), Ghost(*expr), Ghost(
                    count + 1,
                ));
                let ghost with_handler = self.program@;
                let body_stmt = self.lower_handled(body, locals);
                let ghost before = self.program@;
                let id = self.push_stmt(
                    StmtKind::Handle { handler, body: body_stmt, next: None },
                    expr.span,
                );
                proof {
                    lemma_handled_grows(
                        env,
                        before,
                        self.program@,
                        locals@,
                        **body,
                        body_count,
                        body_stmt,
                    );
                    assert(self.program@.handler(handler) == def@);
                    assert forall|i: int| #![trigger self.program@.handler(handler).clauses[i]]
                        0 <= i < clauses@.len() implies clause_is(
                        env,
                        self.program@,
                        locals@,
                        *expr,
                        count + 1,
                        i,
                        self.program@.handler(handler).clauses[i],
                    ) by {
                        assert(self.program@.handler(handler).clauses[i] == clause_models[i]);
                        lemma_clause_grows(
                            env,
                            after_clauses,
                            self.program@,
                            locals@,
                            *expr,
                            count + 1,
                            i,
                            clause_models[i],
                        );
                    }
                    assert(self.diagnostics@ =~= given + performed_reports(
                        env,
                        locals@,
                        *expr,
                        count,
                    ));
                }
                id
            },
            _ => {
                assert(false);
                StmtId::invalid()
            },
        }
    }

    fn add_handler(
        &mut self,
        def: HandlerDef,
        Ghost(env): Ghost<LowerEnv>,
        Ghost(locals): Ghost<Locals>,
        Ghost(e): Ghost<ast::Expr>,
        Ghost(count): Ghost<nat>,
    ) -> (id: HandlerId)
        requires
            old(self).ready(),
            old(self).program@.has_stmt(def.return_body),
            e.kind is Handle,
            def@.clauses.len() == e.kind->clauses@.len(),
            forall|i: int| #![trigger def@.clauses[i]]
                0 <= i < def@.clauses.len() ==> clause_is(
                    env,
                    old(self).program@,
                    locals,
                    e,
                    count,
                    i,
                    def@.clauses[i],
                ),
        ensures
            final(self).stepped(*old(self)),
            final(self).origins == old(self).origins,
            final(self).diagnostics == old(self).diagnostics,
            final(self).program@.has_handler(id),
            final(self).program@.handler(id) == def@,
            final(self).program@.nodes() == (Nodes {
                handlers: old(self).program@.handlers.push(def@),
                ..old(self).program@.nodes()
            }),
            id.0 == old(self).program@.handlers.len(),
    {
        let ghost p = self.program@;
        let id = self.program.add_handler(def);
        proof {
            let q = self.program@;
            assert(q.bottom_up()) by {
                assert(forall|x: ExprId, part: ExprId| #![trigger q.expr(x).has_part(part)]
                    q.expr(x).has_part(part) == p.expr(x).has_part(part));
                assert(forall|x: StmtId, part: StmtId| #![trigger q.stmt(x).has_part(part)]
                    q.stmt(x).has_part(part) == p.stmt(x).has_part(part));
                assert(forall|x: StmtId, part: ExprId| #![trigger q.stmt(x).has_expr(part)]
                    q.stmt(x).has_expr(part) == p.stmt(x).has_expr(part));
            }
            assert(forall|f: FuncId| #![trigger q.function(f)] q.function(f) == p.function(f));
            assert forall|h: HandlerId| #![trigger q.handler(h)] q.has_handler(h) implies q.has_stmt(
                q.handler(h).return_body,
            ) by {
                if p.has_handler(h) {
                    assert(q.handler(h) == p.handler(h));
                } else {
                    assert(q.handler(h) == def@);
                }
            }
            assert forall|h: HandlerId, i: int| #![trigger q.handler(h).clauses[i]]
                q.has_handler(h) && 0 <= i < q.handler(h).clauses.len() implies q.has_stmt(
                q.handler(h).clauses[i].body,
            ) by {
                if p.has_handler(h) {
                    assert(q.handler(h) == p.handler(h));
                    assert(p.has_stmt(p.handler(h).clauses[i].body));
                } else {
                    assert(q.handler(h) == def@);
                    assert(clause_is(env, p, locals, e, count, i, def@.clauses[i]));
                }
            }
        }
        id
    }
}

/// The statements that some actions become, but for what comes after them.
pub open spec fn nodes_of(actions: Seq<Action>) -> Seq<StmtNodeModel> {
    actions.map_values(|action: Action| action.node(StmtId::invalid()))
}

/// A statement of a block has become an action.
pub open spec fn action_is(
    env: LowerEnv,
    core: CoreModel,
    locals: Locals,
    block: ast::BlockExpr,
    base: nat,
    at: nat,
    action: Action,
) -> bool {
    &&& action.exists_in(core)
    &&& step_is(
        env,
        core,
        locals_before(env, block, locals, base, at),
        block.statements@[at as int],
        base + vars_before(env, block, at),
        action.node(StmtId::invalid()),
    )
}

/// What a statement says of the source does not hang on what comes after it.
proof fn lemma_step_any_next(
    env: LowerEnv,
    core: CoreModel,
    here: Locals,
    stmt: ast::Stmt,
    count: nat,
    action: Action,
    next: StmtId,
)
    requires
        step_is(env, core, here, stmt, count, action.node(StmtId::invalid())),
    ensures
        step_is(env, core, here, stmt, count, action.node(next)),
{
    match stmt {
        ast::Stmt::Let { value, .. } => {
            assert(binds(env, core, here, value, count, action.node(next).kind));
        },
        ast::Stmt::Expr { value, .. } => {
            assert(binds(env, core, here, value, count, action.node(next).kind));
        },
        _ => {},
    }
}

proof fn lemma_action_grows(
    env: LowerEnv,
    a: CoreModel,
    b: CoreModel,
    locals: Locals,
    block: ast::BlockExpr,
    base: nat,
    at: nat,
    action: Action,
)
    requires
        b.extends(a),
        action_is(env, a, locals, block, base, at, action),
    ensures
        action_is(env, b, locals, block, base, at, action),
{
    lemma_step_grows(
        env,
        a,
        b,
        locals_before(env, block, locals, base, at),
        block.statements@[at as int],
        base + vars_before(env, block, at),
        action.node(StmtId::invalid()),
    );
}

// ---------------------------------------------------------------------------
// Whole programs
// ---------------------------------------------------------------------------

/// What the declarations of effects, structs and enums say.
#[verifier::ext_equal]
pub struct Declared {
    pub effects: Map<usize, EffectLabelId>,
    pub operations: Seq<OperationArity>,
    pub structs: Map<usize, usize>,
    pub enums: Map<usize, (SymbolId, usize)>,
    pub struct_decls: Seq<AdtStructDecl>,
    pub enum_decls: Seq<EnumModel>,
}

/// The arities of the operations of an effect.
pub open spec fn operations_of(label: EffectLabelId, effect: ast::EffectItem) -> Seq<
    OperationArity,
> {
    Seq::new(
        effect.operations@.len(),
        |i: int|
            OperationArity {
                effect: label,
                operation: effect.operations@[i].name,
                arity: effect.operations@[i].params@.len() as usize,
            },
    )
}

/// The variants of an enum, declared one after the other.
pub open spec fn with_variants(
    enums: Map<usize, (SymbolId, usize)>,
    decl: ast::EnumItem,
    first: nat,
) -> Map<usize, (SymbolId, usize)>
    decreases first,
{
    if first == 0 {
        enums
    } else {
        let variant = decl.variants@[first - 1];
        with_variants(enums, decl, (first - 1) as nat).insert(
            variant.name.0,
            (decl.name, variant.fields@.len() as usize),
        )
    }
}

/// The declaration of an enum.
pub open spec fn enum_decl(decl: ast::EnumItem) -> EnumModel {
    EnumModel {
        name: decl.name,
        variants: Seq::new(
            decl.variants@.len(),
            |i: int|
                AdtEnumVariantDecl {
                    name: decl.variants@[i].name,
                    field_count: decl.variants@[i].fields@.len() as usize,
                    span: decl.variants@[i].span,
                },
        ),
        span: decl.span,
    }
}

/// What the first items of a program declare, functions aside. The label of an
/// effect is the number of names that had a label before it.
pub open spec fn declarations(items: Seq<ast::Item>, first: nat) -> Declared
    decreases first,
{
    if first == 0 {
        Declared {
            effects: Map::empty(),
            operations: Seq::empty(),
            structs: Map::empty(),
            enums: Map::empty(),
            struct_decls: Seq::empty(),
            enum_decls: Seq::empty(),
        }
    } else {
        let before = declarations(items, (first - 1) as nat);
        match items[first - 1] {
            ast::Item::Effect(effect) => {
                let label = EffectLabelId(before.effects.len() as usize);
                Declared {
                    effects: before.effects.insert(effect.name.0, label),
                    operations: before.operations + operations_of(label, effect),
                    ..before
                }
            },
            ast::Item::Struct(decl) => Declared {
                structs: before.structs.insert(decl.name.0, decl.fields@.len() as usize),
                struct_decls: before.struct_decls.push(
                    AdtStructDecl {
                        name: decl.name,
                        field_count: decl.fields@.len() as usize,
                        span: decl.span,
                    },
                ),
                ..before
            },
            ast::Item::Enum(decl) => Declared {
                enums: with_variants(before.enums, decl, decl.variants@.len()),
                enum_decls: before.enum_decls.push(enum_decl(decl)),
                ..before
            },
            _ => before,
        }
    }
}

/// The functions among the first items of a program, in order.
pub open spec fn functions_in(items: Seq<ast::Item>, first: nat) -> Seq<ast::FunctionItem>
    decreases first,
{
    if first == 0 {
        Seq::empty()
    } else {
        let before = functions_in(items, (first - 1) as nat);
        match items[first - 1] {
            ast::Item::Function(function) => before.push(function),
            _ => before,
        }
    }
}

/// The first functions, by name: of two with one name, the later.
pub open spec fn functions_named(functions: Seq<ast::FunctionItem>, first: nat) -> Map<usize, FuncId>
    decreases first,
{
    if first == 0 {
        Map::empty()
    } else {
        functions_named(functions, (first - 1) as nat).insert(
            functions[first - 1].name.0,
            FuncId((first - 1) as usize),
        )
    }
}

/// The parameters of the first functions.
pub open spec fn params_before(functions: Seq<ast::FunctionItem>, first: nat) -> nat
    decreases first,
{
    if first == 0 {
        0
    } else {
        params_before(functions, (first - 1) as nat) + functions[first - 1].params@.len()
    }
}

/// The variables of the bodies of the first functions.
pub open spec fn bodies_before(env: LowerEnv, functions: Seq<ast::FunctionItem>, first: nat) -> nat
    decreases first,
{
    if first == 0 {
        0
    } else {
        bodies_before(env, functions, (first - 1) as nat) + block_vars(
            env,
            functions[first - 1].body,
        )
    }
}

/// The names of some parameters.
pub open spec fn names_of(params: Seq<ast::Param>) -> Seq<SymbolId> {
    Seq::new(params.len(), |i: int| params[i].name)
}

/// What the names of a program stand for in its bodies.
pub open spec fn program_env(ast: ast::Program, core: CoreModel) -> LowerEnv {
    let known = declarations(ast.items@, ast.items@.len());
    let functions = functions_in(ast.items@, ast.items@.len());
    LowerEnv {
        functions: functions_named(functions, functions.len()),
        declared: declared_of(core.functions),
        effects: known.effects,
        operations: known.operations,
        structs: known.structs,
        enums: known.enums,
    }
}

/// A row of the labels of those names that have one.
pub open spec fn annotated(
    effects: Map<usize, EffectLabelId>,
    names: Seq<SymbolId>,
    row: Seq<EffectLabelId>,
) -> bool {
    &&& crate::sema::effect::ascending(row)
    &&& forall|label: EffectLabelId| #[trigger]
        row.contains(label) <==> (exists|i: int| #![trigger names[i]]
            0 <= i < names.len() && effects.contains_key(names[i].0) && effects[names[i].0]
                == label)
}

/// What a core function says of a function of the tree, its body aside.
pub open spec fn header_is(
    effects: Map<usize, EffectLabelId>,
    functions: Seq<ast::FunctionItem>,
    i: int,
    core_function: FunctionModel,
) -> bool {
    let source = functions[i];
    &&& core_function.name == source.name
    &&& core_function.params == vars_from(params_before(functions, i as nat), source.params@.len())
    &&& core_function.param_types == Seq::new(
        source.params@.len(),
        |j: int| TypeId::invalid(),
    )
    &&& core_function.return_type == TypeId::invalid()
    &&& annotated(effects, source.effects@, core_function.declared_effects)
    &&& core_function.ct_only == false
    &&& core_function.span == source.span
}

/// What the body of a core function says of a function of the tree.
pub open spec fn body_is(
    env: LowerEnv,
    core: CoreModel,
    functions: Seq<ast::FunctionItem>,
    i: int,
    body: StmtId,
) -> bool {
    let source = functions[i];
    block_is(
        env,
        core,
        bind_from(
            Map::empty(),
            names_of(source.params@),
            params_before(functions, i as nat),
            source.params@.len(),
        ),
        source.body,
        params_before(functions, functions.len()) + bodies_before(env, functions, i as nat),
        body,
    )
}

/// The functions that a program starts from: those that have a name that was
/// asked for.
pub open spec fn entry_list(
    wanted: Seq<SymbolId>,
    functions: Seq<ast::FunctionItem>,
    named: Map<usize, FuncId>,
    first: nat,
) -> Seq<FuncId>
    decreases first,
{
    if first == 0 {
        Seq::empty()
    } else {
        let before = entry_list(wanted, functions, named, (first - 1) as nat);
        let name = functions[first - 1].name;
        if wanted.contains(name) {
            before.push(named[name.0])
        } else {
            before
        }
    }
}

/// What is reported of the effects that the first of some names do not name.
pub open spec fn annotation_reports(
    effects: Map<usize, EffectLabelId>,
    names: Seq<SymbolId>,
    span: Span,
    first: nat,
) -> Seq<DiagnosticModel>
    decreases first,
{
    if first == 0 {
        Seq::empty()
    } else {
        let before = annotation_reports(effects, names, span, (first - 1) as nat);
        if effects.contains_key(names[first - 1].0) {
            before
        } else {
            before + one_error(
                "LOWER_UNKNOWN_EFFECT_ANNOT"@,
                "Unknown effect in function `with` annotation"@,
                span,
            )
        }
    }
}

/// What is reported of the headers of the first functions.
pub open spec fn header_reports(
    effects: Map<usize, EffectLabelId>,
    functions: Seq<ast::FunctionItem>,
    first: nat,
) -> Seq<DiagnosticModel>
    decreases first,
{
    if first == 0 {
        Seq::empty()
    } else {
        let source = functions[first - 1];
        header_reports(effects, functions, (first - 1) as nat) + annotation_reports(
            effects,
            source.effects@,
            source.span,
            source.effects@.len(),
        )
    }
}

/// What is reported of the bodies of the first functions.
pub open spec fn body_reports(
    env: LowerEnv,
    functions: Seq<ast::FunctionItem>,
    first: nat,
) -> Seq<DiagnosticModel>
    decreases first,
{
    if first == 0 {
        Seq::empty()
    } else {
        let i = (first - 1) as nat;
        let source = functions[i as int];
        body_reports(env, functions, i) + block_reports(
            env,
            bind_from(
                Map::empty(),
                names_of(source.params@),
                params_before(functions, i),
                source.params@.len(),
            ),
            source.body,
            params_before(functions, functions.len()) + bodies_before(env, functions, i),
        )
    }
}

/// What a core program says of a syntax tree.
pub open spec fn program_is(ast: ast::Program, wanted: Seq<SymbolId>, core: CoreModel) -> bool {
    let known = declarations(ast.items@, ast.items@.len());
    let functions = functions_in(ast.items@, ast.items@.len());
    let env = program_env(ast, core);
    &&& core.effects == Seq::<crate::ir::core_ir::EffectModel>::empty()
    &&& core.structs == known.struct_decls
    &&& core.enums == known.enum_decls
    &&& core.functions.len() == functions.len()
    &&& forall|i: int| #![trigger core.functions[i]]
        0 <= i < functions.len() ==> {
            &&& header_is(known.effects, functions, i, core.functions[i])
            &&& body_is(env, core, functions, i, core.functions[i].body)
        }
    &&& core.entrypoints == entry_list(wanted, functions, env.functions, functions.len())
}

/// What is reported of a syntax tree.
pub open spec fn program_reports(ast: ast::Program, core: CoreModel) -> Seq<DiagnosticModel> {
    let known = declarations(ast.items@, ast.items@.len());
    let functions = functions_in(ast.items@, ast.items@.len());
    header_reports(known.effects, functions, functions.len()) + body_reports(
        program_env(ast, core),
        functions,
        functions.len(),
    )
}

impl Lowerer {
    pub fn new() -> (lowerer: Self)
        ensures
            lowerer.program@ == CoreModel::empty(),
            lowerer.ready(),
            lowerer.count() == 0,
            lowerer.diagnostics@ == Seq::<DiagnosticModel>::empty(),
            lowerer.functions_by_name@ == Map::<usize, FuncId>::empty(),
            lowerer.effect_labels@ == Map::<usize, EffectLabelId>::empty(),
            lowerer.effect_ops@ == Seq::<OperationArity>::empty(),
            lowerer.struct_ctors@ == Map::<usize, usize>::empty(),
            lowerer.enum_ctors@ == Map::<usize, (SymbolId, usize)>::empty(),
    {
        Lowerer {
            program: CoreProgram::new(),
            diagnostics: DiagnosticBag::default(),
            origins: Vec::new(),
            functions_by_name: HashMap::new(),
            effect_labels: HashMap::new(),
            effect_ops: Vec::new(),
            struct_ctors: HashMap::new(),
            enum_ctors: HashMap::new(),
        }
    }

    /// What has been declared so far, functions aside.
    pub open spec fn declared(self) -> Declared {
        Declared {
            effects: self.effect_labels@,
            operations: self.effect_ops@,
            structs: self.struct_ctors@,
            enums: self.enum_ctors@,
            struct_decls: self.program@.structs,
            enum_decls: self.program@.enums,
        }
    }

    /// A state in which only declarations have been made.
    pub open spec fn declaring(self) -> bool {
        &&& self.program@ == (CoreModel {
            structs: self.program@.structs,
            enums: self.program@.enums,
            ..CoreModel::empty()
        })
        &&& self.count() == 0
        &&& self.diagnostics@ == Seq::<DiagnosticModel>::empty()
        &&& self.functions_by_name@ == Map::<usize, FuncId>::empty()
        &&& self.effect_labels@.dom().finite()
    }

    fn declare_effect(&mut self, effect: &ast::EffectItem)
        requires
            old(self).declaring(),
        ensures
            final(self).declaring(),
            final(self).declared() == ({
                let label = EffectLabelId(old(self).effect_labels@.len() as usize);
                Declared {
                    effects: old(self).effect_labels@.insert(effect.name.0, label),
                    operations: old(self).effect_ops@ + operations_of(label, *effect),
                    ..old(self).declared()
                }
            }),
    {
        let label = EffectLabelId::new(self.effect_labels.len());
        self.effect_labels.insert(effect.name.0, label);
        let ghost all = operations_of(label, *effect);
        let mut i: usize = 0;
        assert(self.effect_ops@ =~= old(self).effect_ops@ + all.take(0));
        while i < effect.operations.len()
            invariant
                i <= effect.operations@.len(),
                all == operations_of(label, *effect),
                self.program == old(self).program,
                self.origins == old(self).origins,
                self.diagnostics == old(self).diagnostics,
                self.functions_by_name == old(self).functions_by_name,
                self.effect_labels@ == old(self).effect_labels@.insert(effect.name.0, label),
                self.struct_ctors == old(self).struct_ctors,
                self.enum_ctors == old(self).enum_ctors,
                self.effect_ops@ == old(self).effect_ops@ + all.take(i as int),
            decreases effect.operations@.len() - i,
        {
            let operation = &effect.operations[i];
            self.effect_ops.push(
                OperationArity {
                    effect: label,
                    operation: operation.name,
                    arity: operation.params.len(),
                },
            );
            assert(self.effect_ops@ =~= old(self).effect_ops@ + all.take(i as int + 1));
            i += 1;
        }
        assert(all.take(i as int) =~= all);
    }

    fn declare_struct(&mut self, decl: &ast::StructItem)
        requires
            old(self).declaring(),
        ensures
            final(self).declaring(),
            final(self).declared() == (Declared {
                structs: old(self).struct_ctors@.insert(decl.name.0, decl.fields@.len() as usize),
                struct_decls: old(self).program@.structs.push(
                    AdtStructDecl {
                        name: decl.name,
                        field_count: decl.fields@.len() as usize,
                        span: decl.span,
                    },
                ),
                ..old(self).declared()
            }),
    {
        self.struct_ctors.insert(decl.name.0, decl.fields.len());
        self.program.add_struct(
            AdtStructDecl {
                name: decl.name,
                field_count: decl.fields.len(),
                span: decl.span,
            },
        );
    }

    fn declare_enum(&mut self, decl: &ast::EnumItem)
        requires
            old(self).declaring(),
        ensures
            final(self).declaring(),
            final(self).declared() == (Declared {
                enums: with_variants(old(self).enum_ctors@, *decl, decl.variants@.len()),
                enum_decls: old(self).program@.enums.push(enum_decl(*decl)),
                ..old(self).declared()
            }),
    {
        let mut variants: Vec<AdtEnumVariantDecl> = Vec::new();
        let ghost all = enum_decl(*decl).variants;
        let mut i: usize = 0;
        while i < decl.variants.len()
            invariant
                i <= decl.variants@.len(),
                all == enum_decl(*decl).variants,
                self.program == old(self).program,
                self.origins == old(self).origins,
                self.diagnostics == old(self).diagnostics,
                self.functions_by_name == old(self).functions_by_name,
                self.effect_labels == old(self).effect_labels,
                self.effect_ops == old(self).effect_ops,
                self.struct_ctors == old(self).struct_ctors,
                self.enum_ctors@ == with_variants(old(self).enum_ctors@, *decl, i as nat),
                variants@ == all.take(i as int),
            decreases decl.variants@.len() - i,
        {
            let variant = &decl.variants[i];
            self.enum_ctors.insert(variant.name.0, (decl.name, variant.fields.len()));
            variants.push(
                AdtEnumVariantDecl {
                    name: variant.name,
                    field_count: variant.fields.len(),
                    span: variant.span,
                },
            );
            assert(variants@ =~= all.take(i as int + 1));
            i += 1;
        }
        assert(all.take(i as int) =~= all);
        self.program.add_enum(AdtEnumDecl { name: decl.name, variants, span: decl.span });
    }

    /// The declarations of effects, structs and enums.
    fn declare_items(&mut self, items: &Vec<ast::Item>)
        requires
            old(self).declaring(),
            old(self).declared() == declarations(items@, 0),
        ensures
            final(self).declaring(),
            final(self).declared() == declarations(items@, items@.len()),
    {
        let mut i: usize = 0;
        while i < items.len()
            invariant
                i <= items@.len(),
                self.declaring(),
                self.declared() == declarations(items@, i as nat),
            decreases items@.len() - i,
        {
            match &items[i] {
                ast::Item::Effect(effect) => self.declare_effect(effect),
                ast::Item::Struct(decl) => self.declare_struct(decl),
                ast::Item::Enum(decl) => self.declare_enum(decl),
                _ => {},
            }
            i += 1;
        }
    }

    /// The row of the effects that a function names, where it names any.
    fn declared_row(&mut self, function: &ast::FunctionItem) -> (row: SortedEffectRow)
        requires
            old(self).ready(),
        ensures
            final(self).stepped_pure(*old(self)),
            final(self).program == old(self).program,
            annotated(old(self).effect_labels@, function.effects@, row@),
            final(self).diagnostics@ == old(self).diagnostics@ + annotation_reports(
                old(self).effect_labels@,
                function.effects@,
                function.span,
                function.effects@.len(),
            ),
    {
        let ghost effects = self.effect_labels@;
        let ghost names = function.effects@;
        let ghost given = self.diagnostics@;
        let mut labels: Vec<EffectLabelId> = Vec::new();
        let mut i: usize = 0;
        assert(given =~= given + Seq::empty());
        while i < function.effects.len()
            invariant
                i <= names.len(),
                names == function.effects@,
                effects == self.effect_labels@,
                self.stepped_pure(*old(self)),
                self.program == old(self).program,
                forall|label: EffectLabelId| #[trigger]
                    labels@.contains(label) <==> (exists|j: int| #![trigger names[j]]
                        0 <= j < i && effects.contains_key(names[j].0) && effects[names[j].0]
                            == label),
                self.diagnostics@ == given + annotation_reports(
                    effects,
                    names,
                    function.span,
                    i as nat,
                ),
            decreases names.len() - i,
        {
            let name = function.effects[i];
            let ghost before = labels@;
            let ghost reported = self.diagnostics@;
            match self.effect_labels.get(&name.0) {
                Some(label) => {
                    labels.push(*label);
                    proof {
                        crate::common::reach::lemma_pushed(before, *label);
                    }
                },
                None => {
                    self.diagnostics.error(
                        "LOWER_UNKNOWN_EFFECT_ANNOT",
                        "Unknown effect in function `with` annotation",
                        function.span,
                    );
                    assert(self.diagnostics@ =~= given + annotation_reports(
                        effects,
                        names,
                        function.span,
                        (i + 1) as nat,
                    ));
                },
            }
            proof {
                assert forall|label: EffectLabelId| #[trigger] labels@.contains(label) <==> (exists|
                    j: int,
                | #![trigger names[j]]
                    0 <= j < i + 1 && effects.contains_key(names[j].0) && effects[names[j].0]
                        == label) by {
                    if labels@.contains(label) {
                        if before.contains(label) {
                            let j = choose|j: int| #![trigger names[j]]
                                0 <= j < i && effects.contains_key(names[j].0)
                                    && effects[names[j].0] == label;
                            assert(names[j] == names[j]);
                        } else {
                            assert(names[i as int] == name);
                        }
                    }
                    if exists|j: int| #![trigger names[j]]
                        0 <= j < i + 1 && effects.contains_key(names[j].0) && effects[names[j].0]
                            == label {
                        let j = choose|j: int| #![trigger names[j]]
                            0 <= j < i + 1 && effects.contains_key(names[j].0)
                                && effects[names[j].0] == label;
                        if j < i {
                            assert(before.contains(label));
                        }
                    }
                }
            }
            i += 1;
        }
        SortedEffectRow::new(labels)
    }

    /// The first functions of a program have been declared.
    pub open spec fn declared_functions(
        self,
        known: Declared,
        functions: Seq<ast::FunctionItem>,
        first: nat,
    ) -> bool {
        &&& self.ready()
        &&& self.declared() == known
        &&& self.program@.effects == Seq::<crate::ir::core_ir::EffectModel>::empty()
        &&& self.program@.functions.len() == first
        &&& forall|i: int| #![trigger self.program@.functions[i]]
            0 <= i < first ==> header_is(
                known.effects,
                functions,
                i,
                self.program@.functions[i],
            )
        &&& self.functions_by_name@ == functions_named(functions, first)
        &&& self.count() == params_before(functions, first)
        &&& self.diagnostics@ == header_reports(known.effects, functions, first)
        &&& self.program@.nodes() == Nodes::start().headers(functions, first)
    }

    /// A function is declared before its body is lowered: until then its body
    /// returns nothing.
    fn declare_function(
        &mut self,
        function: &ast::FunctionItem,
        Ghost(known): Ghost<Declared>,
        Ghost(functions): Ghost<Seq<ast::FunctionItem>>,
        Ghost(i): Ghost<nat>,
    )
        requires
            old(self).declared_functions(known, functions, i),
            i < functions.len(),
            functions[i as int] == *function,
        ensures
            final(self).declared_functions(known, functions, i + 1),
    {
        let ghost base = self.count();
        let mut params: Vec<VarId> = Vec::new();
        let mut param_types: Vec<TypeId> = Vec::new();
        let mut k: usize = 0;
        while k < function.params.len()
            invariant
                self.stepped(*old(self)),
                self.program == old(self).program,
                self.diagnostics == old(self).diagnostics,
                k <= function.params@.len(),
                self.count() == base + k,
                params@.len() == k,
                forall|j: int| #![trigger params@[j]]
                    0 <= j < k ==> params@[j] == var_at(base + j as nat),
                param_types@.len() == k,
                forall|j: int| #![trigger param_types@[j]]
                    0 <= j < k ==> param_types@[j] == TypeId::invalid(),
            decreases function.params@.len() - k,
        {
            let var = self.fresh_var(function.params[k].span);
            params.push(var);
            param_types.push(TypeId::invalid());
            k += 1;
        }
        assert(params@ =~= vars_from(base, function.params@.len()));
        assert(param_types@ =~= Seq::new(function.params@.len(), |j: int| TypeId::invalid()));
        let unit = self.push_expr(ExprKind::Literal(Literal::Unit), function.span);
        let dummy = self.push_stmt(StmtKind::Return(unit), function.span);
        let declared_effects = self.declared_row(function);
        let ghost before = self.program@;
        let decl = FunctionDecl {
            name: function.name,
            params,
            param_types,
            return_type: TypeId::invalid(),
            declared_effects,
            body: dummy,
            ct_only: false,
            span: function.span,
        };
        let id = self.program.add_function(decl);
        self.functions_by_name.insert(function.name.0, id);
        proof {
            let p = self.program@;
            lemma_bottom_up_same_nodes(before, p);
            assert forall|f: FuncId| #![trigger p.function(f)] p.has_function(f) implies p.has_stmt(
                p.function(f).body,
            ) by {
                if before.has_function(f) {
                    assert(p.function(f) == before.function(f));
                } else {
                    assert(p.function(f) == decl@);
                }
            }
            assert(forall|h: HandlerId| #![trigger p.handler(h)] p.handler(h) == before.handler(h));
            assert(self.diagnostics@ =~= header_reports(known.effects, functions, i + 1));
            assert forall|j: int| #![trigger p.functions[j]] 0 <= j < i + 1 implies header_is(
                known.effects,
                functions,
                j,
                p.functions[j],
            ) by {
                if j < i {
                    assert(p.functions[j] == before.functions[j]);
                } else {
                    assert(p.functions[j] == decl@);
                }
            }
        }
    }

    /// The bodies of the first functions have been lowered.
    pub open spec fn lowered_bodies(
        self,
        env: LowerEnv,
        known: Declared,
        functions: Seq<ast::FunctionItem>,
        first: nat,
    ) -> bool {
        &&& self.ready()
        &&& self.env() == env
        &&& self.declared() == known
        &&& self.program@.effects == Seq::<crate::ir::core_ir::EffectModel>::empty()
        &&& self.program@.functions.len() == functions.len()
        &&& forall|i: int| #![trigger self.program@.functions[i]]
            0 <= i < functions.len() ==> header_is(
                known.effects,
                functions,
                i,
                self.program@.functions[i],
            )
        &&& forall|i: int| #![trigger self.program@.functions[i]]
            0 <= i < first ==> body_is(
                env,
                self.program@,
                functions,
                i,
                self.program@.functions[i].body,
            )
        &&& self.count() == params_before(functions, functions.len()) + bodies_before(
            env,
            functions,
            first,
        )
        &&& self.diagnostics@ == header_reports(known.effects, functions, functions.len())
            + body_reports(env, functions, first)
        &&& self.program@.nodes() == Nodes::start().headers(functions, functions.len()).bodies(
            env,
            functions,
            first,
        )
        &&& forall|i: int| #![trigger self.program@.functions[i]]
            0 <= i < first ==> self.program@.functions[i].body == Nodes::start().headers(
                functions,
                functions.len(),
            ).bodies(env, functions, (i + 1) as nat).last_stmt()
    }

    /// The parameters of a function, under their names.
    fn param_locals(
        &self,
        function: &ast::FunctionItem,
        id: FuncId,
        Ghost(base): Ghost<nat>,
    ) -> (locals: HashMap<usize, VarId>)
        requires
            id.0 < self.program@.functions.len(),
            self.program@.functions[id.0 as int].params == vars_from(base, function.params@.len()),
        ensures
            locals@ == bind_from(
                Map::empty(),
                names_of(function.params@),
                base,
                function.params@.len(),
            ),
    {
        let ghost names = names_of(function.params@);
        let mut locals: HashMap<usize, VarId> = HashMap::new();
        let mut k: usize = 0;
        while k < function.params.len()
            invariant
                k <= function.params@.len(),
                id.0 < self.program@.functions.len(),
                self.program@.functions[id.0 as int].params == vars_from(
                    base,
                    function.params@.len(),
                ),
                names == names_of(function.params@),
                locals@ == bind_from(Map::empty(), names, base, k as nat),
            decreases function.params@.len() - k,
        {
            let var = self.program.functions[id.0].params[k];
            assert(var == var_at(base + k as nat));
            locals.insert(function.params[k].name.0, var);
            k += 1;
        }
        locals
    }

    #[verifier::rlimit(40)]
    #[verifier::spinoff_prover]
    fn lower_body(
        &mut self,
        function: &ast::FunctionItem,
        id: FuncId,
        Ghost(env): Ghost<LowerEnv>,
        Ghost(known): Ghost<Declared>,
        Ghost(functions): Ghost<Seq<ast::FunctionItem>>,
    )
        requires
            old(self).lowered_bodies(env, known, functions, id.0 as nat),
            id.0 < functions.len(),
            functions[id.0 as int] == *function,
        ensures
            final(self).lowered_bodies(env, known, functions, id.0 as nat + 1),
    {
        let ghost i = id.0 as nat;
        let ghost base = params_before(functions, i);
        assert(header_is(known.effects, functions, i as int, self.program@.functions[i as int]));
        let locals = self.param_locals(function, id, Ghost(base));
        let ghost first = self.program@;
        let ghost given = self.diagnostics@;
        let body = self.lower_block(&function.body, &locals);
        let ghost before = self.program@;
        self.program.set_function_body(id, body);
        proof {
            let p = self.program@;
            assert(declared_of(p.functions) =~= declared_of(before.functions));
            lemma_bottom_up_same_nodes(before, p);
            assert forall|f: FuncId| #![trigger p.function(f)] p.has_function(f) implies p.has_stmt(
                p.function(f).body,
            ) by {
                if f != id {
                    assert(p.function(f) == before.function(f));
                }
            }
            assert(forall|h: HandlerId| #![trigger p.handler(h)] p.handler(h) == before.handler(h));
            assert(p.extends(before));
            assert forall|j: int| #![trigger p.functions[j]] 0 <= j < i + 1 implies body_is(
                env,
                p,
                functions,
                j,
                p.functions[j].body,
            ) by {
                let locals_j = bind_from(
                    Map::empty(),
                    names_of(functions[j].params@),
                    params_before(functions, j as nat),
                    functions[j].params@.len(),
                );
                let base_j = params_before(functions, functions.len()) + bodies_before(
                    env,
                    functions,
                    j as nat,
                );
                if j < i {
                    assert(p.functions[j] == first.functions[j]);
                    assert(body_is(env, first, functions, j, first.functions[j].body));
                    lemma_block_grows(
                        env,
                        first,
                        p,
                        locals_j,
                        functions[j].body,
                        base_j,
                        0,
                        first.functions[j].body,
                    );
                } else {
                    lemma_block_grows(
                        env,
                        before,
                        p,
                        locals_j,
                        functions[j].body,
                        base_j,
                        0,
                        body,
                    );
                }
            }
            assert forall|j: int| #![trigger p.functions[j]]
                0 <= j < functions.len() implies header_is(
                known.effects,
                functions,
                j,
                p.functions[j],
            ) by {
                assert(header_is(known.effects, functions, j, first.functions[j]));
            }
            assert(self.diagnostics@ =~= header_reports(known.effects, functions, functions.len())
                + body_reports(env, functions, i + 1));
        }
    }

    /// The functions that the program starts from.
    fn find_entrypoints(
        &self,
        wanted: &Vec<SymbolId>,
        work: &Vec<&ast::FunctionItem>,
        Ghost(functions): Ghost<Seq<ast::FunctionItem>>,
    ) -> (entrypoints: Vec<FuncId>)
        requires
            work@.len() == functions.len(),
            forall|i: int| #![trigger work@[i]] 0 <= i < work@.len() ==> *work@[i] == functions[i],
            self.functions_by_name@ == functions_named(functions, functions.len()),
        ensures
            entrypoints@ == entry_list(
                wanted@,
                functions,
                self.functions_by_name@,
                functions.len(),
            ),
    {
        let mut entrypoints: Vec<FuncId> = Vec::new();
        let mut i: usize = 0;
        while i < work.len()
            invariant
                i <= work@.len(),
                work@.len() == functions.len(),
                forall|i: int| #![trigger work@[i]]
                    0 <= i < work@.len() ==> *work@[i] == functions[i],
                self.functions_by_name@ == functions_named(functions, functions.len()),
                entrypoints@ == entry_list(
                    wanted@,
                    functions,
                    self.functions_by_name@,
                    i as nat,
                ),
            decreases work@.len() - i,
        {
            let name = work[i].name;
            proof {
                lemma_named(functions, functions.len(), i as int);
            }
            if contains_symbol(wanted, name) {
                if let Some(id) = self.functions_by_name.get(&name.0) {
                    entrypoints.push(*id);
                }
            }
            i += 1;
        }
        entrypoints
    }

    fn lower(&mut self, ast: &ast::Program, config: &LowerConfig)
        requires
            old(self).declaring(),
            old(self).declared() == declarations(ast.items@, 0),
        ensures
            final(self).ready(),
            program_is(*ast, config.entrypoints@, final(self).program@),
            nodes_are(*ast, final(self).program@),
            final(self).diagnostics@ == program_reports(*ast, final(self).program@),
    {
        let ghost items = ast.items@;
        let ghost functions = functions_in(items, items.len());
        self.declare_items(&ast.items);
        let ghost known = declarations(items, items.len());
        let mut work: Vec<&ast::FunctionItem> = Vec::new();
        let mut i: usize = 0;
        while i < ast.items.len()
            invariant
                items == ast.items@,
                i <= items.len(),
                work@.len() == functions_in(items, i as nat).len(),
                forall|j: int| #![trigger work@[j]]
                    0 <= j < work@.len() ==> *work@[j] == functions_in(items, i as nat)[j],
            decreases items.len() - i,
        {
            if let ast::Item::Function(function) = &ast.items[i] {
                work.push(function);
            }
            i += 1;
        }
        let mut k: usize = 0;
        assert(self.declared_functions(known, functions, 0));
        while k < work.len()
            invariant
                k <= work@.len(),
                work@.len() == functions.len(),
                forall|j: int| #![trigger work@[j]]
                    0 <= j < work@.len() ==> *work@[j] == functions[j],
                self.declared_functions(known, functions, k as nat),
            decreases work@.len() - k,
        {
            self.declare_function(work[k], Ghost(known), Ghost(functions), Ghost(k as nat));
            k += 1;
        }
        let ghost env = self.env();
        assert(env == program_env(*ast, self.program@));
        assert(self.diagnostics@ =~= header_reports(known.effects, functions, functions.len())
            + body_reports(env, functions, 0));
        let mut k: usize = 0;
        while k < work.len()
            invariant
                k <= work@.len(),
                work@.len() == functions.len(),
                forall|j: int| #![trigger work@[j]]
                    0 <= j < work@.len() ==> *work@[j] == functions[j],
                self.lowered_bodies(env, known, functions, k as nat),
            decreases work@.len() - k,
        {
            self.lower_body(
                work[k],
                FuncId::new(k),
                Ghost(env),
                Ghost(known),
                Ghost(functions),
            );
            k += 1;
        }
        let ghost before = self.program@;
        let entrypoints = self.find_entrypoints(&config.entrypoints, &work, Ghost(functions));
        self.program.set_entrypoints(entrypoints);
        proof {
            let p = self.program@;
            lemma_bottom_up_same_nodes(before, p);
            assert(forall|f: FuncId| #![trigger p.function(f)] p.function(f) == before.function(f));
            assert(forall|h: HandlerId| #![trigger p.handler(h)] p.handler(h) == before.handler(h));
            assert(program_env(*ast, p) == env);
            assert forall|j: int| #![trigger p.functions[j]] 0 <= j < functions.len() implies {
                &&& header_is(known.effects, functions, j, p.functions[j])
                &&& body_is(env, p, functions, j, p.functions[j].body)
            } by {
                assert(p.functions[j] == before.functions[j]);
                assert(body_is(env, before, functions, j, before.functions[j].body));
                lemma_block_grows(
                    env,
                    before,
                    p,
                    bind_from(
                        Map::empty(),
                        names_of(functions[j].params@),
                        params_before(functions, j as nat),
                        functions[j].params@.len(),
                    ),
                    functions[j].body,
                    params_before(functions, functions.len()) + bodies_before(
                        env,
                        functions,
                        j as nat,
                    ),
                    0,
                    before.functions[j].body,
                );
            }
        }
    }
}

/// Whether a name is among some.
fn contains_symbol(names: &Vec<SymbolId>, name: SymbolId) -> (found: bool)
    ensures
        found == names@.contains(name),
{
    let mut i: usize = 0;
    while i < names.len()
        invariant
            i <= names@.len(),
            forall|j: int| 0 <= j < i ==> names@[j] != name,
        decreases names@.len() - i,
    {
        if names[i] == name {
            assert(names@[i as int] == name);
            return true;
        }
        i += 1;
    }
    false
}

/// The name of every function stands for a function.
proof fn lemma_named(functions: Seq<ast::FunctionItem>, first: nat, i: int)
    requires
        0 <= i < first <= functions.len(),
    ensures
        functions_named(functions, first).contains_key(functions[i].name.0),
    decreases first,
{
    if i < first - 1 {
        lemma_named(functions, (first - 1) as nat, i);
    }
}

/// What lowering makes of a syntax tree, and what it reports.
pub open spec fn lowers_to(
    ast: ast::Program,
    wanted: Seq<SymbolId>,
    core: CoreModel,
    diagnostics: Seq<DiagnosticModel>,
) -> bool {
    &&& program_is(ast, wanted, core)
    &&& nodes_are(ast, core)
    &&& diagnostics == program_reports(ast, core)
}

/// Lowers a syntax tree to a core program. The program that comes out has no
/// dangling identifier and no cycle.
pub fn lower_program(ast: &ast::Program, config: LowerConfig) -> (output: LowerOutput)
    ensures
        lowers_to(*ast, config.entrypoints@, output.program@, output.diagnostics@),
        output.program@.bottom_up(),
        output.program@.acyclic(),
        output.program@.closed(),
{
    let mut lowerer = Lowerer::new();
    assert(lowerer.declared() =~= declarations(ast.items@, 0));
    lowerer.lower(ast, &config);
    proof {
        crate::ir::core_ir::lemma_bottom_up(lowerer.program@);
    }
    LowerOutput { program: lowerer.program, diagnostics: lowerer.diagnostics }
}

// ---------------------------------------------------------------------------
// Laws
// ---------------------------------------------------------------------------

/// A syntax tree is lowered in one way only: the program, down to the number of
/// each node, and what is reported.
pub proof fn lemma_lowered_one_way(
    ast: ast::Program,
    wanted: Seq<SymbolId>,
    a: CoreModel,
    a_reports: Seq<DiagnosticModel>,
    b: CoreModel,
    b_reports: Seq<DiagnosticModel>,
)
    requires
        lowers_to(ast, wanted, a, a_reports),
        lowers_to(ast, wanted, b, b_reports),
    ensures
        a == b,
        a_reports == b_reports,
{
    let known = declarations(ast.items@, ast.items@.len());
    let functions = functions_in(ast.items@, ast.items@.len());
    assert forall|i: int| 0 <= i < functions.len() implies (#[trigger] a.functions[i]).declared_effects
        == b.functions[i].declared_effects by {
        let names = functions[i].effects@;
        assert(header_is(known.effects, functions, i, a.functions[i]));
        assert(header_is(known.effects, functions, i, b.functions[i]));
        let x = a.functions[i].declared_effects;
        let y = b.functions[i].declared_effects;
        assert forall|label: EffectLabelId| x.contains(label) <==> y.contains(label) by {
            assert(x.contains(label) <==> (exists|j: int| #![trigger names[j]]
                0 <= j < names.len() && known.effects.contains_key(names[j].0)
                    && known.effects[names[j].0] == label));
            assert(y.contains(label) <==> (exists|j: int| #![trigger names[j]]
                0 <= j < names.len() && known.effects.contains_key(names[j].0)
                    && known.effects[names[j].0] == label));
        }
        crate::sema::effect::lemma_ascending_unique(x, y);
    }
    assert(declared_of(a.functions) =~= declared_of(b.functions));
    assert(program_env(ast, a) == program_env(ast, b));
    assert(a.functions =~= b.functions) by {
        assert forall|i: int| 0 <= i < functions.len() implies #[trigger] a.functions[i]
            == b.functions[i] by {
            assert(header_is(known.effects, functions, i, a.functions[i]));
            assert(header_is(known.effects, functions, i, b.functions[i]));
        }
    }
    assert(a.nodes() == b.nodes());
}

/// Where no function is asked for, the program starts from none.
pub proof fn lemma_no_entry(
    wanted: Seq<SymbolId>,
    functions: Seq<ast::FunctionItem>,
    named: Map<usize, FuncId>,
    first: nat,
)
    requires
        wanted.len() == 0,
    ensures
        entry_list(wanted, functions, named, first).len() == 0,
    decreases first,
{
    if first > 0 {
        lemma_no_entry(wanted, functions, named, (first - 1) as nat);
    }
}

} // verus!
