//! The shape of a handler: what it does, whatever its variables are called.
use crate::common::ids::{EffectLabelId, ExprId, HandlerId, StmtId, SymbolId, VarId};
use crate::ir::core_ir::{
    BinaryOp, ClauseModel, CoreModel, CoreProgram, ExprKind, ExprModel, HandlerClause,
    HandlerDef, HandlerModel, Literal, LiteralModel, MatchArm, MatchArmModel, StageDirective,
    StmtKind, StmtModel, UnaryOp,
};
use crate::sema::effect::SortedEffectRow;
use std::collections::HashMap;
use vstd::prelude::*;

verus! {

#[derive(Clone, Copy, PartialEq, Eq, Hash, Debug, Structural)]
pub enum ShapeTag {
    StmtMissing,
    StmtReturn,
    StmtLet,
    StmtVal,
    StmtCall,
    StmtIf,
    StmtMatch,
    MatchArm,
    StmtPerform,
    OptionalResultSome,
    OptionalResultNone,
    OptionalStmtSome,
    OptionalStmtNone,
    StmtResume,
    StmtHandle,
    StmtStage,
    StageComptime,
    StageRuntime,
    StmtHole,
    StmtError,
    ExprMissing,
    ExprVar,
    ExprLiteral,
    ExprUnary,
    ExprBinary,
    ExprPureCall,
    ExprMakeStruct,
    ExprMakeEnum,
    ExprError,
    UnaryNeg,
    UnaryNot,
    BinaryAdd,
    BinarySub,
    BinaryMul,
    BinaryDiv,
    BinaryMod,
    BinaryEq,
    BinaryNe,
    BinaryLt,
    BinaryLe,
    BinaryGt,
    BinaryGe,
    BinaryAnd,
    BinaryOr,
    LiteralUnit,
}

/// One piece of a shape.
#[derive(Debug)]
pub enum ShapeToken {
    Tag(ShapeTag),
    Count(usize),
    BoundVar(usize),
    FreeVar(usize),
    Func(usize),
    Handler(usize),
    Effect(usize),
    Symbol(usize),
    Type(usize),
    Bool(bool),
    Int(i64),
    FloatBits(u64),
    Char(char),
    String(String),
}

/// A piece of a shape as a mathematical value.
#[verifier::ext_equal]
pub enum TokenModel {
    Tag(ShapeTag),
    Count(usize),
    BoundVar(usize),
    FreeVar(usize),
    Func(usize),
    Handler(usize),
    Effect(usize),
    Symbol(usize),
    Type(usize),
    Bool(bool),
    Int(i64),
    FloatBits(u64),
    Char(char),
    String(Seq<char>),
}

impl View for ShapeToken {
    type V = TokenModel;

    open spec fn view(&self) -> TokenModel {
        match *self {
            ShapeToken::Tag(x) => TokenModel::Tag(x),
            ShapeToken::Count(x) => TokenModel::Count(x),
            ShapeToken::BoundVar(x) => TokenModel::BoundVar(x),
            ShapeToken::FreeVar(x) => TokenModel::FreeVar(x),
            ShapeToken::Func(x) => TokenModel::Func(x),
            ShapeToken::Handler(x) => TokenModel::Handler(x),
            ShapeToken::Effect(x) => TokenModel::Effect(x),
            ShapeToken::Symbol(x) => TokenModel::Symbol(x),
            ShapeToken::Type(x) => TokenModel::Type(x),
            ShapeToken::Bool(x) => TokenModel::Bool(x),
            ShapeToken::Int(x) => TokenModel::Int(x),
            ShapeToken::FloatBits(x) => TokenModel::FloatBits(x),
            ShapeToken::Char(x) => TokenModel::Char(x),
            ShapeToken::String(text) => TokenModel::String(text@),
        }
    }
}

impl Clone for ShapeToken {
    fn clone(&self) -> (copy: Self)
        ensures
            copy@ == self@,
    {
        match self {
            ShapeToken::Tag(x) => ShapeToken::Tag(*x),
            ShapeToken::Count(x) => ShapeToken::Count(*x),
            ShapeToken::BoundVar(x) => ShapeToken::BoundVar(*x),
            ShapeToken::FreeVar(x) => ShapeToken::FreeVar(*x),
            ShapeToken::Func(x) => ShapeToken::Func(*x),
            ShapeToken::Handler(x) => ShapeToken::Handler(*x),
            ShapeToken::Effect(x) => ShapeToken::Effect(*x),
            ShapeToken::Symbol(x) => ShapeToken::Symbol(*x),
            ShapeToken::Type(x) => ShapeToken::Type(*x),
            ShapeToken::Bool(x) => ShapeToken::Bool(*x),
            ShapeToken::Int(x) => ShapeToken::Int(*x),
            ShapeToken::FloatBits(x) => ShapeToken::FloatBits(*x),
            ShapeToken::Char(x) => ShapeToken::Char(*x),
            ShapeToken::String(text) => ShapeToken::String(text.clone()),
        }
    }
}

fn is_same_token(a: &ShapeToken, b: &ShapeToken) -> (same: bool)
    ensures
        same == (a@ == b@),
{
    match (a, b) {
        (ShapeToken::Tag(x), ShapeToken::Tag(y)) => *x == *y,
        (ShapeToken::Count(x), ShapeToken::Count(y)) => *x == *y,
        (ShapeToken::BoundVar(x), ShapeToken::BoundVar(y)) => *x == *y,
        (ShapeToken::FreeVar(x), ShapeToken::FreeVar(y)) => *x == *y,
        (ShapeToken::Func(x), ShapeToken::Func(y)) => *x == *y,
        (ShapeToken::Handler(x), ShapeToken::Handler(y)) => *x == *y,
        (ShapeToken::Effect(x), ShapeToken::Effect(y)) => *x == *y,
        (ShapeToken::Symbol(x), ShapeToken::Symbol(y)) => *x == *y,
        (ShapeToken::Type(x), ShapeToken::Type(y)) => *x == *y,
        (ShapeToken::Bool(x), ShapeToken::Bool(y)) => *x == *y,
        (ShapeToken::Int(x), ShapeToken::Int(y)) => *x == *y,
        (ShapeToken::FloatBits(x), ShapeToken::FloatBits(y)) => *x == *y,
        (ShapeToken::Char(x), ShapeToken::Char(y)) => *x == *y,
        (ShapeToken::String(x), ShapeToken::String(y)) => x.eq(y),
        _ => false,
    }
}

pub open spec fn unary_tag(op: UnaryOp) -> ShapeTag {
    match op {
        UnaryOp::Neg => ShapeTag::UnaryNeg,
        UnaryOp::Not => ShapeTag::UnaryNot,
    }
}

fn unary_shape_tag(op: UnaryOp) -> (tag: ShapeTag)
    ensures
        tag == unary_tag(op),
{
    match op {
        UnaryOp::Neg => ShapeTag::UnaryNeg,
        UnaryOp::Not => ShapeTag::UnaryNot,
    }
}

pub open spec fn binary_tag(op: BinaryOp) -> ShapeTag {
    match op {
        BinaryOp::Add => ShapeTag::BinaryAdd,
        BinaryOp::Sub => ShapeTag::BinarySub,
        BinaryOp::Mul => ShapeTag::BinaryMul,
        BinaryOp::Div => ShapeTag::BinaryDiv,
        BinaryOp::Mod => ShapeTag::BinaryMod,
        BinaryOp::Eq => ShapeTag::BinaryEq,
        BinaryOp::Ne => ShapeTag::BinaryNe,
        BinaryOp::Lt => ShapeTag::BinaryLt,
        BinaryOp::Le => ShapeTag::BinaryLe,
        BinaryOp::Gt => ShapeTag::BinaryGt,
        BinaryOp::Ge => ShapeTag::BinaryGe,
        BinaryOp::And => ShapeTag::BinaryAnd,
        BinaryOp::Or => ShapeTag::BinaryOr,
    }
}

fn binary_shape_tag(op: BinaryOp) -> (tag: ShapeTag)
    ensures
        tag == binary_tag(op),
{
    match op {
        BinaryOp::Add => ShapeTag::BinaryAdd,
        BinaryOp::Sub => ShapeTag::BinarySub,
        BinaryOp::Mul => ShapeTag::BinaryMul,
        BinaryOp::Div => ShapeTag::BinaryDiv,
        BinaryOp::Mod => ShapeTag::BinaryMod,
        BinaryOp::Eq => ShapeTag::BinaryEq,
        BinaryOp::Ne => ShapeTag::BinaryNe,
        BinaryOp::Lt => ShapeTag::BinaryLt,
        BinaryOp::Le => ShapeTag::BinaryLe,
        BinaryOp::Gt => ShapeTag::BinaryGt,
        BinaryOp::Ge => ShapeTag::BinaryGe,
        BinaryOp::And => ShapeTag::BinaryAnd,
        BinaryOp::Or => ShapeTag::BinaryOr,
    }
}

pub open spec fn stage_tag(stage: StageDirective) -> ShapeTag {
    match stage {
        StageDirective::Comptime => ShapeTag::StageComptime,
        StageDirective::Runtime => ShapeTag::StageRuntime,
    }
}

fn stage_shape_tag(stage: StageDirective) -> (tag: ShapeTag)
    ensures
        tag == stage_tag(stage),
{
    match stage {
        StageDirective::Comptime => ShapeTag::StageComptime,
        StageDirective::Runtime => ShapeTag::StageRuntime,
    }
}

// ---------------------------------------------------------------------------
// Shapes as sequences
// ---------------------------------------------------------------------------

/// The numbers that variables get once one more is bound: the first binding of
/// a variable gives it the next number.
pub open spec fn bound(scope: Map<usize, usize>, var: VarId) -> Map<usize, usize> {
    if scope.contains_key(var.0) {
        scope
    } else {
        scope.insert(var.0, scope.dom().len() as usize)
    }
}

pub open spec fn bound_option(scope: Map<usize, usize>, var: Option<VarId>) -> Map<usize, usize> {
    match var {
        Some(var) => bound(scope, var),
        None => scope,
    }
}

/// The numbers that variables get once the first of some are bound.
pub open spec fn bound_all(
    scope: Map<usize, usize>,
    vars: Seq<VarId>,
    first: nat,
) -> Map<usize, usize>
    decreases first,
{
    if first == 0 || first > vars.len() {
        scope
    } else {
        bound(bound_all(scope, vars, (first - 1) as nat), vars[first - 1])
    }
}

/// The number of each of the first of some variables, as it is bound.
pub open spec fn binder_tokens(
    scope: Map<usize, usize>,
    vars: Seq<VarId>,
    first: nat,
) -> Seq<TokenModel>
    decreases first,
{
    if first == 0 || first > vars.len() {
        Seq::empty()
    } else {
        binder_tokens(scope, vars, (first - 1) as nat).push(
            TokenModel::BoundVar(bound_all(scope, vars, first)[vars[first - 1].0]),
        )
    }
}

pub open spec fn literal_token(literal: LiteralModel) -> TokenModel {
    match literal {
        LiteralModel::Unit => TokenModel::Tag(ShapeTag::LiteralUnit),
        LiteralModel::Bool(value) => TokenModel::Bool(value),
        LiteralModel::Int(value) => TokenModel::Int(value),
        LiteralModel::Float(bits) => TokenModel::FloatBits(bits),
        LiteralModel::Char(value) => TokenModel::Char(value),
        LiteralModel::String(text) => TokenModel::String(text),
    }
}

/// The arguments or fields of an expression that has a list of them.
pub open spec fn expr_list(e: ExprModel) -> Seq<ExprId> {
    match e {
        ExprModel::PureCall { args, .. } => args,
        ExprModel::MakeStruct { fields, .. } => fields,
        ExprModel::MakeEnum { fields, .. } => fields,
        _ => Seq::empty(),
    }
}

/// The shape of an expression, under the numbers of the bound variables.
pub open spec fn expr_shape(p: CoreModel, e: ExprId, scope: Map<usize, usize>) -> Seq<TokenModel>
    decreases p.expr_rank(e), 1nat, 0nat,
    when p.acyclic()
{
    proof {
        crate::passes::linearize::analysis::lemma_expr_ranks(p, e);
    }
    if !p.has_expr(e) {
        seq![TokenModel::Tag(ShapeTag::ExprMissing)]
    } else {
        let list = expr_list(p.expr(e));
        match p.expr(e) {
            ExprModel::Var(var) => seq![
                TokenModel::Tag(ShapeTag::ExprVar),
                if scope.contains_key(var.0) {
                    TokenModel::BoundVar(scope[var.0])
                } else {
                    TokenModel::FreeVar(var.0)
                },
            ],
            ExprModel::Literal(literal) => seq![
                TokenModel::Tag(ShapeTag::ExprLiteral),
                literal_token(literal),
            ],
            ExprModel::Unary { op, expr } => seq![
                TokenModel::Tag(ShapeTag::ExprUnary),
                TokenModel::Tag(unary_tag(op)),
            ] + expr_shape(p, expr, scope),
            ExprModel::Binary { op, lhs, rhs } => seq![
                TokenModel::Tag(ShapeTag::ExprBinary),
                TokenModel::Tag(binary_tag(op)),
            ] + expr_shape(p, lhs, scope) + expr_shape(p, rhs, scope),
            ExprModel::PureCall { callee, .. } => seq![
                TokenModel::Tag(ShapeTag::ExprPureCall),
                TokenModel::Func(callee.0),
                TokenModel::Count(list.len() as usize),
            ] + parts_shape(p, e, list.len(), scope),
            ExprModel::MakeStruct { ty, .. } => seq![
                TokenModel::Tag(ShapeTag::ExprMakeStruct),
                TokenModel::Type(ty.0),
                TokenModel::Count(list.len() as usize),
            ] + parts_shape(p, e, list.len(), scope),
            ExprModel::MakeEnum { ty, variant, .. } => seq![
                TokenModel::Tag(ShapeTag::ExprMakeEnum),
                TokenModel::Type(ty.0),
                TokenModel::Symbol(variant.0),
                TokenModel::Count(list.len() as usize),
            ] + parts_shape(p, e, list.len(), scope),
            ExprModel::Error(_) => seq![TokenModel::Tag(ShapeTag::ExprError)],
        }
    }
}

/// The shapes of the first arguments or fields of an expression.
pub open spec fn parts_shape(
    p: CoreModel,
    e: ExprId,
    first: nat,
    scope: Map<usize, usize>,
) -> Seq<TokenModel>
    decreases p.expr_rank(e), 0nat, first,
    when p.acyclic()
{
    let list = expr_list(p.expr(e));
    if first == 0 || first > list.len() || !p.has_expr(e) {
        Seq::empty()
    } else {
        proof {
            crate::passes::linearize::analysis::lemma_expr_ranks(p, e);
            assert(list.contains(list[first - 1]));
            assert(p.expr(e).has_part(list[first - 1]));
        }
        parts_shape(p, e, (first - 1) as nat, scope) + expr_shape(p, list[first - 1], scope)
    }
}

/// The shapes of the first of some expressions.
pub open spec fn list_shape(
    p: CoreModel,
    list: Seq<ExprId>,
    first: nat,
    scope: Map<usize, usize>,
) -> Seq<TokenModel>
    decreases first,
{
    if first == 0 || first > list.len() {
        Seq::empty()
    } else {
        list_shape(p, list, (first - 1) as nat, scope) + expr_shape(p, list[first - 1], scope)
    }
}

pub open spec fn effect_tokens(row: Seq<EffectLabelId>) -> Seq<TokenModel> {
    row.map_values(|label: EffectLabelId| TokenModel::Effect(label.0))
}

/// A shape, with the numbers of the variables that are bound once it is done.
#[verifier::ext_equal]
pub struct Shaped {
    pub tokens: Seq<TokenModel>,
    pub scope: Map<usize, usize>,
}

/// The shape of a statement, under the numbers of the bound variables.
pub open spec fn stmt_shape(p: CoreModel, s: StmtId, scope: Map<usize, usize>) -> Shaped
    decreases p.stmt_rank(s), 1nat, 0nat,
    when p.acyclic()
{
    proof {
        crate::passes::linearize::analysis::lemma_stmt_ranks(p, s);
    }
    if !p.has_stmt(s) {
        Shaped { tokens: seq![TokenModel::Tag(ShapeTag::StmtMissing)], scope }
    } else {
        match p.stmt(s) {
            StmtModel::Return(expr) => Shaped {
                tokens: seq![TokenModel::Tag(ShapeTag::StmtReturn)] + expr_shape(p, expr, scope),
                scope,
            },
            StmtModel::Let { binding, value, next } => {
                let inner = bound(scope, binding);
                let rest = stmt_shape(p, next, inner);
                Shaped {
                    tokens: seq![
                        TokenModel::Tag(ShapeTag::StmtLet),
                        TokenModel::BoundVar(inner[binding.0]),
                    ] + expr_shape(p, value, inner) + rest.tokens,
                    scope: rest.scope,
                }
            },
            StmtModel::Val { binding, value, next } => {
                let inner = bound(scope, binding);
                let first = stmt_shape(p, value, inner);
                let rest = stmt_shape(p, next, first.scope);
                Shaped {
                    tokens: seq![
                        TokenModel::Tag(ShapeTag::StmtVal),
                        TokenModel::BoundVar(inner[binding.0]),
                    ] + first.tokens + rest.tokens,
                    scope: rest.scope,
                }
            },
            StmtModel::Call { result, callee, args, effects, next } => {
                let inner = bound(scope, result);
                let rest = stmt_shape(p, next, inner);
                Shaped {
                    tokens: seq![
                        TokenModel::Tag(ShapeTag::StmtCall),
                        TokenModel::Func(callee.0),
                        TokenModel::BoundVar(inner[result.0]),
                        TokenModel::Count(args.len() as usize),
                    ] + list_shape(p, args, args.len(), inner) + seq![
                        TokenModel::Count(effects.len() as usize),
                    ] + effect_tokens(effects) + rest.tokens,
                    scope: rest.scope,
                }
            },
            StmtModel::If { cond, then_branch, else_branch } => {
                let first = stmt_shape(p, then_branch, scope);
                let rest = stmt_shape(p, else_branch, first.scope);
                Shaped {
                    tokens: seq![TokenModel::Tag(ShapeTag::StmtIf)] + expr_shape(p, cond, scope)
                        + first.tokens + rest.tokens,
                    scope: rest.scope,
                }
            },
            StmtModel::Match { scrutinee, arms, default } => {
                let head = seq![TokenModel::Tag(ShapeTag::StmtMatch)] + expr_shape(
                    p,
                    scrutinee,
                    scope,
                ) + seq![TokenModel::Count(arms.len() as usize)] + arms_shape(
                    p,
                    s,
                    arms.len(),
                    scope,
                );
                match default {
                    Some(default) => {
                        let rest = stmt_shape(p, default, scope);
                        Shaped {
                            tokens: head + seq![TokenModel::Tag(ShapeTag::OptionalStmtSome)]
                                + rest.tokens,
                            scope: rest.scope,
                        }
                    },
                    None => Shaped {
                        tokens: head + seq![TokenModel::Tag(ShapeTag::OptionalStmtNone)],
                        scope,
                    },
                }
            },
            StmtModel::Perform { result, effect, operation, args, next } => {
                let inner = bound_option(scope, result);
                let rest = stmt_shape(p, next, inner);
                Shaped {
                    tokens: seq![
                        TokenModel::Tag(ShapeTag::StmtPerform),
                        TokenModel::Effect(effect.0),
                        TokenModel::Symbol(operation.0),
                    ] + result_tokens(scope, result) + seq![
                        TokenModel::Count(args.len() as usize),
                    ] + list_shape(p, args, args.len(), inner) + rest.tokens,
                    scope: rest.scope,
                }
            },
            StmtModel::Resume { result, resume, arg, next } => {
                let inner = bound(scope, result);
                let rest = stmt_shape(p, next, inner);
                Shaped {
                    tokens: seq![
                        TokenModel::Tag(ShapeTag::StmtResume),
                        TokenModel::BoundVar(inner[result.0]),
                        TokenModel::FreeVar(resume.0),
                    ] + expr_shape(p, arg, inner) + rest.tokens,
                    scope: rest.scope,
                }
            },
            StmtModel::Handle { handler, body, next } => {
                let first = stmt_shape(p, body, scope);
                let head = seq![
                    TokenModel::Tag(ShapeTag::StmtHandle),
                    TokenModel::Handler(handler.0),
                ] + first.tokens;
                match next {
                    Some(next) => {
                        let rest = stmt_shape(p, next, first.scope);
                        Shaped {
                            tokens: head + seq![TokenModel::Tag(ShapeTag::OptionalStmtSome)]
                                + rest.tokens,
                            scope: rest.scope,
                        }
                    },
                    None => Shaped {
                        tokens: head + seq![TokenModel::Tag(ShapeTag::OptionalStmtNone)],
                        scope: first.scope,
                    },
                }
            },
            StmtModel::Stage { stage, body, next } => {
                let first = stmt_shape(p, body, scope);
                let head = seq![
                    TokenModel::Tag(ShapeTag::StmtStage),
                    TokenModel::Tag(stage_tag(stage)),
                ] + first.tokens;
                match next {
                    Some(next) => {
                        let rest = stmt_shape(p, next, first.scope);
                        Shaped {
                            tokens: head + seq![TokenModel::Tag(ShapeTag::OptionalStmtSome)]
                                + rest.tokens,
                            scope: rest.scope,
                        }
                    },
                    None => Shaped {
                        tokens: head + seq![TokenModel::Tag(ShapeTag::OptionalStmtNone)],
                        scope: first.scope,
                    },
                }
            },
            StmtModel::Hole { ty } => Shaped {
                tokens: seq![TokenModel::Tag(ShapeTag::StmtHole), TokenModel::Type(ty.0)],
                scope,
            },
            StmtModel::Error(_) => Shaped {
                tokens: seq![TokenModel::Tag(ShapeTag::StmtError)],
                scope,
            },
        }
    }
}

pub open spec fn result_tokens(scope: Map<usize, usize>, result: Option<VarId>) -> Seq<TokenModel> {
    match result {
        Some(var) => seq![
            TokenModel::Tag(ShapeTag::OptionalResultSome),
            TokenModel::BoundVar(bound(scope, var)[var.0]),
        ],
        None => seq![TokenModel::Tag(ShapeTag::OptionalResultNone)],
    }
}

/// What comes before the body of an arm.
pub open spec fn arm_head(arm: MatchArmModel, scope: Map<usize, usize>) -> Seq<TokenModel> {
    seq![
        TokenModel::Tag(ShapeTag::MatchArm),
        TokenModel::Symbol(arm.tag.0),
        TokenModel::Count(arm.binders.len() as usize),
    ] + binder_tokens(scope, arm.binders, arm.binders.len())
}

/// The shapes of the first arms of a statement. What an arm binds is bound in
/// that arm alone.
pub open spec fn arms_shape(
    p: CoreModel,
    s: StmtId,
    first: nat,
    scope: Map<usize, usize>,
) -> Seq<TokenModel>
    decreases p.stmt_rank(s), 0nat, first,
    when p.acyclic()
{
    if first == 0 || !p.has_stmt(s) || !(p.stmt(s) is Match) || first > p.stmt(s)->arms.len() {
        Seq::empty()
    } else {
        proof {
            crate::ir::core_ir::lemma_arm_is_part(p.stmt(s), first - 1);
            crate::passes::linearize::analysis::lemma_stmt_ranks(p, s);
        }
        let arm = p.stmt(s)->arms[first - 1];
        arms_shape(p, s, (first - 1) as nat, scope) + arm_head(arm, scope) + stmt_shape(
            p,
            arm.body,
            bound_all(scope, arm.binders, arm.binders.len()),
        ).tokens
    }
}

/// The shape of a handler as a mathematical value.
#[verifier::ext_equal]
pub struct HandlerShape {
    pub effect: EffectLabelId,
    pub return_body: Seq<TokenModel>,
    pub clauses: Seq<ClauseShape>,
}

#[verifier::ext_equal]
pub struct ClauseShape {
    pub operation: SymbolId,
    pub param_count: usize,
    pub has_resume: bool,
    pub body: Seq<TokenModel>,
}

pub open spec fn clause_shape(p: CoreModel, clause: ClauseModel) -> ClauseShape {
    ClauseShape {
        operation: clause.operation,
        param_count: clause.params.len() as usize,
        has_resume: clause.resume_param is Some,
        body: stmt_shape(
            p,
            clause.body,
            bound_option(
                bound_all(Map::empty(), clause.params, clause.params.len()),
                clause.resume_param,
            ),
        ).tokens,
    }
}

pub open spec fn handler_shape(p: CoreModel, handler: HandlerModel) -> HandlerShape {
    HandlerShape {
        effect: handler.effect,
        return_body: stmt_shape(
            p,
            handler.return_body,
            bound(Map::empty(), handler.return_param),
        ).tokens,
        clauses: handler.clauses.map_values(|clause: ClauseModel| clause_shape(p, clause)),
    }
}

// ---------------------------------------------------------------------------
// Computing shapes
// ---------------------------------------------------------------------------

/// The numbers of the variables that are bound.
struct ScopeCanon {
    map: HashMap<usize, usize>,
}

impl ScopeCanon {
    fn new() -> (scope: Self)
        ensures
            scope.map@ == Map::<usize, usize>::empty(),
    {
        ScopeCanon { map: HashMap::new() }
    }

    fn copy(&self) -> (copy: Self)
        ensures
            copy.map@ == self.map@,
    {
        ScopeCanon { map: self.map.clone() }
    }

    fn bind(&mut self, var: VarId) -> (number: usize)
        ensures
            final(self).map@ == bound(old(self).map@, var),
            number == final(self).map@[var.0],
    {
        if let Some(existing) = self.map.get(&var.0) {
            return *existing;
        }
        let number: usize = self.map.len();
        self.map.insert(var.0, number);
        number
    }

    fn bind_all(&mut self, vars: &Vec<VarId>)
        ensures
            final(self).map@ == bound_all(old(self).map@, vars@, vars@.len()),
    {
        let mut i: usize = 0;
        while i < vars.len()
            invariant
                i <= vars@.len(),
                self.map@ == bound_all(old(self).map@, vars@, i as nat),
            decreases vars@.len() - i,
        {
            self.bind(vars[i]);
            i += 1;
        }
    }

    fn bind_option(&mut self, var: Option<VarId>)
        ensures
            final(self).map@ == bound_option(old(self).map@, var),
    {
        if let Some(var) = var {
            self.bind(var);
        }
    }
}

fn push_token(out: &mut Vec<ShapeToken>, token: ShapeToken)
    ensures
        crate::common::views(final(out)@) == crate::common::views(old(out)@).push(token@),
{
    broadcast use crate::common::lemma_views_push;

    out.push(token);
}

fn push_tag(out: &mut Vec<ShapeToken>, tag: ShapeTag)
    ensures
        crate::common::views(final(out)@) == crate::common::views(old(out)@).push(
            TokenModel::Tag(tag),
        ),
{
    push_token(out, ShapeToken::Tag(tag));
}

fn push_literal_shape(literal: &Literal, out: &mut Vec<ShapeToken>)
    ensures
        crate::common::views(final(out)@) == crate::common::views(old(out)@).push(
            literal_token(literal@),
        ),
{
    let token = match literal {
        Literal::Unit => ShapeToken::Tag(ShapeTag::LiteralUnit),
        Literal::Bool(value) => ShapeToken::Bool(*value),
        Literal::Int(value) => ShapeToken::Int(*value),
        Literal::Float(bits) => ShapeToken::FloatBits(*bits),
        Literal::Char(value) => ShapeToken::Char(*value),
        Literal::String(text) => ShapeToken::String(text.clone()),
    };
    push_token(out, token);
}

#[verifier::spinoff_prover]
fn push_parts_shape(
    program: &CoreProgram,
    Ghost(owner): Ghost<ExprId>,
    list: &Vec<ExprId>,
    scope: &ScopeCanon,
    out: &mut Vec<ShapeToken>,
)
    requires
        program@.acyclic(),
        program@.has_expr(owner),
        expr_list(program@.expr(owner)) == list@,
    ensures
        crate::common::views(final(out)@) == crate::common::views(old(out)@) + parts_shape(
            program@,
            owner,
            list@.len(),
            scope.map@,
        ),
    decreases program@.expr_rank(owner), 0nat,
{
    let ghost p = program@;
    let ghost start = crate::common::views(out@);
    let mut i: usize = 0;
    assert(start + parts_shape(p, owner, 0, scope.map@) =~= start);
    while i < list.len()
        invariant
            p == program@,
            p.acyclic(),
            p.has_expr(owner),
            expr_list(p.expr(owner)) == list@,
            i <= list@.len(),
            crate::common::views(out@) == start + parts_shape(p, owner, i as nat, scope.map@),
        decreases list@.len() - i,
    {
        proof {
            assert(list@.contains(list@[i as int]));
            assert(p.expr(owner).has_part(list@[i as int]));
            crate::ir::core_ir::lemma_expr_rank(p, owner, list@[i as int]);
        }
        push_expr_shape(program, list[i], scope, out);
        proof {
            assert(crate::common::views(out@) =~= start + parts_shape(
                p,
                owner,
                (i + 1) as nat,
                scope.map@,
            ));
        }
        i += 1;
    }
}

#[verifier::rlimit(40)]
#[verifier::spinoff_prover]
fn push_expr_shape(
    program: &CoreProgram,
    expr_id: ExprId,
    scope: &ScopeCanon,
    out: &mut Vec<ShapeToken>,
)
    requires
        program@.acyclic(),
    ensures
        crate::common::views(final(out)@) == crate::common::views(old(out)@) + expr_shape(
            program@,
            expr_id,
            scope.map@,
        ),
    decreases program@.expr_rank(expr_id), 1nat,
{
    proof {
        crate::passes::linearize::analysis::lemma_expr_ranks(program@, expr_id);
    }
    let ghost start = crate::common::views(out@);
    match program.expr(expr_id) {
        None => {
            push_tag(out, ShapeTag::ExprMissing);
        },
        Some(node) => match &node.kind {
            ExprKind::Var(var) => {
                push_tag(out, ShapeTag::ExprVar);
                match scope.map.get(&var.0) {
                    Some(number) => push_token(out, ShapeToken::BoundVar(*number)),
                    None => push_token(out, ShapeToken::FreeVar(var.0)),
                }
            },
            ExprKind::Literal(literal) => {
                push_tag(out, ShapeTag::ExprLiteral);
                push_literal_shape(literal, out);
            },
            ExprKind::Unary { op, expr } => {
                push_tag(out, ShapeTag::ExprUnary);
                push_tag(out, unary_shape_tag(*op));
                push_expr_shape(program, *expr, scope, out);
            },
            ExprKind::Binary { op, lhs, rhs } => {
                push_tag(out, ShapeTag::ExprBinary);
                push_tag(out, binary_shape_tag(*op));
                push_expr_shape(program, *lhs, scope, out);
                push_expr_shape(program, *rhs, scope, out);
            },
            ExprKind::PureCall { callee, args } => {
                push_tag(out, ShapeTag::ExprPureCall);
                push_token(out, ShapeToken::Func(callee.0));
                push_token(out, ShapeToken::Count(args.len()));
                push_parts_shape(program, Ghost(expr_id), args, scope, out);
            },
            ExprKind::MakeStruct { ty, fields } => {
                push_tag(out, ShapeTag::ExprMakeStruct);
                push_token(out, ShapeToken::Type(ty.0));
                push_token(out, ShapeToken::Count(fields.len()));
                push_parts_shape(program, Ghost(expr_id), fields, scope, out);
            },
            ExprKind::MakeEnum { ty, variant, fields } => {
                push_tag(out, ShapeTag::ExprMakeEnum);
                push_token(out, ShapeToken::Type(ty.0));
                push_token(out, ShapeToken::Symbol(variant.0));
                push_token(out, ShapeToken::Count(fields.len()));
                push_parts_shape(program, Ghost(expr_id), fields, scope, out);
            },
            ExprKind::Error(_) => {
                push_tag(out, ShapeTag::ExprError);
            },
        },
    }
    assert(crate::common::views(out@) =~= start + expr_shape(program@, expr_id, scope.map@));
}

fn push_list_shape(
    program: &CoreProgram,
    list: &Vec<ExprId>,
    scope: &ScopeCanon,
    out: &mut Vec<ShapeToken>,
)
    requires
        program@.acyclic(),
    ensures
        crate::common::views(final(out)@) == crate::common::views(old(out)@) + list_shape(
            program@,
            list@,
            list@.len(),
            scope.map@,
        ),
{
    let ghost start = crate::common::views(out@);
    let mut i: usize = 0;
    assert(start + list_shape(program@, list@, 0, scope.map@) =~= start);
    while i < list.len()
        invariant
            program@.acyclic(),
            i <= list@.len(),
            crate::common::views(out@) == start + list_shape(
                program@,
                list@,
                i as nat,
                scope.map@,
            ),
        decreases list@.len() - i,
    {
        push_expr_shape(program, list[i], scope, out);
        assert(crate::common::views(out@) =~= start + list_shape(
            program@,
            list@,
            (i + 1) as nat,
            scope.map@,
        ));
        i += 1;
    }
}

fn push_effects(effects: &SortedEffectRow, out: &mut Vec<ShapeToken>)
    ensures
        crate::common::views(final(out)@) == crate::common::views(old(out)@) + seq![
            TokenModel::Count(effects@.len() as usize),
        ] + effect_tokens(effects@),
{
    let ghost start = crate::common::views(out@);
    push_token(out, ShapeToken::Count(effects.labels.len()));
    let mut i: usize = 0;
    while i < effects.labels.len()
        invariant
            i <= effects@.len(),
            crate::common::views(out@) =~= start + seq![
                TokenModel::Count(effects@.len() as usize),
            ] + effect_tokens(effects@).take(i as int),
        decreases effects@.len() - i,
    {
        push_token(out, ShapeToken::Effect(effects.labels[i].0));
        i += 1;
    }
    assert(effect_tokens(effects@).take(i as int) =~= effect_tokens(effects@));
}

fn push_binders(scope: &mut ScopeCanon, binders: &Vec<VarId>, out: &mut Vec<ShapeToken>)
    ensures
        final(scope).map@ == bound_all(old(scope).map@, binders@, binders@.len()),
        crate::common::views(final(out)@) == crate::common::views(old(out)@) + seq![
            TokenModel::Count(binders@.len() as usize),
        ] + binder_tokens(old(scope).map@, binders@, binders@.len()),
{
    let ghost start = crate::common::views(out@);
    let ghost outer = scope.map@;
    push_token(out, ShapeToken::Count(binders.len()));
    let mut i: usize = 0;
    while i < binders.len()
        invariant
            i <= binders@.len(),
            outer == old(scope).map@,
            scope.map@ == bound_all(outer, binders@, i as nat),
            crate::common::views(out@) =~= start + seq![
                TokenModel::Count(binders@.len() as usize),
            ] + binder_tokens(outer, binders@, i as nat),
        decreases binders@.len() - i,
    {
        let number = scope.bind(binders[i]);
        push_token(out, ShapeToken::BoundVar(number));
        i += 1;
    }
}

#[verifier::spinoff_prover]
fn push_arms_shape(
    program: &CoreProgram,
    Ghost(owner): Ghost<StmtId>,
    arms: &Vec<MatchArm>,
    scope: &ScopeCanon,
    out: &mut Vec<ShapeToken>,
)
    requires
        program@.acyclic(),
        program@.has_stmt(owner),
        program@.stmt(owner) is Match,
        program@.stmt(owner)->arms == crate::common::views(arms@),
    ensures
        crate::common::views(final(out)@) == crate::common::views(old(out)@) + arms_shape(
            program@,
            owner,
            arms@.len(),
            scope.map@,
        ),
    decreases program@.stmt_rank(owner), 0nat,
{
    let ghost p = program@;
    let ghost start = crate::common::views(out@);
    let mut i: usize = 0;
    assert(start + arms_shape(p, owner, 0, scope.map@) =~= start);
    while i < arms.len()
        invariant
            p == program@,
            p.acyclic(),
            p.has_stmt(owner),
            p.stmt(owner) is Match,
            p.stmt(owner)->arms == crate::common::views(arms@),
            i <= arms@.len(),
            crate::common::views(out@) == start + arms_shape(p, owner, i as nat, scope.map@),
        decreases arms@.len() - i,
    {
        let arm = &arms[i];
        let ghost before = crate::common::views(out@);
        proof {
            crate::ir::core_ir::lemma_arm_is_part(p.stmt(owner), i as int);
            assert(p.stmt(owner)->arms[i as int] == arms@[i as int]@);
            crate::ir::core_ir::lemma_stmt_rank(p, owner, arm.body);
        }
        push_tag(out, ShapeTag::MatchArm);
        push_token(out, ShapeToken::Symbol(arm.tag.0));
        let mut arm_scope = scope.copy();
        push_binders(&mut arm_scope, &arm.binders, out);
        assert(crate::common::views(out@) =~= before + arm_head(arm@, scope.map@));
        push_stmt_shape(program, arm.body, &mut arm_scope, out);
        proof {
            assert(crate::common::views(out@) =~= start + arms_shape(
                p,
                owner,
                (i + 1) as nat,
                scope.map@,
            ));
        }
        i += 1;
    }
}

/// The shape of a statement that may be missing.
fn push_optional_stmt(
    program: &CoreProgram,
    Ghost(owner): Ghost<StmtId>,
    next: Option<StmtId>,
    scope: &mut ScopeCanon,
    out: &mut Vec<ShapeToken>,
)
    requires
        program@.acyclic(),
        program@.has_stmt(owner),
        next matches Some(s) ==> program@.stmt(owner).has_part(s),
    ensures
        crate::common::views(final(out)@) == crate::common::views(old(out)@) + (match next {
            Some(s) => seq![TokenModel::Tag(ShapeTag::OptionalStmtSome)] + stmt_shape(
                program@,
                s,
                old(scope).map@,
            ).tokens,
            None => seq![TokenModel::Tag(ShapeTag::OptionalStmtNone)],
        }),
        final(scope).map@ == (match next {
            Some(s) => stmt_shape(program@, s, old(scope).map@).scope,
            None => old(scope).map@,
        }),
    decreases program@.stmt_rank(owner), 0nat,
{
    let ghost start = crate::common::views(out@);
    match next {
        Some(s) => {
            proof {
                crate::ir::core_ir::lemma_stmt_rank(program@, owner, s);
            }
            push_tag(out, ShapeTag::OptionalStmtSome);
            push_stmt_shape(program, s, scope, out);
            assert(crate::common::views(out@) =~= start + (seq![
                TokenModel::Tag(ShapeTag::OptionalStmtSome),
            ] + stmt_shape(program@, s, old(scope).map@).tokens));
        },
        None => {
            push_tag(out, ShapeTag::OptionalStmtNone);
            assert(crate::common::views(out@) =~= start + seq![
                TokenModel::Tag(ShapeTag::OptionalStmtNone),
            ]);
        },
    }
}

fn push_result(scope: &mut ScopeCanon, result: Option<VarId>, out: &mut Vec<ShapeToken>)
    ensures
        final(scope).map@ == bound_option(old(scope).map@, result),
        crate::common::views(final(out)@) == crate::common::views(old(out)@) + result_tokens(
            old(scope).map@,
            result,
        ),
{
    let ghost start = crate::common::views(out@);
    match result {
        Some(var) => {
            push_tag(out, ShapeTag::OptionalResultSome);
            let number = scope.bind(var);
            push_token(out, ShapeToken::BoundVar(number));
        },
        None => push_tag(out, ShapeTag::OptionalResultNone),
    }
    assert(crate::common::views(out@) =~= start + result_tokens(old(scope).map@, result));
}

#[verifier::rlimit(100)]
#[verifier::spinoff_prover]
fn push_stmt_shape(
    program: &CoreProgram,
    stmt_id: StmtId,
    scope: &mut ScopeCanon,
    out: &mut Vec<ShapeToken>,
)
    requires
        program@.acyclic(),
    ensures
        crate::common::views(final(out)@) == crate::common::views(old(out)@) + stmt_shape(
            program@,
            stmt_id,
            old(scope).map@,
        ).tokens,
        final(scope).map@ == stmt_shape(program@, stmt_id, old(scope).map@).scope,
    decreases program@.stmt_rank(stmt_id), 1nat,
{
    proof {
        crate::passes::linearize::analysis::lemma_stmt_ranks(program@, stmt_id);
    }
    let ghost start = crate::common::views(out@);
    let ghost outer = scope.map@;
    match program.stmt(stmt_id) {
        None => {
            push_tag(out, ShapeTag::StmtMissing);
        },
        Some(node) => match &node.kind {
            StmtKind::Return(expr) => {
                push_tag(out, ShapeTag::StmtReturn);
                push_expr_shape(program, *expr, scope, out);
            },
            StmtKind::Let { binding, value, next } => {
                push_tag(out, ShapeTag::StmtLet);
                let number = scope.bind(*binding);
                push_token(out, ShapeToken::BoundVar(number));
                push_expr_shape(program, *value, scope, out);
                push_stmt_shape(program, *next, scope, out);
            },
            StmtKind::Val { binding, value, next } => {
                push_tag(out, ShapeTag::StmtVal);
                let number = scope.bind(*binding);
                push_token(out, ShapeToken::BoundVar(number));
                push_stmt_shape(program, *value, scope, out);
                push_stmt_shape(program, *next, scope, out);
            },
            StmtKind::Call { result, callee, args, effects, next } => {
                push_tag(out, ShapeTag::StmtCall);
                push_token(out, ShapeToken::Func(callee.0));
                let number = scope.bind(*result);
                push_token(out, ShapeToken::BoundVar(number));
                push_token(out, ShapeToken::Count(args.len()));
                push_list_shape(program, args, scope, out);
                push_effects(effects, out);
                push_stmt_shape(program, *next, scope, out);
            },
            StmtKind::If { cond, then_branch, else_branch } => {
                push_tag(out, ShapeTag::StmtIf);
                push_expr_shape(program, *cond, scope, out);
                push_stmt_shape(program, *then_branch, scope, out);
                push_stmt_shape(program, *else_branch, scope, out);
            },
            StmtKind::Match { scrutinee, arms, default } => {
                push_tag(out, ShapeTag::StmtMatch);
                push_expr_shape(program, *scrutinee, scope, out);
                push_token(out, ShapeToken::Count(arms.len()));
                push_arms_shape(program, Ghost(stmt_id), arms, scope, out);
                push_optional_stmt(program, Ghost(stmt_id), *default, scope, out);
            },
            StmtKind::Perform { result, effect, operation, args, next } => {
                push_tag(out, ShapeTag::StmtPerform);
                push_token(out, ShapeToken::Effect(effect.0));
                push_token(out, ShapeToken::Symbol(operation.0));
                push_result(scope, *result, out);
                push_token(out, ShapeToken::Count(args.len()));
                push_list_shape(program, args, scope, out);
                push_stmt_shape(program, *next, scope, out);
            },
            StmtKind::Resume { result, resume, arg, next } => {
                push_tag(out, ShapeTag::StmtResume);
                let number = scope.bind(*result);
                push_token(out, ShapeToken::BoundVar(number));
                push_token(out, ShapeToken::FreeVar(resume.0));
                push_expr_shape(program, *arg, scope, out);
                push_stmt_shape(program, *next, scope, out);
            },
            StmtKind::Handle { handler, body, next } => {
                push_tag(out, ShapeTag::StmtHandle);
                push_token(out, ShapeToken::Handler(handler.0));
                push_stmt_shape(program, *body, scope, out);
                push_optional_stmt(program, Ghost(stmt_id), *next, scope, out);
            },
            StmtKind::Stage { stage, body, next } => {
                push_tag(out, ShapeTag::StmtStage);
                push_tag(out, stage_shape_tag(*stage));
                push_stmt_shape(program, *body, scope, out);
                push_optional_stmt(program, Ghost(stmt_id), *next, scope, out);
            },
            StmtKind::Hole { ty } => {
                push_tag(out, ShapeTag::StmtHole);
                push_token(out, ShapeToken::Type(ty.0));
            },
            StmtKind::Error(_) => {
                push_tag(out, ShapeTag::StmtError);
            },
        },
    }
    assert(crate::common::views(out@) =~= start + stmt_shape(program@, stmt_id, outer).tokens);
}

// ---------------------------------------------------------------------------
// Keys
// ---------------------------------------------------------------------------

/// The shape of a handler.
#[derive(Debug)]
pub struct HandlerShapeKey {
    pub effect: EffectLabelId,
    pub return_body: Vec<ShapeToken>,
    pub clauses: Vec<ClauseShapeKey>,
}

#[derive(Debug)]
pub struct ClauseShapeKey {
    pub operation: SymbolId,
    pub param_count: usize,
    pub has_resume: bool,
    pub body: Vec<ShapeToken>,
}

impl View for ClauseShapeKey {
    type V = ClauseShape;

    open spec fn view(&self) -> ClauseShape {
        ClauseShape {
            operation: self.operation,
            param_count: self.param_count,
            has_resume: self.has_resume,
            body: crate::common::views(self.body@),
        }
    }
}

impl View for HandlerShapeKey {
    type V = HandlerShape;

    open spec fn view(&self) -> HandlerShape {
        HandlerShape {
            effect: self.effect,
            return_body: crate::common::views(self.return_body@),
            clauses: crate::common::views(self.clauses@),
        }
    }
}

fn copy_tokens(tokens: &Vec<ShapeToken>) -> (copy: Vec<ShapeToken>)
    ensures
        crate::common::views(copy@) == crate::common::views(tokens@),
{
    let mut copy: Vec<ShapeToken> = Vec::new();
    let mut i: usize = 0;
    while i < tokens.len()
        invariant
            i <= tokens@.len(),
            copy@.len() == i,
            forall|j: int| 0 <= j < i ==> (#[trigger] copy@[j])@ == tokens@[j]@,
        decreases tokens@.len() - i,
    {
        copy.push(tokens[i].clone());
        i += 1;
    }
    assert(crate::common::views(copy@) =~= crate::common::views(tokens@));
    copy
}

impl Clone for HandlerShapeKey {
    fn clone(&self) -> (copy: Self)
        ensures
            copy@ == self@,
    {
        let mut clauses: Vec<ClauseShapeKey> = Vec::new();
        let mut i: usize = 0;
        while i < self.clauses.len()
            invariant
                i <= self.clauses@.len(),
                clauses@.len() == i,
                forall|j: int| 0 <= j < i ==> (#[trigger] clauses@[j])@ == self.clauses@[j]@,
            decreases self.clauses@.len() - i,
        {
            clauses.push(
                ClauseShapeKey {
                    operation: self.clauses[i].operation,
                    param_count: self.clauses[i].param_count,
                    has_resume: self.clauses[i].has_resume,
                    body: copy_tokens(&self.clauses[i].body),
                },
            );
            i += 1;
        }
        assert(crate::common::views(clauses@) =~= crate::common::views(self.clauses@));
        HandlerShapeKey {
            effect: self.effect,
            return_body: copy_tokens(&self.return_body),
            clauses,
        }
    }
}

fn are_same_tokens(a: &Vec<ShapeToken>, b: &Vec<ShapeToken>) -> (same: bool)
    ensures
        same == (crate::common::views(a@) == crate::common::views(b@)),
{
    let ghost x = crate::common::views(a@);
    let ghost y = crate::common::views(b@);
    if a.len() != b.len() {
        assert(x.len() != y.len());
        return false;
    }
    let mut i: usize = 0;
    while i < a.len()
        invariant
            i <= a@.len(),
            a@.len() == b@.len(),
            x == crate::common::views(a@),
            y == crate::common::views(b@),
            forall|j: int| 0 <= j < i ==> #[trigger] x[j] == y[j],
        decreases a@.len() - i,
    {
        if !is_same_token(&a[i], &b[i]) {
            assert(x[i as int] != y[i as int]);
            return false;
        }
        assert(x[i as int] == a@[i as int]@ && y[i as int] == b@[i as int]@);
        i += 1;
    }
    assert(x =~= y);
    true
}

impl HandlerShapeKey {
    /// Whether two shapes are the same.
    pub fn is_same(&self, other: &HandlerShapeKey) -> (same: bool)
        ensures
            same == (self@ == other@),
    {
        let ghost x = crate::common::views(self.clauses@);
        let ghost y = crate::common::views(other.clauses@);
        if self.effect != other.effect || self.clauses.len() != other.clauses.len() {
            assert(x.len() == self.clauses@.len() && y.len() == other.clauses@.len());
            return false;
        }
        if !are_same_tokens(&self.return_body, &other.return_body) {
            return false;
        }
        let mut i: usize = 0;
        while i < self.clauses.len()
            invariant
                i <= self.clauses@.len(),
                self.clauses@.len() == other.clauses@.len(),
                x == crate::common::views(self.clauses@),
                y == crate::common::views(other.clauses@),
                x == self@.clauses,
                y == other@.clauses,
                forall|j: int| 0 <= j < i ==> #[trigger] x[j] == y[j],
            decreases self.clauses@.len() - i,
        {
            let a = &self.clauses[i];
            let b = &other.clauses[i];
            assert(x[i as int] == a@ && y[i as int] == b@);
            if a.operation != b.operation || a.param_count != b.param_count || a.has_resume
                != b.has_resume || !are_same_tokens(&a.body, &b.body) {
                assert(x[i as int] != y[i as int]);
                return false;
            }
            assert(x[i as int] =~= y[i as int]);
            i += 1;
        }
        assert(x =~= y);
        assert(self@ =~= other@);
        true
    }

    /// The shape of a handler of a program.
    pub fn build(program: &CoreProgram, handler: &HandlerDef) -> (key: Self)
        requires
            program@.acyclic(),
        ensures
            key@ == handler_shape(program@, handler@),
    {
        let mut scope = ScopeCanon::new();
        scope.bind(handler.return_param);
        let mut return_body: Vec<ShapeToken> = Vec::new();
        push_stmt_shape(program, handler.return_body, &mut scope, &mut return_body);
        proof {
            let want = stmt_shape(
                program@,
                handler.return_body,
                bound(Map::empty(), handler.return_param),
            ).tokens;
            assert(crate::common::views(return_body@) =~= want);
        }
        let mut clauses: Vec<ClauseShapeKey> = Vec::new();
        let mut i: usize = 0;
        while i < handler.clauses.len()
            invariant
                program@.acyclic(),
                i <= handler.clauses@.len(),
                clauses@.len() == i,
                forall|j: int|
                    0 <= j < i ==> (#[trigger] clauses@[j])@ == clause_shape(
                        program@,
                        handler.clauses@[j]@,
                    ),
            decreases handler.clauses@.len() - i,
        {
            clauses.push(build_clause(program, &handler.clauses[i]));
            i += 1;
        }
        assert(crate::common::views(clauses@) =~= handler_shape(program@, handler@).clauses);
        HandlerShapeKey { effect: handler.effect, return_body, clauses }
    }
}

fn build_clause(program: &CoreProgram, clause: &HandlerClause) -> (key: ClauseShapeKey)
    requires
        program@.acyclic(),
    ensures
        key@ == clause_shape(program@, clause@),
{
    let mut scope = ScopeCanon::new();
    scope.bind_all(&clause.params);
    scope.bind_option(clause.resume_param);
    let ghost inner = scope.map@;
    let mut body: Vec<ShapeToken> = Vec::new();
    push_stmt_shape(program, clause.body, &mut scope, &mut body);
    assert(crate::common::views(body@) =~= stmt_shape(program@, clause.body, inner).tokens);
    ClauseShapeKey {
        operation: clause.operation,
        param_count: clause.params.len(),
        has_resume: clause.resume_param.is_some(),
        body,
    }
}

/// The shape of a handler, where there is one.
pub fn shape_for_handler(program: &CoreProgram, handler_id: HandlerId) -> (key: Option<
    HandlerShapeKey,
>)
    requires
        program@.acyclic(),
    ensures
        match key {
            Some(key) => program@.has_handler(handler_id) && key@ == handler_shape(
                program@,
                program@.handler(handler_id),
            ),
            None => !program@.has_handler(handler_id),
        },
{
    match program.handler(handler_id) {
        Some(handler) => Some(HandlerShapeKey::build(program, handler)),
        None => None,
    }
}

} // verus!
