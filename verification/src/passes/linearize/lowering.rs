//! The lowering itself: each reachable function body becomes linear statements,
//! and the clauses of a handler are woven into the code that it handles.
use crate::common::diagnostics::{DiagnosticBag, DiagnosticModel};
use crate::common::ids::{
    EffectLabelId, ExprId, FuncId, HandlerId, LinearExprId, LinearStmtId, StmtId, SymbolId, VarId,
};
use crate::common::span::Span;
use crate::ir::core_ir::{
    ClauseModel, CoreModel, CoreProgram, ExprKind, ExprModel, HandlerClause, HandlerModel, MatchArm,
    MatchArmModel, StmtKind, StmtModel,
};
use crate::ir::linear::{
    CallConvention, LinearExpr, LinearExprModel, LinearMatchArm, LinearMatchArmModel, LinearModel,
    LinearProgram, LinearStmt, LinearStmtModel, LinearStmtNodeModel,
};
use crate::passes::linearize::analysis::{
    ClauseConvention, ClauseResumeAnalysis, ResumeQualifier,
};
use crate::sema::effect::{EffectProperties, SortedEffectRow};
use std::collections::HashMap;
use vstd::prelude::*;

verus! {

/// What `resume` stands for inside a clause.
#[derive(Clone, Copy, PartialEq, Eq, Debug, Structural)]
pub struct ResumeContext {
    pub resume_var: VarId,
    pub perform_result: Option<VarId>,
    pub continuation: StmtId,
    pub clause_convention: ClauseConvention,
}

/// Whether a statement is lowered on its own or under a handler.
#[derive(Clone, Copy, PartialEq, Eq, Debug, Structural)]
pub enum Mode {
    Plain,
    Under(HandlerId, Option<ResumeContext>),
}

/// A statement to be lowered.
#[derive(Clone, Copy, PartialEq, Eq, Debug, Structural)]
pub struct Task {
    pub stmt: StmtId,
    pub mode: Mode,
}

// ---------------------------------------------------------------------------
// What a lowering leads to
// ---------------------------------------------------------------------------

/// Whether a clause is the first one for an operation.
pub open spec fn is_clause(handler: HandlerModel, operation: SymbolId, i: int) -> bool {
    &&& 0 <= i < handler.clauses.len()
    &&& handler.clauses[i].operation == operation
    &&& forall|j: int| 0 <= j < i ==> (#[trigger] handler.clauses[j]).operation != operation
}

/// The clause of a handler for an operation: the first one that names it.
pub open spec fn clause_for(handler: HandlerModel, operation: SymbolId) -> Option<ClauseModel> {
    if exists|i: int| is_clause(handler, operation, i) {
        Some(handler.clauses[choose|i: int| is_clause(handler, operation, i)])
    } else {
        None
    }
}

/// What `resume` stands for in the clause that handles a perform.
pub open spec fn clause_context(
    p: CoreModel,
    clause: ClauseModel,
    result: Option<VarId>,
    next: StmtId,
) -> Option<ResumeContext> {
    match clause.resume_param {
        None => None,
        Some(resume_var) => Some(
            ResumeContext {
                resume_var,
                perform_result: result,
                continuation: next,
                clause_convention: crate::passes::linearize::analysis::clause_convention(p, clause),
            },
        ),
    }
}

/// Whether a resume goes through the resumption of the clause at hand.
pub open spec fn resumes(context: Option<ResumeContext>, resume: VarId) -> bool {
    context matches Some(c) && c.resume_var == resume
}

/// Whether a resume hands over to the continuation for good.
pub open spec fn hands_over(p: CoreModel, context: ResumeContext, result: VarId, next: StmtId) -> bool {
    context.clause_convention is Direct && crate::passes::linearize::analysis::returns_var(
        p,
        next,
        result,
    )
}

/// Whether a statement to be lowered exists, and with it what it is lowered
/// under.
pub open spec fn fits(p: CoreModel, task: Task) -> bool {
    &&& p.has_stmt(task.stmt)
    &&& match task.mode {
        Mode::Plain => true,
        Mode::Under(h, context) => p.has_handler(h) && (context matches Some(c) ==> p.has_stmt(
            c.continuation,
        )),
    }
}

/// Whether the lowering of one statement lowers another.
pub open spec fn needs(p: CoreModel, task: Task, other: Task) -> bool {
    let stmt = p.stmt(task.stmt);
    match task.mode {
        Mode::Plain => match stmt {
            StmtModel::Handle { handler, body, next: None } if p.has_handler(handler) => other == (
            Task { stmt: body, mode: Mode::Under(handler, None) }),
            _ => other.mode is Plain && stmt.has_part(other.stmt),
        },
        Mode::Under(h, context) => match stmt {
            StmtModel::Return(_) => other == (Task {
                stmt: p.handler(h).return_body,
                mode: Mode::Plain,
            }),
            StmtModel::Perform { result, effect, operation, next, .. } if effect == p.handler(
                h,
            ).effect => match clause_for(p.handler(h), operation) {
                Some(clause) => other == (Task {
                    stmt: clause.body,
                    mode: Mode::Under(h, clause_context(p, clause, result, next)),
                }),
                None => other == (Task { stmt: next, mode: task.mode }),
            },
            StmtModel::Resume { result, resume, next, .. } => if resumes(context, resume) {
                ||| other == (Task {
                    stmt: context->0.continuation,
                    mode: Mode::Under(h, None),
                })
                ||| !hands_over(p, context->0, result, next) && other == (Task {
                    stmt: next,
                    mode: Mode::Under(h, None),
                })
            } else {
                other == (Task { stmt: next, mode: task.mode })
            },
            StmtModel::Handle { .. } => other == (Task { stmt: task.stmt, mode: Mode::Plain }),
            _ => other.mode == task.mode && stmt.has_part(other.stmt),
        },
    }
}

/// Whether the lowering of a statement comes to an end within some depth.
pub open spec fn settles(p: CoreModel, task: Task, depth: nat) -> bool
    decreases depth,
{
    depth > 0 && forall|other: Task| #[trigger]
        needs(p, task, other) ==> settles(p, other, (depth - 1) as nat)
}

/// Whether the lowering of a statement comes to an end: the handlers on the way
/// do not perform what they handle over and over.
pub open spec fn ends(p: CoreModel, task: Task) -> bool {
    exists|depth: nat| settles(p, task, depth)
}

/// The least depth within which a lowering comes to an end.
pub open spec fn is_depth(p: CoreModel, task: Task, depth: nat) -> bool {
    settles(p, task, depth) && forall|less: nat| less < depth ==> !settles(p, task, less)
}

pub open spec fn depth(p: CoreModel, task: Task) -> nat {
    choose|depth: nat| is_depth(p, task, depth)
}

proof fn lemma_least_depth(p: CoreModel, task: Task, bound: nat)
    requires
        settles(p, task, bound),
    ensures
        is_depth(p, task, depth(p, task)),
        depth(p, task) <= bound,
    decreases bound,
{
    if exists|less: nat| less < bound && settles(p, task, less) {
        let less = choose|less: nat| less < bound && settles(p, task, less);
        lemma_least_depth(p, task, less);
    } else {
        assert(is_depth(p, task, bound));
        let d = depth(p, task);
        assert(is_depth(p, task, d));
    }
}

/// What a lowering lowers on the way comes to an end, and earlier.
pub proof fn lemma_needs(p: CoreModel, task: Task)
    ensures
        forall|other: Task| #![trigger depth(p, other)] #![trigger ends(p, other)]
            ends(p, task) && needs(p, task, other) ==> ends(p, other) && depth(p, other) < depth(
                p,
                task,
            ),
{
    assert forall|other: Task| #![trigger depth(p, other)] #![trigger ends(p, other)]
        ends(p, task) && needs(p, task, other) implies ends(p, other) && depth(p, other) < depth(
        p,
        task,
    ) by {
        let bound = choose|bound: nat| settles(p, task, bound);
        lemma_least_depth(p, task, bound);
        let d = depth(p, task);
        assert(settles(p, task, d));
        assert(settles(p, other, (d - 1) as nat));
        lemma_least_depth(p, other, (d - 1) as nat);
    }
}

// ---------------------------------------------------------------------------
// What the result is
// ---------------------------------------------------------------------------

/// The name of the function that is called, or the name that names nothing.
pub open spec fn callee_name(p: CoreModel, callee: FuncId) -> SymbolId {
    if p.has_function(callee) {
        p.function(callee).name
    } else {
        SymbolId::invalid()
    }
}

/// How a call with some effects may transfer control.
pub open spec fn call_convention(
    effects: Seq<EffectLabelId>,
    properties: Map<usize, EffectProperties>,
) -> CallConvention {
    if effects.len() == 0 {
        CallConvention::Pure
    } else if crate::sema::effect::row_thunkable(effects, properties) {
        CallConvention::Direct
    } else {
        CallConvention::Control
    }
}

/// The state of a lowering: the linear program so far, where each core node has
/// gone, and what has been reported.
#[verifier::ext_equal]
pub struct LinearState {
    pub lin: LinearModel,
    pub exprs: Seq<Option<LinearExprId>>,
    pub stmts: Seq<Option<LinearStmtId>>,
    pub reports: Seq<DiagnosticModel>,
}

impl LinearState {
    /// A core expression has become a linear one.
    pub open spec fn expr_at(self, e: ExprId, d: LinearExprId) -> bool {
        e.0 < self.exprs.len() && self.exprs[e.0 as int] == Some(d)
    }

    /// Core expressions have become linear ones, in order.
    pub open spec fn exprs_at(self, es: Seq<ExprId>, ds: Seq<LinearExprId>) -> bool {
        &&& es.len() == ds.len()
        &&& forall|i: int| #![trigger es[i]] #![trigger ds[i]]
            0 <= i < es.len() ==> self.expr_at(es[i], ds[i])
    }

    /// A linear expression says the same as a core expression.
    pub open spec fn expr_says(self, p: CoreModel, e: ExprId, kind: LinearExprModel) -> bool {
        match p.expr(e) {
            ExprModel::Var(var) => kind == LinearExprModel::Var(var),
            ExprModel::Literal(literal) => kind == LinearExprModel::Literal(literal),
            ExprModel::Unary { op, expr } => {
                &&& kind matches LinearExprModel::Unary { op: op2, expr: expr2 }
                &&& op2 == op
                &&& self.expr_at(expr, expr2)
            },
            ExprModel::Binary { op, lhs, rhs } => {
                &&& kind matches LinearExprModel::Binary { op: op2, lhs: l2, rhs: r2 }
                &&& op2 == op
                &&& self.expr_at(lhs, l2)
                &&& self.expr_at(rhs, r2)
            },
            ExprModel::PureCall { callee, args } => {
                &&& kind matches LinearExprModel::PureCall { callee: c2, args: args2 }
                &&& c2 == callee_name(p, callee)
                &&& self.exprs_at(args, args2)
            },
            ExprModel::MakeStruct { ty, fields } => {
                &&& kind matches LinearExprModel::MakeStruct { ty: ty2, fields: f2 }
                &&& ty2 == ty
                &&& self.exprs_at(fields, f2)
            },
            ExprModel::MakeEnum { ty, variant, fields } => {
                &&& kind matches LinearExprModel::MakeEnum {
                    ty: ty2,
                    variant: v2,
                    fields: f2,
                }
                &&& ty2 == ty
                &&& v2 == variant
                &&& self.exprs_at(fields, f2)
            },
            ExprModel::Error(_) => kind == LinearExprModel::Error,
        }
    }

    /// The linear expression that stands for a core expression says the same.
    pub open spec fn expr_holds(self, p: CoreModel, e: ExprId, d: LinearExprId) -> bool {
        self.lin.has_expr(d) && self.expr_says(p, e, self.lin.expr(d))
    }

    /// A linear statement with no reference-count operation around it.
    pub open spec fn fresh(self, d: LinearStmtId) -> bool {
        self.lin.has_stmt(d) && self.lin.stmts[d.0 as int] == LinearStmtNodeModel::plain(
            self.lin.stmt(d),
        )
    }

    /// A core statement, lowered on its own, has become a linear one. A resume
    /// outside any clause is passed over.
    pub open spec fn plain_at(self, p: CoreModel, s: StmtId, d: LinearStmtId) -> bool
        decreases p.stmt_rank(s),
        when p.acyclic()
    {
        proof {
            crate::passes::linearize::analysis::lemma_stmt_ranks(p, s);
        }
        p.has_stmt(s) && match p.stmt(s) {
            StmtModel::Resume { next, .. } => self.plain_at(p, next, d),
            _ => s.0 < self.stmts.len() && self.stmts[s.0 as int] == Some(d),
        }
    }

    pub open spec fn plain_opt(
        self,
        p: CoreModel,
        s: Option<StmtId>,
        d: Option<LinearStmtId>,
    ) -> bool {
        match (s, d) {
            (None, None) => true,
            (Some(s), Some(d)) => self.plain_at(p, s, d),
            _ => false,
        }
    }

    /// Arms keep their tags and binders.
    pub open spec fn arms_match(
        self,
        arms: Seq<MatchArmModel>,
        ds: Seq<LinearMatchArmModel>,
    ) -> bool {
        &&& arms.len() == ds.len()
        &&& forall|i: int| #![trigger ds[i]]
            0 <= i < arms.len() ==> ds[i].tag == arms[i].tag && ds[i].binders == arms[i].binders
    }

    /// What a linear statement says of the core statement, lowered on its own,
    /// that it stands for.
    pub open spec fn plain_says(
        self,
        p: CoreModel,
        properties: Map<usize, EffectProperties>,
        s: StmtId,
        kind: LinearStmtModel,
    ) -> bool {
        match p.stmt(s) {
            StmtModel::Return(expr) => {
                &&& kind matches LinearStmtModel::Return(value)
                &&& self.expr_at(expr, value)
            },
            StmtModel::Let { binding, value, next } => {
                &&& kind matches LinearStmtModel::Let {
                    binding: b2,
                    value: v2,
                    next: n2,
                }
                &&& b2 == binding
                &&& self.expr_at(value, v2)
                &&& self.plain_at(p, next, n2)
            },
            StmtModel::Val { binding, value, next } => {
                &&& kind matches LinearStmtModel::Val {
                    binding: b2,
                    value: v2,
                    next: n2,
                }
                &&& b2 == binding
                &&& self.plain_at(p, value, v2)
                &&& self.plain_at(p, next, n2)
            },
            StmtModel::Call { result, callee, args, effects, next } => {
                &&& kind matches LinearStmtModel::Call {
                    convention,
                    result: r2,
                    callee: c2,
                    args: a2,
                    next: n2,
                }
                &&& convention == call_convention(effects, properties)
                &&& r2 == result
                &&& c2 == callee_name(p, callee)
                &&& self.exprs_at(args, a2)
                &&& self.plain_at(p, next, n2)
            },
            StmtModel::If { cond, then_branch, else_branch } => {
                &&& kind matches LinearStmtModel::If {
                    cond: c2,
                    then_branch: t2,
                    else_branch: e2,
                }
                &&& self.expr_at(cond, c2)
                &&& self.plain_at(p, then_branch, t2)
                &&& self.plain_at(p, else_branch, e2)
            },
            StmtModel::Match { scrutinee, arms, default } => {
                &&& kind matches LinearStmtModel::Match {
                    scrutinee: s2,
                    arms: a2,
                    default: d2,
                }
                &&& self.expr_at(scrutinee, s2)
                &&& self.arms_match(arms, a2)
                &&& forall|i: int| #![trigger a2[i]]
                    0 <= i < a2.len() ==> self.plain_at(p, arms[i].body, a2[i].body)
                &&& self.plain_opt(p, default, d2)
            },
            StmtModel::Perform { result, effect, operation, args, next } => {
                &&& kind matches LinearStmtModel::Perform {
                    result: r2,
                    effect: e2,
                    operation: o2,
                    args: a2,
                    next: n2,
                }
                &&& r2 == result
                &&& e2 == effect
                &&& o2 == operation
                &&& self.exprs_at(args, a2)
                &&& self.plain_at(p, next, n2)
            },
            StmtModel::Handle { handler, body, next } => {
                &&& kind matches LinearStmtModel::Handle {
                    effect: e2,
                    body: b2,
                    next: n2,
                }
                &&& e2 == handled_effect(p, handler)
                &&& self.plain_at(p, body, b2)
                &&& self.plain_opt(p, next, n2)
            },
            StmtModel::Stage { stage, body, next } => {
                &&& kind matches LinearStmtModel::Stage {
                    stage: s2,
                    body: b2,
                    next: n2,
                }
                &&& s2 == stage
                &&& self.plain_at(p, body, b2)
                &&& self.plain_opt(p, next, n2)
            },
            StmtModel::Hole { .. } => kind is Hole,
            StmtModel::Error(_) => kind is Error,
            StmtModel::Resume { .. } => false,
        }
    }

    /// The linear statement for a core statement lowered on its own. A handler
    /// with nothing after it is woven into its body.
    pub open spec fn plain_holds(
        self,
        p: CoreModel,
        properties: Map<usize, EffectProperties>,
        s: StmtId,
        d: LinearStmtId,
    ) -> bool {
        match p.stmt(s) {
            StmtModel::Resume { .. } => false,
            StmtModel::Handle { handler, body, next: None } if p.has_handler(handler) => {
                self.under(p, properties, body, handler, None, d)
            },
            _ => self.fresh(d) && self.plain_says(p, properties, s, self.lin.stmt(d)),
        }
    }

    /// Past the statements, starting at one, that bind the parameters from some
    /// position on to the arguments, in order.
    pub open spec fn past_bindings(
        self,
        params: Seq<VarId>,
        args: Seq<ExprId>,
        i: int,
        d: LinearStmtId,
    ) -> Option<LinearStmtId>
        decreases params.len() - i,
    {
        if i < 0 || i >= params.len() || i >= args.len() {
            Some(d)
        } else if !self.fresh(d) {
            None
        } else {
            match self.lin.stmt(d) {
                LinearStmtModel::Let { binding, value, next } => if binding == params[i]
                    && self.expr_at(args[i], value) {
                    self.past_bindings(params, args, i + 1, next)
                } else {
                    None
                },
                _ => None,
            }
        }
    }

    /// Past the statement that binds the result of the perform to what it is
    /// resumed with, if that result has a name.
    pub open spec fn past_result(
        self,
        context: ResumeContext,
        arg: ExprId,
        d: LinearStmtId,
    ) -> Option<LinearStmtId> {
        match context.perform_result {
            None => Some(d),
            Some(var) => match self.lin.stmt(d) {
                LinearStmtModel::Let { binding, value, next } => if self.fresh(d) && binding == var
                    && self.expr_at(arg, value) {
                    Some(next)
                } else {
                    None
                },
                _ => None,
            },
        }
    }

    /// What the linear statement for a core statement, lowered under a handler,
    /// says.
    pub open spec fn under(
        self,
        p: CoreModel,
        properties: Map<usize, EffectProperties>,
        s: StmtId,
        h: HandlerId,
        context: Option<ResumeContext>,
        d: LinearStmtId,
    ) -> bool
        decreases depth(p, Task { stmt: s, mode: Mode::Under(h, context) }),
        when p.acyclic() && ends(p, Task { stmt: s, mode: Mode::Under(h, context) })
    {
        proof {
            lemma_needs(p, Task { stmt: s, mode: Mode::Under(h, context) });
        }
        let handler = p.handler(h);
        match p.stmt(s) {
            // The value goes through the return clause.
            StmtModel::Return(expr) => {
                &&& self.fresh(d)
                &&& self.lin.stmt(d) matches LinearStmtModel::Let { binding, value, next }
                &&& binding == handler.return_param
                &&& self.expr_at(expr, value)
                &&& self.plain_at(p, handler.return_body, next)
            },
            // A handled operation becomes its clause, with the parameters bound.
            StmtModel::Perform { result, effect, operation, args, next } if effect
                == handler.effect => match clause_for(handler, operation) {
                Some(clause) => {
                    &&& self.past_bindings(clause.params, args, 0, d) matches Some(body)
                    &&& self.under(
                        p,
                        properties,
                        clause.body,
                        h,
                        clause_context(p, clause, result, next),
                        body,
                    )
                },
                None => self.under(p, properties, next, h, context, d),
            },
            // A resume runs what follows the perform.
            StmtModel::Resume { result, resume, arg, next } => if !resumes(context, resume) {
                self.under(p, properties, next, h, context, d)
            } else if hands_over(p, context->0, result, next) {
                &&& self.past_result(context->0, arg, d) matches Some(resumed)
                &&& self.under(p, properties, context->0.continuation, h, None, resumed)
            } else {
                &&& self.fresh(d)
                &&& self.lin.stmt(d) matches LinearStmtModel::Val {
                    binding,
                    value,
                    next: n2,
                }
                &&& binding == result
                &&& self.past_result(context->0, arg, value) matches Some(resumed)
                &&& self.under(p, properties, context->0.continuation, h, None, resumed)
                &&& self.under(p, properties, next, h, None, n2)
            },
            StmtModel::Let { binding, value, next } => {
                &&& self.fresh(d)
                &&& self.lin.stmt(d) matches LinearStmtModel::Let {
                    binding: b2,
                    value: v2,
                    next: n2,
                }
                &&& b2 == binding
                &&& self.expr_at(value, v2)
                &&& self.under(p, properties, next, h, context, n2)
            },
            StmtModel::Val { binding, value, next } => {
                &&& self.fresh(d)
                &&& self.lin.stmt(d) matches LinearStmtModel::Val {
                    binding: b2,
                    value: v2,
                    next: n2,
                }
                &&& b2 == binding
                &&& self.under(p, properties, value, h, context, v2)
                &&& self.under(p, properties, next, h, context, n2)
            },
            StmtModel::Call { result, callee, args, effects, next } => {
                &&& self.fresh(d)
                &&& self.lin.stmt(d) matches LinearStmtModel::Call {
                    convention,
                    result: r2,
                    callee: c2,
                    args: a2,
                    next: n2,
                }
                &&& convention == call_convention(effects, properties)
                &&& r2 == result
                &&& c2 == callee_name(p, callee)
                &&& self.exprs_at(args, a2)
                &&& self.under(p, properties, next, h, context, n2)
            },
            StmtModel::If { cond, then_branch, else_branch } => {
                &&& self.fresh(d)
                &&& self.lin.stmt(d) matches LinearStmtModel::If {
                    cond: c2,
                    then_branch: t2,
                    else_branch: e2,
                }
                &&& self.expr_at(cond, c2)
                &&& self.under(p, properties, then_branch, h, context, t2)
                &&& self.under(p, properties, else_branch, h, context, e2)
            },
            StmtModel::Match { scrutinee, arms, default } => {
                &&& self.fresh(d)
                &&& self.lin.stmt(d) matches LinearStmtModel::Match {
                    scrutinee: s2,
                    arms: a2,
                    default: d2,
                }
                &&& self.expr_at(scrutinee, s2)
                &&& self.arms_match(arms, a2)
                &&& forall|i: int| #![trigger a2[i]] #![trigger arms[i]]
                    0 <= i < arms.len() ==> self.under(
                        p,
                        properties,
                        arms[i].body,
                        h,
                        context,
                        a2[i].body,
                    )
                &&& match (default, d2) {
                    (None, None) => true,
                    (Some(n), Some(n2)) => self.under(p, properties, n, h, context, n2),
                    _ => false,
                }
            },
            // The operations of other effects stay.
            StmtModel::Perform { result, effect, operation, args, next } => {
                &&& self.fresh(d)
                &&& self.lin.stmt(d) matches LinearStmtModel::Perform {
                    result: r2,
                    effect: e2,
                    operation: o2,
                    args: a2,
                    next: n2,
                }
                &&& r2 == result
                &&& e2 == effect
                &&& o2 == operation
                &&& self.exprs_at(args, a2)
                &&& self.under(p, properties, next, h, context, n2)
            },
            // An inner handler stands on its own.
            StmtModel::Handle { .. } => self.plain_at(p, s, d),
            StmtModel::Stage { stage, body, next } => {
                &&& self.fresh(d)
                &&& self.lin.stmt(d) matches LinearStmtModel::Stage {
                    stage: s2,
                    body: b2,
                    next: n2,
                }
                &&& s2 == stage
                &&& self.under(p, properties, body, h, context, b2)
                &&& match (next, n2) {
                    (None, None) => true,
                    (Some(n), Some(n2)) => self.under(p, properties, n, h, context, n2),
                    _ => false,
                }
            },
            StmtModel::Hole { .. } => self.fresh(d) && self.lin.stmt(d) is Hole,
            StmtModel::Error(_) => self.fresh(d) && self.lin.stmt(d) is Error,
        }
    }
}

/// The effect that a handler handles, or the label that labels nothing.
pub open spec fn handled_effect(p: CoreModel, handler: HandlerId) -> EffectLabelId {
    if p.has_handler(handler) {
        p.handler(handler).effect
    } else {
        EffectLabelId::invalid()
    }
}

// ---------------------------------------------------------------------------
// What is reported, and what is made
// ---------------------------------------------------------------------------

/// How far a lowering has come: what has been reported, which statements and
/// expressions need not be lowered again, and how many linear statements and
/// expressions there are.
#[verifier::ext_equal]
pub struct Progress {
    pub diagnostics: Seq<DiagnosticModel>,
    pub done: Set<usize>,
    pub known: Set<usize>,
    pub stmts: nat,
    pub exprs: nat,
}

/// The note on how a clause uses its resumption.
pub open spec fn qualifier_note(known: ClauseResumeAnalysis) -> Seq<char> {
    "handler clause resume qualifier: "@ + known.qualifier.text() + " (min="@
        + known.min_uses.text() + ", max="@ + known.max_uses.text() + ", tail="@
        + crate::common::text::truth(known.tail_resumptive) + ")"@
}

/// The arguments or fields of an expression that has a list of them.
pub open spec fn listed_parts(expr: ExprModel) -> Seq<ExprId> {
    match expr {
        ExprModel::PureCall { args, .. } => args,
        ExprModel::MakeStruct { fields, .. } => fields,
        ExprModel::MakeEnum { fields, .. } => fields,
        _ => Seq::empty(),
    }
}

/// How many parameters a clause has a value for.
pub open spec fn bound_params(clause: ClauseModel, args: Seq<ExprId>) -> nat {
    if clause.params.len() < args.len() {
        clause.params.len()
    } else {
        args.len()
    }
}

impl Progress {
    pub open spec fn error(self, code: Seq<char>, message: Seq<char>, span: Span) -> Self {
        Progress {
            diagnostics: self.diagnostics.push(DiagnosticModel::error(code, message, span)),
            ..self
        }
    }

    pub open spec fn note(self, code: Seq<char>, message: Seq<char>, span: Span) -> Self {
        Progress {
            diagnostics: self.diagnostics.push(DiagnosticModel::note(code, message, span)),
            ..self
        }
    }

    /// Nothing has been lowered yet.
    pub open spec fn start(diagnostics: Seq<DiagnosticModel>) -> Self {
        Progress { diagnostics, done: Set::empty(), known: Set::empty(), stmts: 0, exprs: 0 }
    }

    pub open spec fn mark_done(self, s: StmtId) -> Self {
        Progress { done: self.done.insert(s.0), ..self }
    }

    /// A linear statement is made.
    pub open spec fn made(self) -> Self {
        Progress { stmts: self.stmts + 1, ..self }
    }

    /// The linear expression for a core expression is made.
    pub open spec fn made_expr(self, e: ExprId) -> Self {
        Progress { known: self.known.insert(e.0), exprs: self.exprs + 1, ..self }
    }

    /// An expression is lowered once. A call in it of a function that does not
    /// exist is an error.
    pub open spec fn expr(self, p: CoreModel, e: ExprId) -> Self
        decreases p.expr_rank(e), 1nat, 0nat,
        when p.acyclic()
    {
        proof {
            crate::passes::linearize::analysis::lemma_expr_ranks(p, e);
        }
        if self.known.contains(e.0) || !p.has_expr(e) {
            self
        } else {
            match p.expr(e) {
                ExprModel::Var(_) | ExprModel::Literal(_) | ExprModel::Error(_) => self,
                ExprModel::Unary { expr, .. } => self.expr(p, expr),
                ExprModel::Binary { lhs, rhs, .. } => self.expr(p, lhs).expr(p, rhs),
                ExprModel::PureCall { callee, args } => self.check_callee(
                    p,
                    callee,
                    p.exprs[e.0 as int].span,
                ).expr_parts(p, e, args.len()),
                ExprModel::MakeStruct { fields, .. } => self.expr_parts(p, e, fields.len()),
                ExprModel::MakeEnum { fields, .. } => self.expr_parts(p, e, fields.len()),
            }.made_expr(e)
        }
    }

    /// The first arguments or fields of an expression are lowered, in order.
    pub open spec fn expr_parts(self, p: CoreModel, e: ExprId, first: nat) -> Self
        decreases p.expr_rank(e), 0nat, first,
        when p.acyclic()
    {
        let parts = listed_parts(p.expr(e));
        if p.has_expr(e) && 0 < first <= parts.len() {
            proof {
                crate::passes::linearize::analysis::lemma_expr_ranks(p, e);
                assert(parts.contains(parts[first - 1]));
                assert(p.expr(e).has_part(parts[first - 1]));
            }
            self.expr_parts(p, e, (first - 1) as nat).expr(p, parts[first - 1])
        } else {
            self
        }
    }

    /// The first of some expressions are lowered, in order.
    pub open spec fn args(self, p: CoreModel, args: Seq<ExprId>, first: nat) -> Self
        decreases first,
    {
        if first == 0 {
            self
        } else {
            self.args(p, args, (first - 1) as nat).expr(p, args[first - 1])
        }
    }

    /// The first parameters of a clause are bound to the arguments, the last one
    /// first.
    pub open spec fn bindings(self, p: CoreModel, args: Seq<ExprId>, first: nat) -> Self
        decreases first,
    {
        if first == 0 {
            self
        } else {
            self.expr(p, args[first - 1]).made().bindings(p, args, (first - 1) as nat)
        }
    }

    /// A call of a function that does not exist is an error.
    pub open spec fn check_callee(self, p: CoreModel, callee: FuncId, span: Span) -> Self {
        if p.has_function(callee) {
            self
        } else {
            self.error(
                "LINEARIZE_UNKNOWN_CALLEE"@,
                "Could not resolve function id while lowering call to linear IR"@,
                span,
            )
        }
    }

    /// A clause that may resume is noted, and one that may resume more than once
    /// is an error.
    pub open spec fn check_clause(self, p: CoreModel, clause: ClauseModel) -> Self {
        let known = crate::passes::linearize::analysis::clause_resume(p, clause);
        let noted = if clause.resume_param is Some {
            self.note("LINEARIZE_RESUME_QUALIFIER"@, qualifier_note(known), clause.span)
        } else {
            self
        };
        if known.qualifier is Multi {
            noted.error(
                "LINEARIZE_MULTI_SHOT_RESUME"@,
                "Handler clause resumes the continuation more than once; v1 supports single-shot resumptions only"@,
                clause.span,
            )
        } else {
            noted
        }
    }

    /// What is reported and made by the time a statement has been lowered.
    pub open spec fn after(self, p: CoreModel, task: Task) -> Self
        decreases depth(p, task), 1nat, 0nat,
        when ends(p, task)
    {
        proof {
            lemma_needs(p, task);
        }
        let span = p.stmt_span(task.stmt);
        let mode = task.mode;
        match mode {
            Mode::Plain => if self.done.contains(task.stmt.0) {
                self
            } else {
                match p.stmt(task.stmt) {
                    StmtModel::Return(expr) => self.expr(p, expr).made().mark_done(task.stmt),
                    StmtModel::Hole { .. } | StmtModel::Error(_) => self.made().mark_done(
                        task.stmt,
                    ),
                    StmtModel::Let { value, next, .. } => self.expr(p, value).after(
                        p,
                        Task { stmt: next, mode },
                    ).made().mark_done(task.stmt),
                    StmtModel::Val { value, next, .. } => self.after(
                        p,
                        Task { stmt: value, mode },
                    ).after(p, Task { stmt: next, mode }).made().mark_done(task.stmt),
                    StmtModel::Call { callee, args, next, .. } => self.check_callee(
                        p,
                        callee,
                        span,
                    ).args(p, args, args.len()).after(
                        p,
                        Task { stmt: next, mode },
                    ).made().mark_done(task.stmt),
                    StmtModel::If { cond, then_branch, else_branch } => self.expr(p, cond).after(
                        p,
                        Task { stmt: then_branch, mode },
                    ).after(p, Task { stmt: else_branch, mode }).made().mark_done(task.stmt),
                    StmtModel::Match { scrutinee, arms, default } => {
                        let armed = self.expr(p, scrutinee).after_arms(p, task, arms.len());
                        match default {
                            Some(d) => armed.after(p, Task { stmt: d, mode }),
                            None => armed,
                        }.made().mark_done(task.stmt)
                    },
                    StmtModel::Perform { args, next, .. } => self.args(p, args, args.len()).after(
                        p,
                        Task { stmt: next, mode },
                    ).made().mark_done(task.stmt),
                    StmtModel::Resume { next, .. } => self.error(
                        "LINEARIZE_RESUME_OUTSIDE_HANDLER"@,
                        "Encountered `resume` outside a handler-lowering context"@,
                        span,
                    ).after(p, Task { stmt: next, mode }),
                    StmtModel::Handle { handler, body, next } => if p.has_handler(handler) {
                        match next {
                            None => self.after(
                                p,
                                Task { stmt: body, mode: Mode::Under(handler, None) },
                            ).mark_done(task.stmt),
                            Some(n) => self.after(p, Task { stmt: body, mode }).after(
                                p,
                                Task { stmt: n, mode },
                            ).made().mark_done(task.stmt),
                        }
                    } else {
                        let lost = self.error(
                            "LINEARIZE_UNKNOWN_HANDLER"@,
                            "Could not resolve handler id while lowering to linear IR"@,
                            span,
                        ).after(p, Task { stmt: body, mode });
                        match next {
                            None => lost,
                            Some(n) => lost.after(p, Task { stmt: n, mode }),
                        }.made().mark_done(task.stmt)
                    },
                    StmtModel::Stage { body, next, .. } => {
                        let staged = self.after(p, Task { stmt: body, mode });
                        match next {
                            None => staged,
                            Some(n) => staged.after(p, Task { stmt: n, mode }),
                        }.made().mark_done(task.stmt)
                    },
                }
            },
            Mode::Under(h, context) => match p.stmt(task.stmt) {
                StmtModel::Return(expr) => self.expr(p, expr).after(
                    p,
                    Task { stmt: p.handler(h).return_body, mode: Mode::Plain },
                ).made(),
                StmtModel::Perform { result, effect, operation, args, next } if effect == p.handler(
                    h,
                ).effect => match clause_for(p.handler(h), operation) {
                    Some(clause) => self.check_clause(p, clause).after(
                        p,
                        Task {
                            stmt: clause.body,
                            mode: Mode::Under(h, clause_context(p, clause, result, next)),
                        },
                    ).bindings(p, args, bound_params(clause, args)),
                    None => self.error(
                        "LINEARIZE_MISSING_HANDLER_CLAUSE"@,
                        "Missing handler clause for performed operation"@,
                        span,
                    ).after(p, Task { stmt: next, mode }),
                },
                StmtModel::Resume { result, resume, arg, next } => if !resumes(context, resume) {
                    self.error(
                        "LINEARIZE_RESUME_OUTSIDE_CLAUSE"@,
                        "`resume` used outside the active handler clause context"@,
                        span,
                    ).after(p, Task { stmt: next, mode })
                } else {
                    let continued = self.after(
                        p,
                        Task { stmt: context->0.continuation, mode: Mode::Under(h, None) },
                    );
                    let resumed = if context->0.perform_result is Some {
                        continued.expr(p, arg).made()
                    } else {
                        continued
                    };
                    if hands_over(p, context->0, result, next) {
                        resumed
                    } else {
                        let checked = if context->0.clause_convention is Direct {
                            resumed.error(
                                "LINEARIZE_DIRECT_RESUME_NON_TAIL"@,
                                "Direct handler clause resume is not in tail position; lowering as control path"@,
                                span,
                            )
                        } else {
                            resumed
                        };
                        checked.after(p, Task { stmt: next, mode: Mode::Under(h, None) }).made()
                    }
                },
                StmtModel::Let { value, next, .. } => self.after(
                    p,
                    Task { stmt: next, mode },
                ).expr(p, value).made(),
                StmtModel::Val { value, next, .. } => self.after(
                    p,
                    Task { stmt: value, mode },
                ).after(p, Task { stmt: next, mode }).made(),
                StmtModel::Call { callee, args, next, .. } => self.check_callee(
                    p,
                    callee,
                    span,
                ).after(p, Task { stmt: next, mode }).args(p, args, args.len()).made(),
                StmtModel::If { cond, then_branch, else_branch } => self.after(
                    p,
                    Task { stmt: then_branch, mode },
                ).after(p, Task { stmt: else_branch, mode }).expr(p, cond).made(),
                StmtModel::Match { scrutinee, arms, default } => {
                    let armed = self.after_arms(p, task, arms.len());
                    match default {
                        Some(d) => armed.after(p, Task { stmt: d, mode }),
                        None => armed,
                    }.expr(p, scrutinee).made()
                },
                StmtModel::Perform { args, next, .. } => self.after(
                    p,
                    Task { stmt: next, mode },
                ).args(p, args, args.len()).made(),
                StmtModel::Handle { .. } => self.after(
                    p,
                    Task { stmt: task.stmt, mode: Mode::Plain },
                ),
                StmtModel::Stage { body, next, .. } => {
                    let staged = self.after(p, Task { stmt: body, mode });
                    match next {
                        None => staged,
                        Some(n) => staged.after(p, Task { stmt: n, mode }),
                    }.made()
                },
                StmtModel::Hole { .. } | StmtModel::Error(_) => self.made(),
            },
        }
    }

    /// What is reported and made by the time the first arms of a match have been
    /// lowered.
    pub open spec fn after_arms(self, p: CoreModel, task: Task, first: nat) -> Self
        decreases depth(p, task), 0nat, first,
        when ends(p, task) && p.stmt(task.stmt) is Match && first <= p.stmt(task.stmt)->arms.len()
    {
        if first == 0 {
            self
        } else {
            proof {
                crate::ir::core_ir::lemma_arm_is_part(p.stmt(task.stmt), first - 1);
                lemma_needs(p, task);
            }
            self.after_arms(p, task, (first - 1) as nat).after(
                p,
                Task { stmt: p.stmt(task.stmt)->arms[first - 1].body, mode: task.mode },
            )
        }
    }
}

// ---------------------------------------------------------------------------
// States that hold together, and how they grow
// ---------------------------------------------------------------------------

impl LinearState {
    /// A statement, lowered in some mode, has become a linear one.
    pub open spec fn at(
        self,
        p: CoreModel,
        properties: Map<usize, EffectProperties>,
        task: Task,
        d: LinearStmtId,
    ) -> bool {
        match task.mode {
            Mode::Plain => self.plain_at(p, task.stmt, d),
            Mode::Under(h, context) => self.under(p, properties, task.stmt, h, context, d),
        }
    }

    /// Nothing that an earlier state holds has changed.
    pub open spec fn grew_from(self, earlier: LinearState) -> bool {
        &&& self.lin.extends(earlier.lin)
        &&& self.exprs.len() == earlier.exprs.len()
        &&& self.stmts.len() == earlier.stmts.len()
        &&& forall|i: int| #![trigger self.exprs[i]] #![trigger earlier.exprs[i]]
            0 <= i < earlier.exprs.len() && earlier.exprs[i] is Some ==> self.exprs[i]
                == earlier.exprs[i]
        &&& forall|i: int| #![trigger self.stmts[i]] #![trigger earlier.stmts[i]]
            0 <= i < earlier.stmts.len() && earlier.stmts[i] is Some ==> self.stmts[i]
                == earlier.stmts[i]
    }

    /// Every node lowered so far says what it should.
    pub open spec fn holds(self, p: CoreModel, properties: Map<usize, EffectProperties>) -> bool {
        &&& self.exprs.len() == p.exprs.len()
        &&& self.stmts.len() == p.stmts.len()
        &&& forall|e: ExprId, d: LinearExprId| #[trigger]
            self.expr_at(e, d) ==> self.expr_holds(p, e, d)
        &&& forall|s: StmtId| #![trigger self.stmts[s.0 as int]]
            s.0 < self.stmts.len() && self.stmts[s.0 as int] is Some ==> {
                &&& ends(p, Task { stmt: s, mode: Mode::Plain })
                &&& self.plain_holds(p, properties, s, self.stmts[s.0 as int]->0)
                &&& self.lin.has_stmt(self.stmts[s.0 as int]->0)
            }
        &&& self.lin.bottom_up()
    }

    /// How far the lowering has come.
    pub open spec fn progress(self) -> Progress {
        Progress {
            diagnostics: self.reports,
            done: lowered(self.stmts),
            known: lowered_exprs(self.exprs),
            stmts: self.lin.stmts.len(),
            exprs: self.lin.exprs.len(),
        }
    }
}

/// The statements that have become linear ones.
pub open spec fn lowered(stmts: Seq<Option<LinearStmtId>>) -> Set<usize> {
    Set::new(|s: usize| s < stmts.len() && stmts[s as int] is Some)
}

/// The expressions that have become linear ones.
pub open spec fn lowered_exprs(exprs: Seq<Option<LinearExprId>>) -> Set<usize> {
    Set::new(|e: usize| e < exprs.len() && exprs[e as int] is Some)
}

proof fn lemma_plain_at_grows(p: CoreModel, a: LinearState, b: LinearState, s: StmtId, d: LinearStmtId)
    requires
        p.acyclic(),
        b.grew_from(a),
        a.plain_at(p, s, d),
    ensures
        b.plain_at(p, s, d),
    decreases p.stmt_rank(s),
{
    crate::passes::linearize::analysis::lemma_stmt_ranks(p, s);
    match p.stmt(s) {
        StmtModel::Resume { next, .. } => lemma_plain_at_grows(p, a, b, next, d),
        _ => {},
    }
}

proof fn lemma_past_bindings_grows(
    a: LinearState,
    b: LinearState,
    params: Seq<VarId>,
    args: Seq<ExprId>,
    i: int,
    d: LinearStmtId,
)
    requires
        b.grew_from(a),
        a.past_bindings(params, args, i, d) is Some,
    ensures
        b.past_bindings(params, args, i, d) == a.past_bindings(params, args, i, d),
    decreases params.len() - i,
{
    if !(i < 0 || i >= params.len() || i >= args.len()) {
        lemma_past_bindings_grows(a, b, params, args, i + 1, a.lin.stmt(d)->Let_next);
    }
}

proof fn lemma_under_grows(
    p: CoreModel,
    properties: Map<usize, EffectProperties>,
    a: LinearState,
    b: LinearState,
    s: StmtId,
    h: HandlerId,
    context: Option<ResumeContext>,
    d: LinearStmtId,
)
    requires
        p.acyclic(),
        ends(p, Task { stmt: s, mode: Mode::Under(h, context) }),
        b.grew_from(a),
        a.under(p, properties, s, h, context, d),
    ensures
        b.under(p, properties, s, h, context, d),
    decreases depth(p, Task { stmt: s, mode: Mode::Under(h, context) }),
{
    let handler = p.handler(h);
    lemma_needs(p, Task { stmt: s, mode: Mode::Under(h, context) });
    let kind = a.lin.stmt(d);
    match p.stmt(s) {
        StmtModel::Return(expr) => {
            lemma_plain_at_grows(p, a, b, handler.return_body, kind->Let_next);
        },
        StmtModel::Perform { result, effect, operation, args, next } if effect == handler.effect => {
            match clause_for(handler, operation) {
                Some(clause) => {
                    lemma_past_bindings_grows(a, b, clause.params, args, 0, d);
                    let body = a.past_bindings(clause.params, args, 0, d)->0;
                    lemma_under_grows(
                        p,
                        properties,
                        a,
                        b,
                        clause.body,
                        h,
                        clause_context(p, clause, result, next),
                        body,
                    );
                },
                None => lemma_under_grows(p, properties, a, b, next, h, context, d),
            }
        },
        StmtModel::Resume { result, resume, arg, next } => {
            if !resumes(context, resume) {
                lemma_under_grows(p, properties, a, b, next, h, context, d);
            } else if hands_over(p, context->0, result, next) {
                lemma_under_grows(
                    p,
                    properties,
                    a,
                    b,
                    context->0.continuation,
                    h,
                    None,
                    a.past_result(context->0, arg, d)->0,
                );
            } else {
                lemma_under_grows(
                    p,
                    properties,
                    a,
                    b,
                    context->0.continuation,
                    h,
                    None,
                    a.past_result(context->0, arg, kind->Val_value)->0,
                );
                lemma_under_grows(p, properties, a, b, next, h, None, kind->Val_next);
            }
        },
        StmtModel::Let { binding, value, next } => {
            lemma_under_grows(p, properties, a, b, next, h, context, kind->Let_next);
        },
        StmtModel::Val { binding, value, next } => {
            lemma_under_grows(p, properties, a, b, value, h, context, kind->Val_value);
            lemma_under_grows(p, properties, a, b, next, h, context, kind->Val_next);
        },
        StmtModel::Call { result, callee, args, effects, next } => {
            lemma_under_grows(p, properties, a, b, next, h, context, kind->Call_next);
        },
        StmtModel::If { cond, then_branch, else_branch } => {
            lemma_under_grows(p, properties, a, b, then_branch, h, context, kind->then_branch);
            lemma_under_grows(p, properties, a, b, else_branch, h, context, kind->else_branch);
        },
        StmtModel::Match { scrutinee, arms, default } => {
            let a2 = kind->Match_arms;
            assert forall|i: int| #![trigger arms[i]] 0 <= i < arms.len() implies b.under(
                p,
                properties,
                arms[i].body,
                h,
                context,
                a2[i].body,
            ) by {
                crate::ir::core_ir::lemma_arm_is_part(p.stmt(s), i);
                lemma_under_grows(p, properties, a, b, arms[i].body, h, context, a2[i].body);
            }
            if let Some(n) = default {
                lemma_under_grows(p, properties, a, b, n, h, context, kind->Match_default->0);
            }
        },
        StmtModel::Perform { result, effect, operation, args, next } => {
            lemma_under_grows(p, properties, a, b, next, h, context, kind->Perform_next);
        },
        StmtModel::Handle { .. } => {
            lemma_plain_at_grows(p, a, b, s, d);
        },
        StmtModel::Stage { stage, body, next } => {
            lemma_under_grows(p, properties, a, b, body, h, context, kind->Stage_body);
            if let Some(n) = next {
                lemma_under_grows(p, properties, a, b, n, h, context, kind->Stage_next->0);
            }
        },
        StmtModel::Hole { .. } | StmtModel::Error(_) => {},
    }
}

/// What has become of a statement stays so.
proof fn lemma_at_grows(
    p: CoreModel,
    properties: Map<usize, EffectProperties>,
    a: LinearState,
    b: LinearState,
    task: Task,
    d: LinearStmtId,
)
    requires
        p.acyclic(),
        ends(p, task),
        b.grew_from(a),
        a.at(p, properties, task, d),
    ensures
        b.at(p, properties, task, d),
{
    match task.mode {
        Mode::Plain => lemma_plain_at_grows(p, a, b, task.stmt, d),
        Mode::Under(h, context) => lemma_under_grows(
            p,
            properties,
            a,
            b,
            task.stmt,
            h,
            context,
            d,
        ),
    }
}

proof fn lemma_plain_says_grows(
    p: CoreModel,
    properties: Map<usize, EffectProperties>,
    a: LinearState,
    b: LinearState,
    s: StmtId,
    kind: LinearStmtModel,
)
    requires
        p.acyclic(),
        b.grew_from(a),
        a.plain_says(p, properties, s, kind),
    ensures
        b.plain_says(p, properties, s, kind),
{
    assert forall|s: StmtId, d: LinearStmtId| #[trigger] a.plain_at(p, s, d) implies b.plain_at(
        p,
        s,
        d,
    ) by {
        lemma_plain_at_grows(p, a, b, s, d);
    }
}

proof fn lemma_plain_holds_grows(
    p: CoreModel,
    properties: Map<usize, EffectProperties>,
    a: LinearState,
    b: LinearState,
    s: StmtId,
    d: LinearStmtId,
)
    requires
        p.acyclic(),
        ends(p, Task { stmt: s, mode: Mode::Plain }),
        b.grew_from(a),
        a.plain_holds(p, properties, s, d),
    ensures
        b.plain_holds(p, properties, s, d),
{
    lemma_needs(p, Task { stmt: s, mode: Mode::Plain });
    match p.stmt(s) {
        StmtModel::Handle { handler, body, next: None } if p.has_handler(handler) => {
            lemma_under_grows(p, properties, a, b, body, handler, None, d);
        },
        _ => {
            lemma_plain_says_grows(p, properties, a, b, s, a.lin.stmt(d));
        },
    }
}

/// A state that has grown holds together where its new entries do.
proof fn lemma_holds_grows(
    p: CoreModel,
    properties: Map<usize, EffectProperties>,
    a: LinearState,
    b: LinearState,
)
    requires
        p.acyclic(),
        a.holds(p, properties),
        b.grew_from(a),
        b.lin.bottom_up(),
        forall|e: ExprId, d: LinearExprId| #[trigger]
            b.expr_at(e, d) && !a.expr_at(e, d) ==> b.expr_holds(p, e, d),
        forall|s: StmtId| #![trigger b.stmts[s.0 as int]]
            s.0 < b.stmts.len() && b.stmts[s.0 as int] is Some && a.stmts[s.0 as int] is None ==> {
                &&& ends(p, Task { stmt: s, mode: Mode::Plain })
                &&& b.plain_holds(p, properties, s, b.stmts[s.0 as int]->0)
                &&& b.lin.has_stmt(b.stmts[s.0 as int]->0)
            },
    ensures
        b.holds(p, properties),
{
    assert forall|e: ExprId, d: LinearExprId| #[trigger] b.expr_at(e, d) implies b.expr_holds(
        p,
        e,
        d,
    ) by {
        if a.expr_at(e, d) {
            assert(a.expr_holds(p, e, d));
        }
    }
    assert forall|s: StmtId| #![trigger b.stmts[s.0 as int]]
        s.0 < b.stmts.len() && b.stmts[s.0 as int] is Some implies {
        &&& ends(p, Task { stmt: s, mode: Mode::Plain })
        &&& b.plain_holds(p, properties, s, b.stmts[s.0 as int]->0)
        &&& b.lin.has_stmt(b.stmts[s.0 as int]->0)
    } by {
        if a.stmts[s.0 as int] is Some {
            lemma_plain_holds_grows(p, properties, a, b, s, a.stmts[s.0 as int]->0);
        }
    }
}

// ---------------------------------------------------------------------------
// The lowering
// ---------------------------------------------------------------------------

/// A lowering under way.
pub struct Linearizer<'a> {
    pub program: &'a CoreProgram,
    pub properties: &'a HashMap<usize, EffectProperties>,
    pub diagnostics: DiagnosticBag,
    pub linear: LinearProgram,
    pub expr_map: Vec<Option<LinearExprId>>,
    pub stmt_map: Vec<Option<LinearStmtId>>,
}

impl<'a> View for Linearizer<'a> {
    type V = LinearState;

    open spec fn view(&self) -> LinearState {
        LinearState {
            lin: self.linear@,
            exprs: self.expr_map@,
            stmts: self.stmt_map@,
            reports: self.diagnostics@,
        }
    }
}

/// How a call with some effects may transfer control.
pub fn classify_call_convention(
    effects: &SortedEffectRow,
    properties: &HashMap<usize, EffectProperties>,
) -> (convention: CallConvention)
    ensures
        convention == call_convention(effects@, properties@),
{
    if effects.is_empty() {
        return CallConvention::Pure;
    }
    if crate::sema::effect::is_thunkable(effects, properties) {
        CallConvention::Direct
    } else {
        CallConvention::Control
    }
}

/// The call statement of a convention.
pub fn linear_call_stmt(
    result: VarId,
    callee: SymbolId,
    args: Vec<LinearExprId>,
    next: LinearStmtId,
    convention: CallConvention,
) -> (stmt: LinearStmt)
    ensures
        stmt@ == (LinearStmtModel::Call { convention, result, callee, args: args@, next }),
{
    match convention {
        CallConvention::Pure => LinearStmt::PureCall { result, callee, args, next },
        CallConvention::Direct => LinearStmt::DirectCall { result, callee, args, next },
        CallConvention::Control => LinearStmt::ControlCall { result, callee, args, next },
    }
}

/// The parts of a linear statement exist.
pub open spec fn parts_exist(lin: LinearModel, kind: LinearStmtModel) -> bool {
    &&& forall|part: LinearStmtId| #[trigger] kind.has_part(part) ==> lin.has_stmt(part)
    &&& forall|part: LinearExprId| #[trigger] kind.has_expr(part) ==> lin.has_expr(part)
}

impl<'a> Linearizer<'a> {
    /// The lowering so far holds together.
    pub open spec fn ready(self) -> bool {
        &&& self.program@.acyclic()
        &&& self.program@.closed()
        &&& self@.holds(self.program@, self.properties@)
    }

    /// The lowering has gone on from an earlier state.
    pub open spec fn stepped(self, earlier: Self) -> bool {
        &&& self.program == earlier.program
        &&& self.properties == earlier.properties
        &&& self.ready()
        &&& self@.grew_from(earlier@)
    }

    /// Only statements up to some depth have been lowered on their own since.
    pub open spec fn stmts_below(self, earlier: Self, bound: nat) -> bool {
        forall|s: StmtId| #![trigger self@.stmts[s.0 as int]]
            s.0 < self@.stmts.len() && self@.stmts[s.0 as int] is Some
                && earlier@.stmts[s.0 as int] is None ==> depth(
                self.program@,
                Task { stmt: s, mode: Mode::Plain },
            ) <= bound
    }

    fn push(&mut self, kind: LinearStmt) -> (id: LinearStmtId)
        requires
            old(self).ready(),
            parts_exist(old(self)@.lin, kind@),
        ensures
            final(self).stepped(*old(self)),
            final(self)@.stmts == old(self)@.stmts,
            final(self)@.exprs == old(self)@.exprs,
            final(self)@.reports == old(self)@.reports,
            final(self)@.progress() == old(self)@.progress().made(),
            final(self)@.fresh(id),
            final(self)@.lin.stmt(id) == kind@,
            !old(self)@.lin.has_stmt(id),
    {
        let ghost before = self@;
        let id = self.linear.push_stmt(kind);
        proof {
            assert(self@.lin.bottom_up()) by {
                assert forall|s: LinearStmtId, part: LinearStmtId| #![trigger
                    self@.lin.stmt(s).has_part(part)]
                    self@.lin.has_stmt(s) && self@.lin.stmt(s).has_part(part) implies part.0
                    < s.0 by {
                    if before.lin.has_stmt(s) {
                        assert(before.lin.stmt(s).has_part(part));
                    }
                }
                assert forall|s: LinearStmtId, part: LinearExprId| #![trigger
                    self@.lin.stmt(s).has_expr(part)]
                    self@.lin.has_stmt(s) && self@.lin.stmt(s).has_expr(part) implies
                    self@.lin.has_expr(part) by {
                    if before.lin.has_stmt(s) {
                        assert(before.lin.stmt(s).has_expr(part));
                    }
                }
                assert forall|e: LinearExprId, part: LinearExprId| #![trigger
                    self@.lin.expr(e).has_part(part)]
                    self@.lin.has_expr(e) && self@.lin.expr(e).has_part(part) implies part.0
                    < e.0 by {
                    assert(before.lin.expr(e).has_part(part));
                }
            }
            lemma_holds_grows(self.program@, self.properties@, before, self@);
        }
        id
    }

    fn remember(&mut self, stmt_id: StmtId, id: LinearStmtId)
        requires
            old(self).ready(),
            old(self).program@.has_stmt(stmt_id),
            old(self)@.stmts[stmt_id.0 as int] is None,
            old(self)@.lin.has_stmt(id),
            old(self)@.plain_holds(
                old(self).program@,
                old(self).properties@,
                stmt_id,
                id,
            ),
            ends(old(self).program@, Task { stmt: stmt_id, mode: Mode::Plain }),
        ensures
            final(self).stepped(*old(self)),
            final(self)@.stmts == old(self)@.stmts.update(stmt_id.0 as int, Some(id)),
            final(self)@.lin == old(self)@.lin,
            final(self)@.exprs == old(self)@.exprs,
            final(self)@.plain_at(final(self).program@, stmt_id, id),
            final(self)@.progress() == old(self)@.progress().mark_done(stmt_id),
    {
        let ghost before = self@;
        self.stmt_map[stmt_id.0] = Some(id);
        proof {
            lemma_plain_holds_grows(
                self.program@,
                self.properties@,
                before,
                self@,
                stmt_id,
                id,
            );
            lemma_holds_grows(self.program@, self.properties@, before, self@);
            assert(self@.progress() =~= before.progress().mark_done(stmt_id));
        }
    }

    fn lower_expr_list(
        &mut self,
        exprs: &Vec<ExprId>,
        Ghost(owner): Ghost<ExprId>,
    ) -> (ids: Vec<LinearExprId>)
        requires
            old(self).ready(),
            old(self).program@.has_expr(owner),
            exprs@ == listed_parts(old(self).program@.expr(owner)),
        ensures
            final(self).stepped(*old(self)),
            final(self)@.stmts == old(self)@.stmts,
            final(self)@.lin.stmts == old(self)@.lin.stmts,
            final(self)@.progress() == old(self)@.progress().expr_parts(
                old(self).program@,
                owner,
                exprs@.len(),
            ),
            final(self)@.exprs_at(exprs@, ids@),
            final(self).exprs_below(*old(self), old(self).program@.expr_rank(owner)),
        decreases old(self).program@.expr_rank(owner), 0nat,
    {
        let ghost p = self.program@;
        let ghost bound = p.expr_rank(owner);
        proof {
            crate::passes::linearize::analysis::lemma_expr_ranks(p, owner);
            assert forall|i: int| #![trigger exprs@[i]] 0 <= i < exprs@.len() implies p.has_expr(
                exprs@[i],
            ) && p.expr_rank(exprs@[i]) < bound by {
                assert(exprs@.contains(exprs@[i]));
                assert(p.expr(owner).has_part(exprs@[i]));
            }
        }
        let mut ids: Vec<LinearExprId> = Vec::new();
        let mut i: usize = 0;
        while i < exprs.len()
            invariant
                self.stepped(*old(self)),
                self@.stmts == old(self)@.stmts,
                self@.lin.stmts == old(self)@.lin.stmts,
                p == old(self).program@,
                p.acyclic(),
                p.has_expr(owner),
                exprs@ == listed_parts(p.expr(owner)),
                bound == p.expr_rank(owner),
                self@.progress() == old(self)@.progress().expr_parts(p, owner, i as nat),
                forall|i: int| #![trigger exprs@[i]]
                    0 <= i < exprs@.len() ==> p.has_expr(exprs@[i]) && p.expr_rank(exprs@[i])
                        < bound,
                i <= exprs@.len(),
                self@.exprs_at(exprs@.take(i as int), ids@),
                self.exprs_below(*old(self), bound),
            decreases exprs@.len() - i,
        {
            let ghost before = self@;
            let id = self.lower_expr(exprs[i]);
            ids.push(id);
            i += 1;
        }
        assert(exprs@.take(i as int) =~= exprs@);
        ids
    }

    /// Only expressions below some rank have been lowered since.
    pub open spec fn exprs_below(self, earlier: Self, bound: nat) -> bool {
        forall|e: ExprId| #![trigger self@.exprs[e.0 as int]]
            e.0 < self@.exprs.len() && self@.exprs[e.0 as int] is Some
                && earlier@.exprs[e.0 as int] is None ==> self.program@.expr_rank(e) < bound
    }

    fn lower_expr(&mut self, expr_id: ExprId) -> (id: LinearExprId)
        requires
            old(self).ready(),
            old(self).program@.has_expr(expr_id),
        ensures
            final(self).stepped(*old(self)),
            final(self)@.stmts == old(self)@.stmts,
            final(self)@.lin.stmts == old(self)@.lin.stmts,
            final(self)@.progress() == old(self)@.progress().expr(old(self).program@, expr_id),
            old(self)@.exprs[expr_id.0 as int] is Some ==> *final(self) == *old(self),
            final(self)@.expr_at(expr_id, id),
            final(self)@.lin.has_expr(id),
            final(self).exprs_below(*old(self), old(self).program@.expr_rank(expr_id) + 1),
        decreases old(self).program@.expr_rank(expr_id), 1nat,
    {
        if let Some(id) = self.expr_map[expr_id.0] {
            assert(self@.expr_at(expr_id, id));
            return id;
        }
        let program = self.program;
        let ghost p = program@;
        proof {
            crate::passes::linearize::analysis::lemma_expr_ranks(p, expr_id);
            assert(forall|part: ExprId| p.expr(expr_id).has_part(part) ==> p.has_expr(part));
        }
        let node = &program.exprs[expr_id.0];
        let kind = match &node.kind {
            ExprKind::Var(var) => LinearExpr::Var(*var),
            ExprKind::Literal(literal) => LinearExpr::Literal(literal.clone()),
            ExprKind::Unary { op, expr } => LinearExpr::Unary {
                op: *op,
                expr: self.lower_expr(*expr),
            },
            ExprKind::Binary { op, lhs, rhs } => {
                let lhs = self.lower_expr(*lhs);
                let rhs = self.lower_expr(*rhs);
                LinearExpr::Binary { op: *op, lhs, rhs }
            },
            ExprKind::PureCall { callee, args } => {
                let callee = self.check_callee(*callee, node.span);
                let args = self.lower_expr_list(args, Ghost(expr_id));
                LinearExpr::PureCall { callee, args }
            },
            ExprKind::MakeStruct { ty, fields } => {
                let fields = self.lower_expr_list(fields, Ghost(expr_id));
                LinearExpr::MakeStruct { ty: *ty, fields }
            },
            ExprKind::MakeEnum { ty, variant, fields } => {
                let fields = self.lower_expr_list(fields, Ghost(expr_id));
                LinearExpr::MakeEnum { ty: *ty, variant: *variant, fields }
            },
            ExprKind::Error(_) => LinearExpr::Error,
        };
        let ghost before = self@;
        assert(before.expr_says(p, expr_id, kind@));
        assert(forall|part: LinearExprId| kind@.has_part(part) ==> before.lin.has_expr(part));
        assert(self.exprs_below(*old(self), p.expr_rank(expr_id)));
        let id = self.linear.push_expr(kind);
        self.expr_map[expr_id.0] = Some(id);
        proof {
            assert(self@.lin.bottom_up()) by {
                assert forall|s: LinearStmtId, part: LinearStmtId| #![trigger
                    self@.lin.stmt(s).has_part(part)]
                    self@.lin.has_stmt(s) && self@.lin.stmt(s).has_part(part) implies part.0
                    < s.0 by {
                    assert(before.lin.stmt(s).has_part(part));
                }
                assert forall|s: LinearStmtId, part: LinearExprId| #![trigger
                    self@.lin.stmt(s).has_expr(part)]
                    self@.lin.has_stmt(s) && self@.lin.stmt(s).has_expr(part) implies
                    self@.lin.has_expr(part) by {
                    assert(before.lin.stmt(s).has_expr(part));
                }
                assert forall|e: LinearExprId, part: LinearExprId| #![trigger
                    self@.lin.expr(e).has_part(part)]
                    self@.lin.has_expr(e) && self@.lin.expr(e).has_part(part) implies part.0
                    < e.0 by {
                    if before.lin.has_expr(e) {
                        assert(before.lin.expr(e).has_part(part));
                    }
                }
            }
            assert(self@.grew_from(before));
            assert(self@.expr_holds(p, expr_id, id));
            lemma_holds_grows(p, self.properties@, before, self@);
            assert(self@.progress() =~= before.progress().made_expr(expr_id));
        }
        id
    }

    fn lower_args(&mut self, exprs: &Vec<ExprId>) -> (ids: Vec<LinearExprId>)
        requires
            old(self).ready(),
            forall|i: int| #![trigger exprs@[i]]
                0 <= i < exprs@.len() ==> old(self).program@.has_expr(exprs@[i]),
        ensures
            final(self).stepped(*old(self)),
            final(self)@.stmts == old(self)@.stmts,
            final(self)@.lin.stmts == old(self)@.lin.stmts,
            final(self)@.progress() == old(self)@.progress().args(
                old(self).program@,
                exprs@,
                exprs@.len(),
            ),
            final(self)@.exprs_at(exprs@, ids@),
            forall|i: int| #![trigger ids@[i]]
                0 <= i < ids@.len() ==> final(self)@.lin.has_expr(ids@[i]),
    {
        let mut ids: Vec<LinearExprId> = Vec::new();
        let mut i: usize = 0;
        while i < exprs.len()
            invariant
                self.stepped(*old(self)),
                self@.stmts == old(self)@.stmts,
                self@.lin.stmts == old(self)@.lin.stmts,
                self@.progress() == old(self)@.progress().args(
                    old(self).program@,
                    exprs@,
                    i as nat,
                ),
                forall|i: int| #![trigger exprs@[i]]
                    0 <= i < exprs@.len() ==> old(self).program@.has_expr(exprs@[i]),
                i <= exprs@.len(),
                self@.exprs_at(exprs@.take(i as int), ids@),
                forall|i: int| #![trigger ids@[i]]
                    0 <= i < ids@.len() ==> self@.lin.has_expr(ids@[i]),
            decreases exprs@.len() - i,
        {
            let id = self.lower_expr(exprs[i]);
            ids.push(id);
            i += 1;
        }
        assert(exprs@.take(i as int) =~= exprs@);
        ids
    }

    /// What the lowering of a statement makes sure of.
    pub open spec fn lowers(self, earlier: Self, task: Task, id: LinearStmtId) -> bool {
        &&& self.stepped(earlier)
        &&& self@.at(self.program@, self.properties@, task, id)
        &&& self@.lin.has_stmt(id)
        &&& self@.progress() == earlier@.progress().after(self.program@, task)
        &&& self.stmts_below(earlier, depth(self.program@, task))
    }

    /// What the lowering of a statement on its own does: one that has been lowered
    /// before stays as it is.
    pub open spec fn lowers_stmt(self, earlier: Self, s: StmtId, id: LinearStmtId) -> bool {
        &&& self.lowers(earlier, Task { stmt: s, mode: Mode::Plain }, id)
        &&& earlier@.stmts[s.0 as int] matches Some(lowered) ==> id == lowered && self == earlier
    }

    /// What a statement to be lowered must be.
    pub open spec fn can_lower(self, task: Task) -> bool {
        &&& self.ready()
        &&& fits(self.program@, task)
        &&& ends(self.program@, task)
    }

    fn lower_task(&mut self, stmt_id: StmtId, mode: Mode) -> (id: LinearStmtId)
        requires
            old(self).can_lower(Task { stmt: stmt_id, mode }),
        ensures
            final(self).lowers(*old(self), Task { stmt: stmt_id, mode }, id),
        decreases depth(old(self).program@, Task { stmt: stmt_id, mode }), 3nat,
    {
        match mode {
            Mode::Plain => self.lower_stmt(stmt_id),
            Mode::Under(handler, context) => self.lower_stmt_under_handler(
                stmt_id,
                handler,
                context,
            ),
        }
    }

    fn lower_arms(
        &mut self,
        arms: &Vec<MatchArm>,
        mode: Mode,
        Ghost(owner): Ghost<StmtId>,
    ) -> (lowered_arms: Vec<LinearMatchArm>)
        requires
            old(self).can_lower(Task { stmt: owner, mode }),
            old(self).program@.stmt(owner) is Match,
            old(self).program@.stmt(owner)->arms == crate::common::views(arms@),
        ensures
            final(self).stepped(*old(self)),
            final(self)@.arms_match(
                final(self).program@.stmt(owner)->arms,
                crate::common::views(lowered_arms@),
            ),
            forall|i: int| #![trigger lowered_arms@[i]]
                0 <= i < arms@.len() ==> final(self)@.at(
                    final(self).program@,
                    final(self).properties@,
                    Task { stmt: final(self).program@.stmt(owner)->arms[i].body, mode },
                    lowered_arms@[i].body,
                ) && final(self)@.lin.has_stmt(lowered_arms@[i].body),
            final(self)@.progress() == old(self)@.progress().after_arms(
                old(self).program@,
                Task { stmt: owner, mode },
                arms@.len(),
            ),
            final(self).below(*old(self), Task { stmt: owner, mode }),
        decreases depth(old(self).program@, Task { stmt: owner, mode }), 0nat,
    {
        let ghost p = self.program@;
        let ghost properties = self.properties@;
        let ghost owner_task = Task { stmt: owner, mode };
        let ghost arm_models = p.stmt(owner)->arms;
        let mut lowered_arms: Vec<LinearMatchArm> = Vec::new();
        let mut i: usize = 0;
        while i < arms.len()
            invariant
                self.stepped(*old(self)),
                p == self.program@,
                properties == self.properties@,
                owner_task == (Task { stmt: owner, mode }),
                old(self).can_lower(owner_task),
                p.stmt(owner) is Match,
                arm_models == p.stmt(owner)->arms,
                arm_models == crate::common::views(arms@),
                i <= arms@.len(),
                lowered_arms@.len() == i,
                forall|j: int| #![trigger lowered_arms@[j]]
                    0 <= j < i ==> {
                        &&& lowered_arms@[j].tag == arm_models[j].tag
                        &&& lowered_arms@[j].binders@ == arm_models[j].binders
                        &&& self@.at(
                            p,
                            properties,
                            Task { stmt: arm_models[j].body, mode },
                            lowered_arms@[j].body,
                        )
                        &&& self@.lin.has_stmt(lowered_arms@[j].body)
                    },
                self@.progress() == old(self)@.progress().after_arms(p, owner_task, i as nat),
                self.below(*old(self), owner_task),
            decreases arms@.len() - i,
        {
            let ghost before = self@;
            let ghost task = Task { stmt: arm_models[i as int].body, mode };
            proof {
                crate::ir::core_ir::lemma_arm_is_part(p.stmt(owner), i as int);
                assert(needs(p, owner_task, task));
                lemma_needs(p, owner_task);
            }
            let body = self.lower_task(arms[i].body, mode);
            let binders = arms[i].binders.clone();
            assert(binders@ =~= arms@[i as int].binders@);
            lowered_arms.push(LinearMatchArm { tag: arms[i].tag, binders, body });
            proof {
                assert forall|j: int| #![trigger lowered_arms@[j]] 0 <= j < i implies self@.at(
                    p,
                    properties,
                    Task { stmt: arm_models[j].body, mode },
                    lowered_arms@[j].body,
                ) by {
                    crate::ir::core_ir::lemma_arm_is_part(p.stmt(owner), j);
                    let other = Task { stmt: arm_models[j].body, mode };
                    assert(needs(p, owner_task, other));
                    assert(ends(p, other));
                    lemma_at_grows(p, properties, before, self@, other, lowered_arms@[j].body);
                }
            }
            i += 1;
        }
        lowered_arms
    }

    /// Only statements that a statement leads to have been lowered since.
    pub open spec fn below(self, earlier: Self, task: Task) -> bool {
        forall|s: StmtId| #![trigger self@.stmts[s.0 as int]]
            s.0 < self@.stmts.len() && self@.stmts[s.0 as int] is Some
                && earlier@.stmts[s.0 as int] is None ==> depth(
                self.program@,
                Task { stmt: s, mode: Mode::Plain },
            ) < depth(self.program@, task)
    }

    /// Lowers a statement on its own; one that has been lowered before stays as it
    /// is.
    pub fn lower_stmt(&mut self, stmt_id: StmtId) -> (id: LinearStmtId)
        requires
            old(self).can_lower(Task { stmt: stmt_id, mode: Mode::Plain }),
        ensures
            final(self).lowers_stmt(*old(self), stmt_id, id),
        decreases depth(old(self).program@, Task { stmt: stmt_id, mode: Mode::Plain }), 2nat,
    {
        let ghost p = self.program@;
        let ghost task = Task { stmt: stmt_id, mode: Mode::Plain };
        proof {
            lemma_needs(p, task);
            assert(forall|part: StmtId| p.stmt(stmt_id).has_part(part) ==> p.has_stmt(part));
        }
        if let Some(id) = self.stmt_map[stmt_id.0] {
            return id;
        }
        let program = self.program;
        let node = &program.stmts[stmt_id.0];
        match &node.kind {
            StmtKind::Resume { next, .. } => {
                self.diagnostics.error(
                    "LINEARIZE_RESUME_OUTSIDE_HANDLER",
                    "Encountered `resume` outside a handler-lowering context",
                    node.span,
                );
                let ghost before = self@;
                proof {
                    lemma_holds_grows(p, self.properties@, old(self)@, self@);
                    assert(needs(p, task, Task { stmt: *next, mode: Mode::Plain }));
                }
                return self.lower_stmt(*next);
            },
            StmtKind::Handle { handler, body, next: None } => {
                if handler.0 < program.handlers.len() {
                    proof {
                        assert(needs(
                            p,
                            task,
                            Task { stmt: *body, mode: Mode::Under(*handler, None) },
                        ));
                    }
                    let lowered_body = self.lower_stmt_under_handler(*body, *handler, None);
                    self.remember(stmt_id, lowered_body);
                    return lowered_body;
                }
            },
            _ => {},
        }
        let kind = self.lower_stmt_kind(stmt_id);
        let ghost before = self@;
        let id = self.push(kind);
        proof {
            lemma_plain_says_grows(p, self.properties@, before, self@, stmt_id, kind@);
        }
        self.remember(stmt_id, id);
        id
    }

    fn check_callee(&mut self, callee: FuncId, span: Span) -> (name: SymbolId)
        requires
            old(self).ready(),
        ensures
            final(self).stepped(*old(self)),
            final(self)@.stmts == old(self)@.stmts,
            final(self)@.exprs == old(self)@.exprs,
            final(self)@.lin == old(self)@.lin,
            final(self)@.progress() == old(self)@.progress().check_callee(
                old(self).program@,
                callee,
                span,
            ),
            name == callee_name(old(self).program@, callee),
    {
        match self.program.function(callee) {
            Some(function) => function.name,
            None => {
                self.report(
                    "LINEARIZE_UNKNOWN_CALLEE",
                    "Could not resolve function id while lowering call to linear IR",
                    span,
                );
                SymbolId::invalid()
            },
        }
    }

    fn report(&mut self, code: &'static str, message: &str, span: Span)
        requires
            old(self).ready(),
        ensures
            final(self).stepped(*old(self)),
            final(self)@.stmts == old(self)@.stmts,
            final(self)@.exprs == old(self)@.exprs,
            final(self)@.lin == old(self)@.lin,
            final(self)@.progress() == old(self)@.progress().error(code@, message@, span),
    {
        let ghost before = self@;
        self.diagnostics.error(code, message, span);
        proof {
            lemma_holds_grows(self.program@, self.properties@, before, self@);
        }
    }

    #[verifier::rlimit(60)]
    #[verifier::spinoff_prover]
    fn lower_stmt_kind(&mut self, stmt_id: StmtId) -> (kind: LinearStmt)
        requires
            old(self).can_lower(Task { stmt: stmt_id, mode: Mode::Plain }),
            old(self)@.stmts[stmt_id.0 as int] is None,
            !(old(self).program@.stmt(stmt_id) is Resume),
            old(self).program@.stmt(stmt_id) matches StmtModel::Handle { handler, next: None, .. }
                ==> !old(self).program@.has_handler(handler),
        ensures
            final(self).stepped(*old(self)),
            final(self)@.plain_says(final(self).program@, final(self).properties@, stmt_id, kind@),
            parts_exist(final(self)@.lin, kind@),
            final(self)@.progress().made().mark_done(stmt_id) == old(self)@.progress().after(
                old(self).program@,
                Task { stmt: stmt_id, mode: Mode::Plain },
            ),
            final(self).below(*old(self), Task { stmt: stmt_id, mode: Mode::Plain }),
        decreases depth(old(self).program@, Task { stmt: stmt_id, mode: Mode::Plain }), 1nat,
    {
        let ghost p = self.program@;
        let ghost properties = self.properties@;
        let ghost task = Task { stmt: stmt_id, mode: Mode::Plain };
        proof {
            lemma_needs(p, task);
            assert(forall|part: StmtId| p.stmt(stmt_id).has_part(part) ==> p.has_stmt(part));
            assert(forall|part: ExprId| p.stmt(stmt_id).has_expr(part) ==> p.has_expr(part));
        }
        let program = self.program;
        let node = &program.stmts[stmt_id.0];
        match &node.kind {
            StmtKind::Return(expr) => LinearStmt::Return(self.lower_expr(*expr)),
            StmtKind::Let { binding, value, next } => {
                let value = self.lower_expr(*value);
                let next = self.lower_stmt(*next);
                LinearStmt::Let { binding: *binding, value, next }
            },
            StmtKind::Val { binding, value, next } => {
                let lowered_value = self.lower_stmt(*value);
                let ghost middle = self@;
                let next = self.lower_stmt(*next);
                proof {
                    lemma_plain_at_grows(p, middle, self@, *value, lowered_value);
                }
                LinearStmt::Val { binding: *binding, value: lowered_value, next }
            },
            StmtKind::Call { result, callee, args, effects, next } => {
                let name = self.check_callee(*callee, node.span);
                let lowered_args = self.lower_args(args);
                let lowered_next = self.lower_stmt(*next);
                linear_call_stmt(
                    *result,
                    name,
                    lowered_args,
                    lowered_next,
                    classify_call_convention(effects, self.properties),
                )
            },
            StmtKind::If { cond, then_branch, else_branch } => {
                let cond = self.lower_expr(*cond);
                let then_lowered = self.lower_stmt(*then_branch);
                let ghost middle = self@;
                let else_lowered = self.lower_stmt(*else_branch);
                proof {
                    lemma_plain_at_grows(p, middle, self@, *then_branch, then_lowered);
                }
                LinearStmt::If { cond, then_branch: then_lowered, else_branch: else_lowered }
            },
            StmtKind::Match { scrutinee, arms, default } => {
                let scrutinee = self.lower_expr(*scrutinee);
                let lowered_arms = self.lower_arms(arms, Mode::Plain, Ghost(stmt_id));
                let ghost middle = self@;
                let lowered_default = match default {
                    Some(default_stmt) => Some(self.lower_stmt(*default_stmt)),
                    None => None,
                };
                let kind = LinearStmt::Match {
                    scrutinee,
                    arms: lowered_arms,
                    default: lowered_default,
                };
                proof {
                    let arm_models = p.stmt(stmt_id)->arms;
                    let ds = crate::common::views(lowered_arms@);
                    assert(kind@->Match_arms == ds);
                    assert forall|i: int| #![trigger ds[i]] 0 <= i < ds.len() implies self@.plain_at(
                        p,
                        arm_models[i].body,
                        ds[i].body,
                    ) && self@.lin.has_stmt(ds[i].body) by {
                        assert(lowered_arms@[i].body == ds[i].body);
                        lemma_plain_at_grows(p, middle, self@, arm_models[i].body, ds[i].body);
                    }
                }
                kind
            },
            StmtKind::Perform { result, effect, operation, args, next } => {
                let args = self.lower_args(args);
                let next = self.lower_stmt(*next);
                LinearStmt::Perform {
                    result: *result,
                    effect: *effect,
                    operation: *operation,
                    args,
                    next,
                }
            },
            StmtKind::Handle { handler, body, next } => {
                let effect = if handler.0 < program.handlers.len() {
                    program.handlers[handler.0].effect
                } else {
                    self.report(
                        "LINEARIZE_UNKNOWN_HANDLER",
                        "Could not resolve handler id while lowering to linear IR",
                        node.span,
                    );
                    EffectLabelId::invalid()
                };
                let lowered_body = self.lower_stmt(*body);
                let ghost middle = self@;
                let lowered_next = match next {
                    Some(next_stmt) => Some(self.lower_stmt(*next_stmt)),
                    None => None,
                };
                proof {
                    lemma_plain_at_grows(p, middle, self@, *body, lowered_body);
                }
                LinearStmt::Handle { effect, body: lowered_body, next: lowered_next }
            },
            StmtKind::Stage { stage, body, next } => {
                let lowered_body = self.lower_stmt(*body);
                let ghost middle = self@;
                let lowered_next = match next {
                    Some(next_stmt) => Some(self.lower_stmt(*next_stmt)),
                    None => None,
                };
                proof {
                    lemma_plain_at_grows(p, middle, self@, *body, lowered_body);
                }
                LinearStmt::Stage { stage: *stage, body: lowered_body, next: lowered_next }
            },
            StmtKind::Hole { .. } => LinearStmt::Hole,
            StmtKind::Error(_) => LinearStmt::Error,
            // Passed over by the caller, which lowers what follows in its place.
            StmtKind::Resume { .. } => LinearStmt::Error,
        }
    }

    /// The clause of a handler for an operation.
    pub fn find_clause(program: &'a CoreProgram, handler: HandlerId, operation: SymbolId) -> (clause:
        Option<&'a HandlerClause>)
        requires
            program@.has_handler(handler),
        ensures
            match clause {
                Some(c) => clause_for(program@.handler(handler), operation) == Some(c@),
                None => clause_for(program@.handler(handler), operation) is None,
            },
            clause matches Some(c) ==> exists|i: int| #![trigger program@.handler(handler).clauses[i]]
                0 <= i < program@.handler(handler).clauses.len() && program@.handler(
                    handler,
                ).clauses[i] == c@,
    {
        let def = &program.handlers[handler.0];
        let ghost model = program@.handler(handler);
        let mut i: usize = 0;
        while i < def.clauses.len()
            invariant
                i <= def.clauses@.len(),
                model == def@,
                model == program@.handler(handler),
                forall|j: int| 0 <= j < i ==> (#[trigger] model.clauses[j]).operation != operation,
            decreases def.clauses@.len() - i,
        {
            let clause = &def.clauses[i];
            assert(model.clauses[i as int] == clause@);
            if clause.operation == operation {
                proof {
                    assert(is_clause(model, operation, i as int));
                    let k = choose|k: int| is_clause(model, operation, k);
                    assert(is_clause(model, operation, k));
                    assert(k == i);
                }
                return Some(clause);
            }
            i += 1;
        }
        None
    }

    fn note_clause(&mut self, clause: &HandlerClause) -> (known: ClauseResumeAnalysis)
        requires
            old(self).ready(),
        ensures
            final(self).stepped(*old(self)),
            final(self)@.stmts == old(self)@.stmts,
            final(self)@.exprs == old(self)@.exprs,
            final(self)@.lin == old(self)@.lin,
            final(self)@.progress() == old(self)@.progress().check_clause(
                old(self).program@,
                clause@,
            ),
            known == crate::passes::linearize::analysis::clause_resume(
                old(self).program@,
                clause@,
            ),
    {
        let ghost before = self@;
        let known = crate::passes::linearize::analysis::analyze_clause_resume(self.program, clause);
        if clause.resume_param.is_some() {
            let mut message: String = String::new();
            crate::common::text::push_text(&mut message, "handler clause resume qualifier: ");
            crate::common::text::push_text(&mut message, known.qualifier.as_str());
            crate::common::text::push_text(&mut message, " (min=");
            crate::common::text::push_text(&mut message, known.min_uses.as_str());
            crate::common::text::push_text(&mut message, ", max=");
            crate::common::text::push_text(&mut message, known.max_uses.as_str());
            crate::common::text::push_text(&mut message, ", tail=");
            crate::common::text::push_text(
                &mut message,
                crate::common::text::truth_text(known.tail_resumptive),
            );
            crate::common::text::push_text(&mut message, ")");
            assert(message@ =~= qualifier_note(known));
            self.diagnostics.note("LINEARIZE_RESUME_QUALIFIER", message.as_str(), clause.span);
        }
        if matches!(known.qualifier, ResumeQualifier::Multi) {
            self.diagnostics.error(
                "LINEARIZE_MULTI_SHOT_RESUME",
                "Handler clause resumes the continuation more than once; v1 supports single-shot resumptions only",
                clause.span,
            );
        }
        proof {
            lemma_holds_grows(self.program@, self.properties@, before, self@);
        }
        known
    }

    /// The body of a clause, with its parameters bound to the arguments.
    fn lower_matching_clause(
        &mut self,
        clause: &HandlerClause,
        args: &Vec<ExprId>,
        handler: HandlerId,
        context: Option<ResumeContext>,
    ) -> (id: LinearStmtId)
        requires
            old(self).can_lower(Task { stmt: clause.body, mode: Mode::Under(handler, context) }),
            forall|i: int| #![trigger args@[i]]
                0 <= i < args@.len() ==> old(self).program@.has_expr(args@[i]),
        ensures
            final(self).stepped(*old(self)),
            final(self)@.past_bindings(clause.params@, args@, 0, id) matches Some(body)
                && final(self)@.under(
                final(self).program@,
                final(self).properties@,
                clause.body,
                handler,
                context,
                body,
            ),
            final(self)@.lin.has_stmt(id),
            final(self)@.progress() == old(self)@.progress().after(
                old(self).program@,
                Task { stmt: clause.body, mode: Mode::Under(handler, context) },
            ).bindings(old(self).program@, args@, bound_params(clause@, args@)),
            final(self).stmts_below(
                *old(self),
                depth(
                    old(self).program@,
                    Task { stmt: clause.body, mode: Mode::Under(handler, context) },
                ),
            ),
        decreases
                depth(
                    old(self).program@,
                    Task { stmt: clause.body, mode: Mode::Under(handler, context) },
                ),
                3nat,
    {
        let ghost p = self.program@;
        let ghost properties = self.properties@;
        let ghost task = Task { stmt: clause.body, mode: Mode::Under(handler, context) };
        let body = self.lower_stmt_under_handler(clause.body, handler, context);
        let ghost lowered_body = self@;
        let mut current = body;
        let mut left: usize = if clause.params.len() < args.len() {
            clause.params.len()
        } else {
            args.len()
        };
        while left > 0
            invariant
                self.stepped(*old(self)),
                self@.grew_from(lowered_body),
                self@.stmts == lowered_body.stmts,
                self@.progress().bindings(p, args@, left as nat) == lowered_body.progress().bindings(
                    p,
                    args@,
                    bound_params(clause@, args@),
                ),
                p == self.program@,
                properties == self.properties@,
                left <= clause.params@.len(),
                left <= args@.len(),
                forall|i: int| #![trigger args@[i]]
                    0 <= i < args@.len() ==> p.has_expr(args@[i]),
                self@.past_bindings(clause.params@, args@, left as int, current) == Some(body),
                self@.lin.has_stmt(current),
            decreases left,
        {
            left -= 1;
            let ghost before = self@;
            let value = self.lower_expr(args[left]);
            let ghost middle = self@;
            proof {
                lemma_past_bindings_grows(
                    before,
                    middle,
                    clause.params@,
                    args@,
                    left as int + 1,
                    current,
                );
            }
            let ghost inner = current;
            current = self.push(
                LinearStmt::Let { binding: clause.params[left], value, next: current },
            );
            proof {
                lemma_past_bindings_grows(
                    middle,
                    self@,
                    clause.params@,
                    args@,
                    left as int + 1,
                    inner,
                );
            }
        }
        proof {
            lemma_under_grows(
                p,
                properties,
                lowered_body,
                self@,
                clause.body,
                handler,
                context,
                body,
            );
        }
        current
    }

    /// Lowers a statement that a handler handles.
    pub fn lower_stmt_under_handler(
        &mut self,
        stmt_id: StmtId,
        handler: HandlerId,
        context: Option<ResumeContext>,
    ) -> (id: LinearStmtId)
        requires
            old(self).can_lower(Task { stmt: stmt_id, mode: Mode::Under(handler, context) }),
        ensures
            final(self).lowers(
                *old(self),
                Task { stmt: stmt_id, mode: Mode::Under(handler, context) },
                id,
            ),
        decreases
                depth(
                    old(self).program@,
                    Task { stmt: stmt_id, mode: Mode::Under(handler, context) },
                ),
                2nat,
    {
        let ghost p = self.program@;
        let ghost properties = self.properties@;
        let ghost task = Task { stmt: stmt_id, mode: Mode::Under(handler, context) };
        let ghost h = p.handler(handler);
        proof {
            lemma_needs(p, task);
            assert(forall|part: StmtId| p.stmt(stmt_id).has_part(part) ==> p.has_stmt(part));
            assert(forall|part: ExprId| p.stmt(stmt_id).has_expr(part) ==> p.has_expr(part));
        }
        let program = self.program;
        let node = &program.stmts[stmt_id.0];
        let def = &program.handlers[handler.0];
        assert(def@ == h);
        match &node.kind {
            StmtKind::Return(expr) => {
                let value = self.lower_expr(*expr);
                assert(p.has_stmt(p.handler(handler).return_body));
                assert(needs(p, task, Task { stmt: h.return_body, mode: Mode::Plain }));
                let lowered_return = self.lower_stmt(def.return_body);
                let ghost middle = self@;
                let id = self.push(
                    LinearStmt::Let { binding: def.return_param, value, next: lowered_return },
                );
                proof {
                    lemma_plain_at_grows(p, middle, self@, h.return_body, lowered_return);
                }
                id
            },
            StmtKind::Perform { result, effect, operation, args, next } => {
                if *effect == def.effect {
                    self.lower_handled_perform(stmt_id, handler, context)
                } else {
                    self.lower_structural(stmt_id, handler, context)
                }
            },
            StmtKind::Resume { .. } => self.lower_resume(stmt_id, handler, context),
            StmtKind::Handle { .. } => {
                assert(needs(p, task, Task { stmt: stmt_id, mode: Mode::Plain }));
                self.lower_stmt(stmt_id)
            },
            _ => self.lower_structural(stmt_id, handler, context),
        }
    }

    /// A handled operation becomes its clause.
    fn lower_handled_perform(
        &mut self,
        stmt_id: StmtId,
        handler: HandlerId,
        context: Option<ResumeContext>,
    ) -> (id: LinearStmtId)
        requires
            old(self).can_lower(Task { stmt: stmt_id, mode: Mode::Under(handler, context) }),
            old(self).program@.stmt(stmt_id) is Perform,
            old(self).program@.stmt(stmt_id)->Perform_effect == old(self).program@.handler(
                handler,
            ).effect,
        ensures
            final(self).lowers(
                *old(self),
                Task { stmt: stmt_id, mode: Mode::Under(handler, context) },
                id,
            ),
        decreases
                depth(
                    old(self).program@,
                    Task { stmt: stmt_id, mode: Mode::Under(handler, context) },
                ),
                1nat,
    {
        let ghost p = self.program@;
        let ghost task = Task { stmt: stmt_id, mode: Mode::Under(handler, context) };
        let ghost h = p.handler(handler);
        proof {
            lemma_needs(p, task);
            assert(forall|part: StmtId| p.stmt(stmt_id).has_part(part) ==> p.has_stmt(part));
            assert(forall|part: ExprId| p.stmt(stmt_id).has_expr(part) ==> p.has_expr(part));
        }
        let program = self.program;
        let node = &program.stmts[stmt_id.0];
        match &node.kind {
            StmtKind::Perform { result, operation, args, next, .. } => {
                match Self::find_clause(program, handler, *operation) {
                    Some(clause) => {
                        let known = self.note_clause(clause);
                        let convention =
                            crate::passes::linearize::analysis::classify_clause_convention(
                            clause,
                            known,
                        );
                        let clause_ctx = match clause.resume_param {
                            Some(resume_var) => Some(
                                ResumeContext {
                                    resume_var,
                                    perform_result: *result,
                                    continuation: *next,
                                    clause_convention: convention,
                                },
                            ),
                            None => None,
                        };
                        proof {
                            assert(clause_ctx == clause_context(p, clause@, *result, *next));
                            assert(needs(
                                p,
                                task,
                                Task {
                                    stmt: clause.body,
                                    mode: Mode::Under(handler, clause_ctx),
                                },
                            ));
                        }
                        self.lower_matching_clause(clause, args, handler, clause_ctx)
                    },
                    None => {
                        self.report(
                            "LINEARIZE_MISSING_HANDLER_CLAUSE",
                            "Missing handler clause for performed operation",
                            node.span,
                        );
                        assert(needs(
                            p,
                            task,
                            Task { stmt: *next, mode: Mode::Under(handler, context) },
                        ));
                        self.lower_stmt_under_handler(*next, handler, context)
                    },
                }
            },
            _ => {
                assert(false);
                LinearStmtId::invalid()
            },
        }
    }

    /// A resume runs what follows the perform that it answers.
    fn lower_resume(
        &mut self,
        stmt_id: StmtId,
        handler: HandlerId,
        context: Option<ResumeContext>,
    ) -> (id: LinearStmtId)
        requires
            old(self).can_lower(Task { stmt: stmt_id, mode: Mode::Under(handler, context) }),
            old(self).program@.stmt(stmt_id) is Resume,
        ensures
            final(self).lowers(
                *old(self),
                Task { stmt: stmt_id, mode: Mode::Under(handler, context) },
                id,
            ),
        decreases
                depth(
                    old(self).program@,
                    Task { stmt: stmt_id, mode: Mode::Under(handler, context) },
                ),
                1nat,
    {
        let ghost p = self.program@;
        let ghost properties = self.properties@;
        let ghost task = Task { stmt: stmt_id, mode: Mode::Under(handler, context) };
        proof {
            lemma_needs(p, task);
            assert(forall|part: StmtId| p.stmt(stmt_id).has_part(part) ==> p.has_stmt(part));
            assert(forall|part: ExprId| p.stmt(stmt_id).has_expr(part) ==> p.has_expr(part));
        }
        let program = self.program;
        let node = &program.stmts[stmt_id.0];
        match &node.kind {
            StmtKind::Resume { result, resume, arg, next } => {
                let active = match context {
                    Some(found) => if found.resume_var == *resume {
                        Some(found)
                    } else {
                        None
                    },
                    None => None,
                };
                match active {
                    None => {
                        self.report(
                            "LINEARIZE_RESUME_OUTSIDE_CLAUSE",
                            "`resume` used outside the active handler clause context",
                            node.span,
                        );
                        assert(needs(
                            p,
                            task,
                            Task { stmt: *next, mode: Mode::Under(handler, context) },
                        ));
                        self.lower_stmt_under_handler(*next, handler, context)
                    },
                    Some(active_ctx) => {
                        let ghost inner = Task {
                            stmt: active_ctx.continuation,
                            mode: Mode::Under(handler, None),
                        };
                        assert(needs(p, task, inner));
                        let resumed = self.lower_stmt_under_handler(
                            active_ctx.continuation,
                            handler,
                            None,
                        );
                        let ghost first = self@;
                        let continuation = match active_ctx.perform_result {
                            Some(perform_var) => {
                                let value = self.lower_expr(*arg);
                                self.push(
                                    LinearStmt::Let { binding: perform_var, value, next: resumed },
                                )
                            },
                            None => resumed,
                        };
                        let ghost second = self@;
                        proof {
                            lemma_under_grows(
                                p,
                                properties,
                                first,
                                second,
                                active_ctx.continuation,
                                handler,
                                None,
                                resumed,
                            );
                            assert(second.past_result(active_ctx, *arg, continuation) == Some(
                                resumed,
                            ));
                        }
                        let direct = matches!(
                            active_ctx.clause_convention,
                            ClauseConvention::Direct
                        );
                        if crate::passes::linearize::analysis::is_identity_return_of_var(
                            program,
                            *next,
                            *result,
                        ) && direct {
                            return continuation;
                        }
                        if direct {
                            self.report(
                                "LINEARIZE_DIRECT_RESUME_NON_TAIL",
                                "Direct handler clause resume is not in tail position; lowering as control path",
                                node.span,
                            );
                        }
                        let ghost after = Task { stmt: *next, mode: Mode::Under(handler, None) };
                        assert(needs(p, task, after));
                        let lowered_next = self.lower_stmt_under_handler(*next, handler, None);
                        let ghost third = self@;
                        let id = self.push(
                            LinearStmt::Val {
                                binding: *result,
                                value: continuation,
                                next: lowered_next,
                            },
                        );
                        proof {
                            lemma_under_grows(
                                p,
                                properties,
                                second,
                                self@,
                                active_ctx.continuation,
                                handler,
                                None,
                                resumed,
                            );
                            lemma_under_grows(
                                p,
                                properties,
                                third,
                                self@,
                                *next,
                                handler,
                                None,
                                lowered_next,
                            );
                            assert(self@.past_result(active_ctx, *arg, continuation) == Some(
                                resumed,
                            ));
                        }
                        id
                    },
                }
            },
            _ => {
                assert(false);
                LinearStmtId::invalid()
            },
        }
    }

    /// A statement that the handler does not touch keeps its shape.
    #[verifier::rlimit(60)]
    #[verifier::spinoff_prover]
    fn lower_structural(
        &mut self,
        stmt_id: StmtId,
        handler: HandlerId,
        context: Option<ResumeContext>,
    ) -> (id: LinearStmtId)
        requires
            old(self).can_lower(Task { stmt: stmt_id, mode: Mode::Under(handler, context) }),
            !(old(self).program@.stmt(stmt_id) is Return),
            !(old(self).program@.stmt(stmt_id) is Resume),
            !(old(self).program@.stmt(stmt_id) is Handle),
            old(self).program@.stmt(stmt_id) matches StmtModel::Perform { effect, .. } ==> effect
                != old(self).program@.handler(handler).effect,
        ensures
            final(self).lowers(
                *old(self),
                Task { stmt: stmt_id, mode: Mode::Under(handler, context) },
                id,
            ),
        decreases
                depth(
                    old(self).program@,
                    Task { stmt: stmt_id, mode: Mode::Under(handler, context) },
                ),
                1nat,
    {
        let ghost p = self.program@;
        let ghost properties = self.properties@;
        let mode = Mode::Under(handler, context);
        let ghost task = Task { stmt: stmt_id, mode };
        proof {
            lemma_needs(p, task);
            assert(forall|part: StmtId| p.stmt(stmt_id).has_part(part) ==> p.has_stmt(part));
            assert(forall|part: ExprId| p.stmt(stmt_id).has_expr(part) ==> p.has_expr(part));
            assert forall|part: StmtId| #![trigger p.stmt(stmt_id).has_part(part)]
                p.stmt(stmt_id).has_part(part) implies needs(p, task, Task { stmt: part, mode }) by {
            }
        }
        let program = self.program;
        let node = &program.stmts[stmt_id.0];
        match &node.kind {
            StmtKind::Let { binding, value, next } => {
                let lowered_next = self.lower_stmt_under_handler(*next, handler, context);
                let ghost first = self@;
                let value = self.lower_expr(*value);
                let id = self.push(LinearStmt::Let { binding: *binding, value, next: lowered_next });
                proof {
                    lemma_under_grows(
                        p,
                        properties,
                        first,
                        self@,
                        *next,
                        handler,
                        context,
                        lowered_next,
                    );
                }
                id
            },
            StmtKind::Val { binding, value, next } => {
                let lowered_value = self.lower_stmt_under_handler(*value, handler, context);
                let ghost first = self@;
                let lowered_next = self.lower_stmt_under_handler(*next, handler, context);
                let ghost second = self@;
                let id = self.push(
                    LinearStmt::Val {
                        binding: *binding,
                        value: lowered_value,
                        next: lowered_next,
                    },
                );
                proof {
                    lemma_under_grows(
                        p,
                        properties,
                        first,
                        self@,
                        *value,
                        handler,
                        context,
                        lowered_value,
                    );
                    lemma_under_grows(
                        p,
                        properties,
                        second,
                        self@,
                        *next,
                        handler,
                        context,
                        lowered_next,
                    );
                }
                id
            },
            StmtKind::Call { result, callee, args, effects, next } => {
                let name = self.check_callee(*callee, node.span);
                let lowered_next = self.lower_stmt_under_handler(*next, handler, context);
                let ghost first = self@;
                let lowered_args = self.lower_args(args);
                let convention = classify_call_convention(effects, self.properties);
                let id = self.push(
                    linear_call_stmt(*result, name, lowered_args, lowered_next, convention),
                );
                proof {
                    lemma_under_grows(
                        p,
                        properties,
                        first,
                        self@,
                        *next,
                        handler,
                        context,
                        lowered_next,
                    );
                }
                id
            },
            StmtKind::If { cond, then_branch, else_branch } => {
                let then_lowered = self.lower_stmt_under_handler(*then_branch, handler, context);
                let ghost first = self@;
                let else_lowered = self.lower_stmt_under_handler(*else_branch, handler, context);
                let ghost second = self@;
                let cond = self.lower_expr(*cond);
                let id = self.push(
                    LinearStmt::If { cond, then_branch: then_lowered, else_branch: else_lowered },
                );
                proof {
                    lemma_under_grows(
                        p,
                        properties,
                        first,
                        self@,
                        *then_branch,
                        handler,
                        context,
                        then_lowered,
                    );
                    lemma_under_grows(
                        p,
                        properties,
                        second,
                        self@,
                        *else_branch,
                        handler,
                        context,
                        else_lowered,
                    );
                }
                id
            },
            StmtKind::Match { scrutinee, arms, default } => {
                let lowered_arms = self.lower_arms(arms, mode, Ghost(stmt_id));
                let ghost first = self@;
                let lowered_default = match default {
                    Some(default_stmt) => Some(
                        self.lower_stmt_under_handler(*default_stmt, handler, context),
                    ),
                    None => None,
                };
                let ghost second = self@;
                let scrutinee = self.lower_expr(*scrutinee);
                let ghost arm_models = p.stmt(stmt_id)->arms;
                let ghost ds = crate::common::views(lowered_arms@);
                proof {
                    assert forall|i: int| #![trigger ds[i]] 0 <= i < ds.len() implies
                        self@.lin.has_stmt(ds[i].body) by {
                        assert(lowered_arms@[i].body == ds[i].body);
                    }
                }
                let id = self.push(
                    LinearStmt::Match { scrutinee, arms: lowered_arms, default: lowered_default },
                );
                proof {
                    assert forall|i: int| #![trigger arm_models[i]] 0 <= i < arm_models.len() implies
                        self@.under(
                        p,
                        properties,
                        arm_models[i].body,
                        handler,
                        context,
                        ds[i].body,
                    ) by {
                        assert(lowered_arms@[i].body == ds[i].body);
                        crate::ir::core_ir::lemma_arm_is_part(p.stmt(stmt_id), i);
                        lemma_under_grows(
                            p,
                            properties,
                            first,
                            self@,
                            arm_models[i].body,
                            handler,
                            context,
                            ds[i].body,
                        );
                    }
                    if let Some(d) = default {
                        lemma_under_grows(
                            p,
                            properties,
                            second,
                            self@,
                            *d,
                            handler,
                            context,
                            lowered_default->0,
                        );
                    }
                }
                id
            },
            StmtKind::Perform { result, effect, operation, args, next } => {
                let lowered_next = self.lower_stmt_under_handler(*next, handler, context);
                let ghost first = self@;
                let lowered_args = self.lower_args(args);
                let id = self.push(
                    LinearStmt::Perform {
                        result: *result,
                        effect: *effect,
                        operation: *operation,
                        args: lowered_args,
                        next: lowered_next,
                    },
                );
                proof {
                    lemma_under_grows(
                        p,
                        properties,
                        first,
                        self@,
                        *next,
                        handler,
                        context,
                        lowered_next,
                    );
                }
                id
            },
            StmtKind::Stage { stage, body, next } => {
                let lowered_body = self.lower_stmt_under_handler(*body, handler, context);
                let ghost first = self@;
                let lowered_next = match next {
                    Some(next_stmt) => Some(
                        self.lower_stmt_under_handler(*next_stmt, handler, context),
                    ),
                    None => None,
                };
                let ghost second = self@;
                let id = self.push(
                    LinearStmt::Stage { stage: *stage, body: lowered_body, next: lowered_next },
                );
                proof {
                    lemma_under_grows(
                        p,
                        properties,
                        first,
                        self@,
                        *body,
                        handler,
                        context,
                        lowered_body,
                    );
                    if let Some(n) = next {
                        lemma_under_grows(
                            p,
                            properties,
                            second,
                            self@,
                            *n,
                            handler,
                            context,
                            lowered_next->0,
                        );
                    }
                }
                id
            },
            StmtKind::Hole { .. } => self.push(LinearStmt::Hole),
            StmtKind::Error(_) => self.push(LinearStmt::Error),
            _ => {
                assert(false);
                LinearStmtId::invalid()
            },
        }
    }
}

// ---------------------------------------------------------------------------
// Whole programs
// ---------------------------------------------------------------------------

/// The functions that a program can come to call, in order.
pub open spec fn is_reachable_list(p: CoreModel, found: Seq<FuncId>) -> bool {
    &&& forall|i: int, j: int| 0 <= i < j < found.len() ==> (#[trigger] found[i]).0 < (
    #[trigger] found[j]).0
    &&& forall|f: FuncId| #[trigger]
        found.contains(f) <==> crate::passes::function_graph::function_reached(p, f.0)
}

/// The lowering of every function that the program can come to call ends.
pub open spec fn program_ends(p: CoreModel) -> bool {
    forall|f: FuncId|
        crate::passes::function_graph::function_reached(p, f.0) && p.has_function(f) ==> ends(
            p,
            Task { stmt: #[trigger] p.function(f).body, mode: Mode::Plain },
        )
}

impl Progress {
    /// What is reported and made by the time the first of some functions have
    /// been lowered.
    pub open spec fn after_functions(self, p: CoreModel, found: Seq<FuncId>, first: nat) -> Self
        decreases first,
    {
        if first == 0 {
            self
        } else {
            let before = self.after_functions(p, found, (first - 1) as nat);
            let f = found[first - 1];
            if p.has_function(f) {
                before.after(p, Task { stmt: p.function(f).body, mode: Mode::Plain })
            } else {
                before
            }
        }
    }
}

impl LinearState {
    /// A linear function is what a core function has become.
    pub open spec fn function_at(
        self,
        p: CoreModel,
        found: Seq<FuncId>,
        i: int,
        function: crate::ir::linear::LinearFunctionModel,
    ) -> bool {
        let source = p.function(found[i]);
        &&& function.id.0 == i
        &&& function.name == source.name
        &&& function.params == source.params
        &&& self.plain_at(p, source.body, function.body)
        &&& self.lin.has_stmt(function.body)
    }

    /// The functions of a linear program are those that the core program can
    /// come to call, numbered densely in their order, and it starts from the
    /// same functions.
    pub open spec fn program_at(self, p: CoreModel, found: Seq<FuncId>) -> bool {
        &&& self.lin.functions.len() <= found.len()
        &&& forall|i: int| #![trigger found[i]]
            0 <= i < found.len() ==> (p.has_function(found[i]) <==> i < self.lin.functions.len())
        &&& forall|i: int| #![trigger self.lin.functions[i]]
            0 <= i < self.lin.functions.len() ==> self.function_at(
                p,
                found,
                i,
                self.lin.functions[i],
            )
        &&& self.lin.entrypoints.len() == p.entrypoints.len()
        &&& forall|i: int| #![trigger self.lin.entrypoints[i]]
            0 <= i < p.entrypoints.len() ==> self.lin.entrypoints[i].0 < found.len()
                && found[self.lin.entrypoints[i].0 as int] == p.entrypoints[i]
    }
}

fn no_exprs(count: usize) -> (map: Vec<Option<LinearExprId>>)
    ensures
        map@.len() == count,
        forall|i: int| 0 <= i < count ==> #[trigger] map@[i] is None,
{
    let mut map: Vec<Option<LinearExprId>> = Vec::new();
    while map.len() < count
        invariant
            map@.len() <= count,
            forall|i: int| 0 <= i < map@.len() ==> #[trigger] map@[i] is None,
        decreases count - map@.len(),
    {
        map.push(None);
    }
    map
}

fn no_stmts(count: usize) -> (map: Vec<Option<LinearStmtId>>)
    ensures
        map@.len() == count,
        forall|i: int| 0 <= i < count ==> #[trigger] map@[i] is None,
{
    let mut map: Vec<Option<LinearStmtId>> = Vec::new();
    while map.len() < count
        invariant
            map@.len() <= count,
            forall|i: int| 0 <= i < map@.len() ==> #[trigger] map@[i] is None,
        decreases count - map@.len(),
    {
        map.push(None);
    }
    map
}

/// The position of a function in a list.
fn position_of(found: &Vec<FuncId>, f: FuncId) -> (at: Option<usize>)
    ensures
        match at {
            Some(i) => i < found@.len() && found@[i as int] == f,
            None => !found@.contains(f),
        },
{
    let mut i: usize = 0;
    while i < found.len()
        invariant
            i <= found@.len(),
            forall|j: int| 0 <= j < i ==> found@[j] != f,
        decreases found@.len() - i,
    {
        if found[i] == f {
            return Some(i);
        }
        i += 1;
    }
    None
}

/// Lowers a core program to a linear one.
pub fn lower_program(
    program: &CoreProgram,
    properties: &HashMap<usize, EffectProperties>,
    diagnostics: &mut DiagnosticBag,
) -> (linear: LinearProgram)
    requires
        program@.acyclic(),
        program@.closed(),
        program_ends(program@),
    ensures
        exists|found: Seq<FuncId>, state: LinearState|
            {
                &&& #[trigger] state.program_at(program@, found)
                &&& is_reachable_list(program@, found)
                &&& state.holds(program@, properties@)
                &&& state.lin == linear@
                &&& state.reports == final(diagnostics)@
                &&& state.progress() == Progress::start(old(diagnostics)@).after_functions(
                    program@,
                    found,
                    found.len(),
                )
            },
{
    let ghost p = program@;
    let found = crate::passes::function_graph::collect_reachable_functions(program);
    let mut given = DiagnosticBag::default();
    std::mem::swap(&mut given, diagnostics);
    let ghost start = Progress::start(given@);
    let mut lowering = Linearizer {
        program,
        properties,
        diagnostics: given,
        linear: LinearProgram::default(),
        expr_map: no_exprs(program.exprs.len()),
        stmt_map: no_stmts(program.stmts.len()),
    };
    assert(lowering@.progress() =~= start);
    let mut functions: Vec<crate::ir::linear::LinearFunction> = Vec::new();
    let mut i: usize = 0;
    while i < found.len()
        invariant
            p == program@,
            lowering.ready(),
            lowering.program == program,
            lowering.properties == properties,
            program_ends(p),
            is_reachable_list(p, found@),
            i <= found@.len(),
            functions@.len() <= i,
            forall|j: int| #![trigger found@[j]]
                0 <= j < i ==> (p.has_function(found@[j]) <==> j < functions@.len()),
            forall|j: int| #![trigger functions@[j]]
                0 <= j < functions@.len() ==> lowering@.function_at(p, found@, j, functions@[j]@),
            lowering@.progress() == start.after_functions(p, found@, i as nat),
        decreases found@.len() - i,
    {
        let source_id = found[i];
        if let Some(function) = program.function(source_id) {
            proof {
                assert(found@.contains(found@[i as int]));
                assert(p.function(source_id).body == function.body);
                if functions@.len() < i {
                    assert(!p.has_function(found@[functions@.len() as int]));
                    assert(found@[functions@.len() as int].0 < found@[i as int].0);
                }
            }
            let ghost before = lowering@;
            let body = lowering.lower_stmt(function.body);
            let params = function.params.clone();
            assert(params@ =~= function.params@);
            functions.push(
                crate::ir::linear::LinearFunction {
                    id: crate::common::ids::LinearFuncId::new(i),
                    name: function.name,
                    params,
                    body,
                },
            );
            proof {
                assert forall|j: int| #![trigger functions@[j]]
                    0 <= j < functions@.len() implies lowering@.function_at(
                    p,
                    found@,
                    j,
                    functions@[j]@,
                ) by {
                    if j < i {
                        lemma_plain_at_grows(
                            p,
                            before,
                            lowering@,
                            p.function(found@[j]).body,
                            functions@[j].body,
                        );
                    }
                }
            }
        }
        i += 1;
    }
    let mut entrypoints: Vec<crate::common::ids::LinearFuncId> = Vec::new();
    let mut k: usize = 0;
    while k < program.entrypoints.len()
        invariant
            p == program@,
            is_reachable_list(p, found@),
            k <= program.entrypoints@.len(),
            entrypoints@.len() == k,
            forall|j: int| #![trigger entrypoints@[j]]
                0 <= j < k ==> entrypoints@[j].0 < found@.len() && found@[entrypoints@[j].0 as int]
                    == p.entrypoints[j],
        decreases program.entrypoints@.len() - k,
    {
        let entry = program.entrypoints[k];
        proof {
            let edge = crate::passes::function_graph::call_edge(p);
            let roots = crate::passes::function_graph::entry_set(p);
            assert(p.entrypoints.contains(p.entrypoints[k as int]));
            crate::common::reach::lemma_reaches_root(edge, roots, entry.0);
            assert(found@.contains(entry));
        }
        if let Some(at) = position_of(&found, entry) {
            entrypoints.push(crate::common::ids::LinearFuncId::new(at));
        }
        k += 1;
    }
    let ghost before = lowering@;
    let Linearizer { diagnostics: mut reported, linear: mut linear, .. } = lowering;
    linear.functions = functions;
    linear.entrypoints = entrypoints;
    std::mem::swap(&mut reported, diagnostics);
    proof {
        let state = LinearState { lin: linear@, ..before };
        assert(state.lin.functions =~= crate::common::views(functions@));
        assert(state.lin.bottom_up()) by {
            assert forall|s: LinearStmtId, part: LinearStmtId| #![trigger
                state.lin.stmt(s).has_part(part)]
                state.lin.has_stmt(s) && state.lin.stmt(s).has_part(part) implies part.0 < s.0 by {
                assert(before.lin.stmt(s).has_part(part));
            }
            assert forall|s: LinearStmtId, part: LinearExprId| #![trigger
                state.lin.stmt(s).has_expr(part)]
                state.lin.has_stmt(s) && state.lin.stmt(s).has_expr(part) implies
                state.lin.has_expr(part) by {
                assert(before.lin.stmt(s).has_expr(part));
            }
            assert forall|e: LinearExprId, part: LinearExprId| #![trigger
                state.lin.expr(e).has_part(part)]
                state.lin.has_expr(e) && state.lin.expr(e).has_part(part) implies part.0 < e.0 by {
                assert(before.lin.expr(e).has_part(part));
            }
        }
        lemma_holds_grows(p, properties@, before, state);
        assert forall|j: int| #![trigger state.lin.functions[j]]
            0 <= j < state.lin.functions.len() implies state.function_at(
            p,
            found@,
            j,
            state.lin.functions[j],
        ) by {
            assert(state.lin.functions[j] == functions@[j]@);
            assert(before.function_at(p, found@, j, functions@[j]@));
            lemma_plain_at_grows(
                p,
                before,
                state,
                p.function(found@[j]).body,
                functions@[j].body,
            );
        }
        assert(state.program_at(p, found@));
        assert(diagnostics@ == state.reports);
        assert(state.progress() == before.progress());
    }
    linear
}

// ---------------------------------------------------------------------------
// Laws
// ---------------------------------------------------------------------------

/// A statement is lowered once: to lower it on its own a second time makes
/// nothing and reports nothing. (A resume that stands outside any clause is
/// passed over and reported each time.)
pub proof fn lemma_lowered_once(progress: Progress, p: CoreModel, s: StmtId)
    requires
        ends(p, Task { stmt: s, mode: Mode::Plain }),
        !(p.stmt(s) is Resume),
    ensures
        progress.after(p, Task { stmt: s, mode: Mode::Plain }).after(
            p,
            Task { stmt: s, mode: Mode::Plain },
        ) == progress.after(p, Task { stmt: s, mode: Mode::Plain }),
{
    assert(progress.after(p, Task { stmt: s, mode: Mode::Plain }).done.contains(s.0));
}

/// To lower a statement on its own a second time gives the same linear statement
/// and changes nothing.
pub proof fn lemma_lowered_twice<'a>(
    start: Linearizer<'a>,
    once: Linearizer<'a>,
    twice: Linearizer<'a>,
    s: StmtId,
    first: LinearStmtId,
    second: LinearStmtId,
)
    requires
        start.can_lower(Task { stmt: s, mode: Mode::Plain }),
        once.lowers_stmt(start, s, first),
        twice.lowers_stmt(once, s, second),
        !(start.program@.stmt(s) is Resume),
    ensures
        second == first,
        twice == once,
{
}

/// An expression is lowered once.
pub proof fn lemma_expr_lowered_once(progress: Progress, p: CoreModel, e: ExprId)
    requires
        p.acyclic(),
        p.has_expr(e),
    ensures
        progress.expr(p, e).expr(p, e) == progress.expr(p, e),
{
    assert(progress.expr(p, e).known.contains(e.0));
}

/// What has been reported stays, in its order.
pub open spec fn keeps_reports(before: Progress, after: Progress) -> bool {
    &&& before.diagnostics.len() <= after.diagnostics.len()
    &&& forall|i: int| #![trigger after.diagnostics[i]]
        0 <= i < before.diagnostics.len() ==> after.diagnostics[i] == before.diagnostics[i]
}

proof fn lemma_expr_keeps_reports(progress: Progress, p: CoreModel, e: ExprId)
    requires
        p.acyclic(),
    ensures
        keeps_reports(progress, progress.expr(p, e)),
    decreases p.expr_rank(e), 1nat, 0nat,
{
    crate::passes::linearize::analysis::lemma_expr_ranks(p, e);
    if !progress.known.contains(e.0) && p.has_expr(e) {
        match p.expr(e) {
            ExprModel::Unary { expr, .. } => lemma_expr_keeps_reports(progress, p, expr),
            ExprModel::Binary { lhs, rhs, .. } => {
                lemma_expr_keeps_reports(progress, p, lhs);
                lemma_expr_keeps_reports(progress.expr(p, lhs), p, rhs);
            },
            ExprModel::PureCall { callee, args } => {
                lemma_parts_keep_reports(
                    progress.check_callee(p, callee, p.exprs[e.0 as int].span),
                    p,
                    e,
                    args.len(),
                );
            },
            ExprModel::MakeStruct { fields, .. } => lemma_parts_keep_reports(
                progress,
                p,
                e,
                fields.len(),
            ),
            ExprModel::MakeEnum { fields, .. } => lemma_parts_keep_reports(
                progress,
                p,
                e,
                fields.len(),
            ),
            _ => {},
        }
    }
}

proof fn lemma_parts_keep_reports(progress: Progress, p: CoreModel, e: ExprId, first: nat)
    requires
        p.acyclic(),
    ensures
        keeps_reports(progress, progress.expr_parts(p, e, first)),
    decreases p.expr_rank(e), 0nat, first,
{
    let parts = listed_parts(p.expr(e));
    if p.has_expr(e) && 0 < first <= parts.len() {
        crate::passes::linearize::analysis::lemma_expr_ranks(p, e);
        assert(parts.contains(parts[first - 1]));
        assert(p.expr(e).has_part(parts[first - 1]));
        let before = progress.expr_parts(p, e, (first - 1) as nat);
        lemma_parts_keep_reports(progress, p, e, (first - 1) as nat);
        lemma_expr_keeps_reports(before, p, parts[first - 1]);
    }
}

/// A call of a function that does not exist is reported where it is lowered, in
/// an expression too.
pub proof fn lemma_unknown_callee_reported(progress: Progress, p: CoreModel, e: ExprId)
    requires
        p.acyclic(),
        p.has_expr(e),
        p.expr(e) is PureCall,
        !p.has_function(p.expr(e)->PureCall_callee),
        !progress.known.contains(e.0),
    ensures
        progress.expr(p, e).diagnostics.len() > progress.diagnostics.len(),
        progress.expr(p, e).diagnostics[progress.diagnostics.len() as int]
            == DiagnosticModel::error(
            "LINEARIZE_UNKNOWN_CALLEE"@,
            "Could not resolve function id while lowering call to linear IR"@,
            p.exprs[e.0 as int].span,
        ),
{
    let callee = p.expr(e)->PureCall_callee;
    let checked = progress.check_callee(p, callee, p.exprs[e.0 as int].span);
    lemma_parts_keep_reports(checked, p, e, p.expr(e)->PureCall_args.len());
}

} // verus!
