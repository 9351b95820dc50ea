//! The linear program: what is left to run, with calls sorted by convention.
use crate::common::ids::{
    EffectLabelId, LinearExprId, LinearFuncId, LinearStmtId, SymbolId, VarId,
};
use crate::ir::core_ir::{BinaryOp, Literal, LiteralModel, StageDirective, UnaryOp};
use vstd::prelude::*;

verus! {

/// How a call may transfer control.
#[derive(Clone, Copy, PartialEq, Eq, Hash, Debug, Structural)]
pub enum CallConvention {
    /// The callee performs no effect.
    Pure,
    /// Every effect of the callee can be suspended as a plain thunk.
    Direct,
    /// The callee may capture its continuation.
    Control,
}

// ---------------------------------------------------------------------------
// Expressions
// ---------------------------------------------------------------------------

#[allow(inconsistent_fields)]
#[derive(Debug)]
pub enum LinearExpr {
    Var(VarId),
    Literal(Literal),
    Unary { op: UnaryOp, expr: LinearExprId },
    Binary { op: BinaryOp, lhs: LinearExprId, rhs: LinearExprId },
    PureCall { callee: SymbolId, args: Vec<LinearExprId> },
    MakeStruct { ty: SymbolId, fields: Vec<LinearExprId> },
    MakeEnum { ty: SymbolId, variant: SymbolId, fields: Vec<LinearExprId> },
    Error,
}

/// A linear expression as a mathematical value.
#[allow(inconsistent_fields)]
#[verifier::ext_equal]
pub enum LinearExprModel {
    Var(VarId),
    Literal(LiteralModel),
    Unary { op: UnaryOp, expr: LinearExprId },
    Binary { op: BinaryOp, lhs: LinearExprId, rhs: LinearExprId },
    PureCall { callee: SymbolId, args: Seq<LinearExprId> },
    MakeStruct { ty: SymbolId, fields: Seq<LinearExprId> },
    MakeEnum { ty: SymbolId, variant: SymbolId, fields: Seq<LinearExprId> },
    Error,
}

impl View for LinearExpr {
    type V = LinearExprModel;

    open spec fn view(&self) -> LinearExprModel {
        match *self {
            LinearExpr::Var(var) => LinearExprModel::Var(var),
            LinearExpr::Literal(literal) => LinearExprModel::Literal(literal@),
            LinearExpr::Unary { op, expr } => LinearExprModel::Unary { op, expr },
            LinearExpr::Binary { op, lhs, rhs } => LinearExprModel::Binary { op, lhs, rhs },
            LinearExpr::PureCall { callee, args } => LinearExprModel::PureCall {
                callee,
                args: args@,
            },
            LinearExpr::MakeStruct { ty, fields } => LinearExprModel::MakeStruct {
                ty,
                fields: fields@,
            },
            LinearExpr::MakeEnum { ty, variant, fields } => LinearExprModel::MakeEnum {
                ty,
                variant,
                fields: fields@,
            },
            LinearExpr::Error => LinearExprModel::Error,
        }
    }
}

impl LinearExprModel {
    /// Whether an expression is an immediate part of this one.
    pub open spec fn has_part(self, part: LinearExprId) -> bool {
        match self {
            LinearExprModel::Var(_) | LinearExprModel::Literal(_) | LinearExprModel::Error => false,
            LinearExprModel::Unary { expr, .. } => part == expr,
            LinearExprModel::Binary { lhs, rhs, .. } => part == lhs || part == rhs,
            LinearExprModel::PureCall { args, .. } => args.contains(part),
            LinearExprModel::MakeStruct { fields, .. } => fields.contains(part),
            LinearExprModel::MakeEnum { fields, .. } => fields.contains(part),
        }
    }
}

// ---------------------------------------------------------------------------
// Statements
// ---------------------------------------------------------------------------

#[derive(Debug)]
pub struct LinearMatchArm {
    pub tag: SymbolId,
    pub binders: Vec<VarId>,
    pub body: LinearStmtId,
}

#[verifier::ext_equal]
pub struct LinearMatchArmModel {
    pub tag: SymbolId,
    pub binders: Seq<VarId>,
    pub body: LinearStmtId,
}

impl View for LinearMatchArm {
    type V = LinearMatchArmModel;

    open spec fn view(&self) -> LinearMatchArmModel {
        LinearMatchArmModel { tag: self.tag, binders: self.binders@, body: self.body }
    }
}

#[allow(inconsistent_fields)]
#[derive(Debug)]
pub enum LinearStmt {
    Return(LinearExprId),
    Let { binding: VarId, value: LinearExprId, next: LinearStmtId },
    Val { binding: VarId, value: LinearStmtId, next: LinearStmtId },
    PureCall { result: VarId, callee: SymbolId, args: Vec<LinearExprId>, next: LinearStmtId },
    DirectCall { result: VarId, callee: SymbolId, args: Vec<LinearExprId>, next: LinearStmtId },
    ControlCall { result: VarId, callee: SymbolId, args: Vec<LinearExprId>, next: LinearStmtId },
    If { cond: LinearExprId, then_branch: LinearStmtId, else_branch: LinearStmtId },
    Match { scrutinee: LinearExprId, arms: Vec<LinearMatchArm>, default: Option<LinearStmtId> },
    Perform {
        result: Option<VarId>,
        effect: EffectLabelId,
        operation: SymbolId,
        args: Vec<LinearExprId>,
        next: LinearStmtId,
    },
    Handle { effect: EffectLabelId, body: LinearStmtId, next: Option<LinearStmtId> },
    Stage { stage: StageDirective, body: LinearStmtId, next: Option<LinearStmtId> },
    Hole,
    Error,
}

/// A linear statement as a mathematical value. The three kinds of call are one,
/// told apart by their convention.
#[allow(inconsistent_fields)]
#[verifier::ext_equal]
pub enum LinearStmtModel {
    Return(LinearExprId),
    Let { binding: VarId, value: LinearExprId, next: LinearStmtId },
    Val { binding: VarId, value: LinearStmtId, next: LinearStmtId },
    Call {
        convention: CallConvention,
        result: VarId,
        callee: SymbolId,
        args: Seq<LinearExprId>,
        next: LinearStmtId,
    },
    If { cond: LinearExprId, then_branch: LinearStmtId, else_branch: LinearStmtId },
    Match {
        scrutinee: LinearExprId,
        arms: Seq<LinearMatchArmModel>,
        default: Option<LinearStmtId>,
    },
    Perform {
        result: Option<VarId>,
        effect: EffectLabelId,
        operation: SymbolId,
        args: Seq<LinearExprId>,
        next: LinearStmtId,
    },
    Handle { effect: EffectLabelId, body: LinearStmtId, next: Option<LinearStmtId> },
    Stage { stage: StageDirective, body: LinearStmtId, next: Option<LinearStmtId> },
    Hole,
    Error,
}

impl View for LinearStmt {
    type V = LinearStmtModel;

    open spec fn view(&self) -> LinearStmtModel {
        match *self {
            LinearStmt::Return(value) => LinearStmtModel::Return(value),
            LinearStmt::Let { binding, value, next } => LinearStmtModel::Let {
                binding,
                value,
                next,
            },
            LinearStmt::Val { binding, value, next } => LinearStmtModel::Val {
                binding,
                value,
                next,
            },
            LinearStmt::PureCall { result, callee, args, next } => LinearStmtModel::Call {
                convention: CallConvention::Pure,
                result,
                callee,
                args: args@,
                next,
            },
            LinearStmt::DirectCall { result, callee, args, next } => LinearStmtModel::Call {
                convention: CallConvention::Direct,
                result,
                callee,
                args: args@,
                next,
            },
            LinearStmt::ControlCall { result, callee, args, next } => LinearStmtModel::Call {
                convention: CallConvention::Control,
                result,
                callee,
                args: args@,
                next,
            },
            LinearStmt::If { cond, then_branch, else_branch } => LinearStmtModel::If {
                cond,
                then_branch,
                else_branch,
            },
            LinearStmt::Match { scrutinee, arms, default } => LinearStmtModel::Match {
                scrutinee,
                arms: crate::common::views(arms@),
                default,
            },
            LinearStmt::Perform { result, effect, operation, args, next } => {
                LinearStmtModel::Perform { result, effect, operation, args: args@, next }
            },
            LinearStmt::Handle { effect, body, next } => LinearStmtModel::Handle {
                effect,
                body,
                next,
            },
            LinearStmt::Stage { stage, body, next } => LinearStmtModel::Stage { stage, body, next },
            LinearStmt::Hole => LinearStmtModel::Hole,
            LinearStmt::Error => LinearStmtModel::Error,
        }
    }
}

impl LinearStmtModel {
    /// Whether a statement is an immediate part of this one.
    pub open spec fn has_part(self, part: LinearStmtId) -> bool {
        match self {
            LinearStmtModel::Return(_) | LinearStmtModel::Hole | LinearStmtModel::Error => false,
            LinearStmtModel::Let { next, .. } => part == next,
            LinearStmtModel::Val { value, next, .. } => part == value || part == next,
            LinearStmtModel::Call { next, .. } => part == next,
            LinearStmtModel::If { then_branch, else_branch, .. } => part == then_branch || part
                == else_branch,
            LinearStmtModel::Match { arms, default, .. } => {
                ||| exists|i: int| 0 <= i < arms.len() && (#[trigger] arms[i]).body == part
                ||| default == Some(part)
            },
            LinearStmtModel::Perform { next, .. } => part == next,
            LinearStmtModel::Handle { body, next, .. } => part == body || next == Some(part),
            LinearStmtModel::Stage { body, next, .. } => part == body || next == Some(part),
        }
    }

    /// The statements that are immediate parts of this one, in the order of the
    /// text.
    pub open spec fn parts(self) -> Seq<LinearStmtId> {
        match self {
            LinearStmtModel::Return(_)
            | LinearStmtModel::Hole
            | LinearStmtModel::Error => Seq::empty(),
            LinearStmtModel::Let { next, .. } => seq![next],
            LinearStmtModel::Val { value, next, .. } => seq![value, next],
            LinearStmtModel::Call { next, .. } => seq![next],
            LinearStmtModel::If { then_branch, else_branch, .. } => seq![then_branch, else_branch],
            LinearStmtModel::Match { arms, default, .. } => {
                let bodies = arms.map_values(|arm: LinearMatchArmModel| arm.body);
                match default {
                    Some(default) => bodies.push(default),
                    None => bodies,
                }
            },
            LinearStmtModel::Perform { next, .. } => seq![next],
            LinearStmtModel::Handle { body, next, .. } => match next {
                Some(next) => seq![body, next],
                None => seq![body],
            },
            LinearStmtModel::Stage { body, next, .. } => match next {
                Some(next) => seq![body, next],
                None => seq![body],
            },
        }
    }

    /// Whether an expression is an immediate part of this statement.
    pub open spec fn has_expr(self, part: LinearExprId) -> bool {
        match self {
            LinearStmtModel::Return(value) => part == value,
            LinearStmtModel::Let { value, .. } => part == value,
            LinearStmtModel::Call { args, .. } => args.contains(part),
            LinearStmtModel::If { cond, .. } => part == cond,
            LinearStmtModel::Match { scrutinee, .. } => part == scrutinee,
            LinearStmtModel::Perform { args, .. } => args.contains(part),
            LinearStmtModel::Val { .. } => false,
            LinearStmtModel::Handle { .. } => false,
            LinearStmtModel::Stage { .. } => false,
            LinearStmtModel::Hole => false,
            LinearStmtModel::Error => false,
        }
    }
}

impl LinearStmt {
    /// The statements that are immediate parts of this one, in order.
    pub fn child_stmts(&self) -> (parts: Vec<LinearStmtId>)
        ensures
            parts@ == self@.parts(),
            forall|part: LinearStmtId| #[trigger] parts@.contains(part) <==> self@.has_part(part),
    {
        let mut parts: Vec<LinearStmtId> = Vec::new();
        match self {
            LinearStmt::Return(_) | LinearStmt::Hole | LinearStmt::Error => {},
            LinearStmt::Let { next, .. } | LinearStmt::PureCall { next, .. }
            | LinearStmt::DirectCall { next, .. } | LinearStmt::ControlCall { next, .. }
            | LinearStmt::Perform { next, .. } => {
                push_part(&mut parts, *next);
            },
            LinearStmt::Val { value, next, .. } => {
                push_part(&mut parts, *value);
                push_part(&mut parts, *next);
            },
            LinearStmt::If { then_branch, else_branch, .. } => {
                push_part(&mut parts, *then_branch);
                push_part(&mut parts, *else_branch);
            },
            LinearStmt::Match { arms, default, .. } => {
                let ghost models = crate::common::views(arms@);
                let mut i: usize = 0;
                while i < arms.len()
                    invariant
                        i <= arms@.len(),
                        models == crate::common::views(arms@),
                        parts@.len() == i,
                        forall|k: int| 0 <= k < i ==> #[trigger] parts@[k] == models[k].body,
                        forall|part: LinearStmtId| #[trigger]
                            parts@.contains(part) <==> exists|k: int|
                                0 <= k < i && (#[trigger] models[k]).body == part,
                    decreases arms@.len() - i,
                {
                    let ghost seen = parts@;
                    push_part(&mut parts, arms[i].body);
                    assert(models[i as int].body == arms@[i as int].body);
                    assert forall|part: LinearStmtId| #[trigger]
                        parts@.contains(part) <==> exists|k: int|
                            0 <= k < i + 1 && (#[trigger] models[k]).body == part by {
                        assert(seen.contains(part) <==> exists|k: int|
                            0 <= k < i && (#[trigger] models[k]).body == part);
                    }
                    i += 1;
                }
                let ghost bodies = parts@;
                if let Some(default) = default {
                    push_part(&mut parts, *default);
                }
                assert(self@ == LinearStmtModel::Match {
                    scrutinee: self@->Match_scrutinee,
                    arms: models,
                    default: *default,
                });
                assert(parts@ =~= self@.parts());
                assert forall|part: LinearStmtId| #[trigger]
                    parts@.contains(part) <==> self@.has_part(part) by {
                    assert(bodies.contains(part) <==> exists|k: int|
                        0 <= k < models.len() && (#[trigger] models[k]).body == part);
                    assert(parts@.contains(part) <==> (bodies.contains(part) || *default == Some(
                        part,
                    )));
                    if self@.has_part(part) && *default != Some(part) {
                        let k = choose|k: int|
                            0 <= k < models.len() && (#[trigger] models[k]).body == part;
                        assert(0 <= k < models.len() && models[k].body == part);
                    }
                    if bodies.contains(part) {
                        let k = choose|k: int|
                            0 <= k < models.len() && (#[trigger] models[k]).body == part;
                        assert(self@->Match_arms[k].body == part);
                    }
                }
            },
            LinearStmt::Handle { body, next, .. } | LinearStmt::Stage { body, next, .. } => {
                push_part(&mut parts, *body);
                if let Some(next) = next {
                    push_part(&mut parts, *next);
                }
            },
        }
        assert(parts@ =~= self@.parts());
        parts
    }
}

fn push_part(parts: &mut Vec<LinearStmtId>, part: LinearStmtId)
    ensures
        final(parts)@ == old(parts)@.push(part),
        forall|x: LinearStmtId| #[trigger]
            final(parts)@.contains(x) <==> (old(parts)@.contains(x) || x == part),
{
    proof {
        crate::common::reach::lemma_pushed(parts@, part);
    }
    parts.push(part);
}

/// The reference-count operations around a statement.
#[derive(Debug)]
pub struct LinearArcOps {
    pub pre_retain: Vec<VarId>,
    pub post_release: Vec<VarId>,
}

#[derive(Debug)]
pub struct LinearStmtNode {
    pub kind: LinearStmt,
    pub arc_ops: LinearArcOps,
}

#[verifier::ext_equal]
pub struct LinearStmtNodeModel {
    pub kind: LinearStmtModel,
    pub pre_retain: Seq<VarId>,
    pub post_release: Seq<VarId>,
}

impl View for LinearStmtNode {
    type V = LinearStmtNodeModel;

    open spec fn view(&self) -> LinearStmtNodeModel {
        LinearStmtNodeModel {
            kind: self.kind@,
            pre_retain: self.arc_ops.pre_retain@,
            post_release: self.arc_ops.post_release@,
        }
    }
}

impl LinearStmtNodeModel {
    /// A statement with no reference-count operation around it.
    pub open spec fn plain(kind: LinearStmtModel) -> Self {
        LinearStmtNodeModel { kind, pre_retain: Seq::empty(), post_release: Seq::empty() }
    }
}

// ---------------------------------------------------------------------------
// Programs
// ---------------------------------------------------------------------------

#[derive(Debug)]
pub struct LinearFunction {
    pub id: LinearFuncId,
    pub name: SymbolId,
    pub params: Vec<VarId>,
    pub body: LinearStmtId,
}

#[verifier::ext_equal]
pub struct LinearFunctionModel {
    pub id: LinearFuncId,
    pub name: SymbolId,
    pub params: Seq<VarId>,
    pub body: LinearStmtId,
}

impl View for LinearFunction {
    type V = LinearFunctionModel;

    open spec fn view(&self) -> LinearFunctionModel {
        LinearFunctionModel {
            id: self.id,
            name: self.name,
            params: self.params@,
            body: self.body,
        }
    }
}

#[derive(Debug)]
pub struct LinearProgram {
    pub exprs: Vec<LinearExpr>,
    pub stmts: Vec<LinearStmtNode>,
    pub functions: Vec<LinearFunction>,
    pub entrypoints: Vec<LinearFuncId>,
}

/// A linear program as a mathematical value.
#[verifier::ext_equal]
pub struct LinearModel {
    pub exprs: Seq<LinearExprModel>,
    pub stmts: Seq<LinearStmtNodeModel>,
    pub functions: Seq<LinearFunctionModel>,
    pub entrypoints: Seq<LinearFuncId>,
}

impl View for LinearProgram {
    type V = LinearModel;

    open spec fn view(&self) -> LinearModel {
        LinearModel {
            exprs: crate::common::views(self.exprs@),
            stmts: crate::common::views(self.stmts@),
            functions: crate::common::views(self.functions@),
            entrypoints: self.entrypoints@,
        }
    }
}

impl LinearModel {
    pub open spec fn empty() -> Self {
        LinearModel {
            exprs: Seq::empty(),
            stmts: Seq::empty(),
            functions: Seq::empty(),
            entrypoints: Seq::empty(),
        }
    }

    pub open spec fn has_expr(self, id: LinearExprId) -> bool {
        id.0 < self.exprs.len()
    }

    pub open spec fn has_stmt(self, id: LinearStmtId) -> bool {
        id.0 < self.stmts.len()
    }

    pub open spec fn expr(self, id: LinearExprId) -> LinearExprModel {
        self.exprs[id.0 as int]
    }

    pub open spec fn stmt(self, id: LinearStmtId) -> LinearStmtModel {
        self.stmts[id.0 as int].kind
    }

    /// The nodes of an earlier state of the program are all here, unchanged.
    pub open spec fn extends(self, earlier: LinearModel) -> bool {
        &&& self.exprs.len() >= earlier.exprs.len()
        &&& self.stmts.len() >= earlier.stmts.len()
        &&& forall|i: int| 0 <= i < earlier.exprs.len() ==> #[trigger] self.exprs[i]
            == earlier.exprs[i]
        &&& forall|i: int| 0 <= i < earlier.stmts.len() ==> #[trigger] self.stmts[i]
            == earlier.stmts[i]
    }

    /// A measure under which every expression is above its parts.
    pub open spec fn expr_ranking(self, rank: spec_fn(LinearExprId) -> nat) -> bool {
        forall|e: LinearExprId, part: LinearExprId| #![trigger self.expr(e).has_part(part)]
            self.has_expr(e) && self.expr(e).has_part(part) ==> rank(part) < rank(e)
    }

    /// A measure under which every statement is above its parts.
    pub open spec fn stmt_ranking(self, rank: spec_fn(LinearStmtId) -> nat) -> bool {
        forall|s: LinearStmtId, part: LinearStmtId| #![trigger self.stmt(s).has_part(part)]
            self.has_stmt(s) && self.stmt(s).has_part(part) ==> rank(part) < rank(s)
    }

    /// No expression is, directly or not, a part of itself, and no statement is.
    pub open spec fn acyclic(self) -> bool {
        &&& exists|rank: spec_fn(LinearExprId) -> nat| #[trigger] self.expr_ranking(rank)
        &&& exists|rank: spec_fn(LinearStmtId) -> nat| #[trigger] self.stmt_ranking(rank)
    }

    /// How high an expression stands above its innermost parts.
    pub open spec fn expr_rank(self, e: LinearExprId) -> nat {
        (choose|rank: spec_fn(LinearExprId) -> nat| #[trigger] self.expr_ranking(rank))(e)
    }

    /// How high a statement stands above its innermost parts.
    pub open spec fn stmt_rank(self, s: LinearStmtId) -> nat {
        (choose|rank: spec_fn(LinearStmtId) -> nat| #[trigger] self.stmt_ranking(rank))(s)
    }

    /// Every part of every node comes before it in its arena.
    pub open spec fn bottom_up(self) -> bool {
        &&& forall|e: LinearExprId, part: LinearExprId| #![trigger self.expr(e).has_part(part)]
            self.has_expr(e) && self.expr(e).has_part(part) ==> part.0 < e.0
        &&& forall|s: LinearStmtId, part: LinearStmtId| #![trigger self.stmt(s).has_part(part)]
            self.has_stmt(s) && self.stmt(s).has_part(part) ==> part.0 < s.0
        &&& forall|s: LinearStmtId, part: LinearExprId| #![trigger self.stmt(s).has_expr(part)]
            self.has_stmt(s) && self.stmt(s).has_expr(part) ==> self.has_expr(part)
    }
}

/// A part of an expression stands below it.
pub proof fn lemma_expr_rank(p: LinearModel, e: LinearExprId, part: LinearExprId)
    requires
        p.acyclic(),
        p.has_expr(e),
        p.expr(e).has_part(part),
    ensures
        p.expr_rank(part) < p.expr_rank(e),
{
    let rank = choose|rank: spec_fn(LinearExprId) -> nat| #[trigger] p.expr_ranking(rank);
    assert(p.expr_ranking(rank));
}

/// A part of a statement stands below it.
pub proof fn lemma_stmt_rank(p: LinearModel, s: LinearStmtId, part: LinearStmtId)
    requires
        p.acyclic(),
        p.has_stmt(s),
        p.stmt(s).has_part(part),
    ensures
        p.stmt_rank(part) < p.stmt_rank(s),
{
    let rank = choose|rank: spec_fn(LinearStmtId) -> nat| #[trigger] p.stmt_ranking(rank);
    assert(p.stmt_ranking(rank));
}

/// A program whose nodes are laid out bottom up has no cycle.
pub proof fn lemma_bottom_up_acyclic(p: LinearModel)
    requires
        p.bottom_up(),
    ensures
        p.acyclic(),
{
    let expr_rank = |e: LinearExprId| e.0 as nat;
    let stmt_rank = |s: LinearStmtId| s.0 as nat;
    assert(p.expr_ranking(expr_rank));
    assert(p.stmt_ranking(stmt_rank));
}

impl Default for LinearProgram {
    fn default() -> (program: Self)
        ensures
            program@ == LinearModel::empty(),
    {
        let program = LinearProgram {
            exprs: Vec::new(),
            stmts: Vec::new(),
            functions: Vec::new(),
            entrypoints: Vec::new(),
        };
        assert(program@ =~= LinearModel::empty());
        program
    }
}

impl LinearProgram {
    pub fn expr(&self, id: LinearExprId) -> (node: Option<&LinearExpr>)
        ensures
            node is Some <==> self@.has_expr(id),
            node matches Some(n) ==> n@ == self@.expr(id),
    {
        if id.0 < self.exprs.len() {
            Some(&self.exprs[id.0])
        } else {
            None
        }
    }

    pub fn stmt(&self, id: LinearStmtId) -> (node: Option<&LinearStmtNode>)
        ensures
            node is Some <==> self@.has_stmt(id),
            node matches Some(n) ==> n@ == self@.stmts[id.0 as int],
    {
        if id.0 < self.stmts.len() {
            Some(&self.stmts[id.0])
        } else {
            None
        }
    }

    pub fn push_expr(&mut self, kind: LinearExpr) -> (id: LinearExprId)
        ensures
            id.0 == old(self)@.exprs.len(),
            final(self)@ == (LinearModel { exprs: old(self)@.exprs.push(kind@), ..old(self)@ }),
    {
        broadcast use crate::common::lemma_views_push;

        let id = LinearExprId::new(self.exprs.len());
        self.exprs.push(kind);
        id
    }

    pub fn push_stmt(&mut self, kind: LinearStmt) -> (id: LinearStmtId)
        ensures
            id.0 == old(self)@.stmts.len(),
            final(self)@ == (LinearModel {
                stmts: old(self)@.stmts.push(LinearStmtNodeModel::plain(kind@)),
                ..old(self)@
            }),
    {
        broadcast use crate::common::lemma_views_push;

        let id = LinearStmtId::new(self.stmts.len());
        let node = LinearStmtNode {
            kind,
            arc_ops: LinearArcOps { pre_retain: Vec::new(), post_release: Vec::new() },
        };
        assert(node@ =~= LinearStmtNodeModel::plain(kind@));
        self.stmts.push(node);
        id
    }

    pub fn push_function(&mut self, function: LinearFunction)
        ensures
            final(self)@ == (LinearModel {
                functions: old(self)@.functions.push(function@),
                ..old(self)@
            }),
    {
        broadcast use crate::common::lemma_views_push;

        self.functions.push(function);
    }
}

} // verus!
