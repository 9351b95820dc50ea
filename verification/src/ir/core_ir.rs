//! The core program: pure expressions, effectful statements, handlers and
//! functions, each in an arena of its own.
use crate::common::diagnostics::{ErrorModel, ErrorNode};
use crate::common::ids::{
    EffectLabelId, ExprId, FuncId, HandlerId, StmtId, SymbolId, TypeId, VarId,
};
use crate::common::span::Span;
use crate::sema::effect::SortedEffectRow;
use vstd::prelude::*;

verus! {

// ---------------------------------------------------------------------------
// Literals and operators
// ---------------------------------------------------------------------------

/// A literal. A floating-point literal is held as the bits of a binary64 number.
#[derive(Debug)]
pub enum Literal {
    Unit,
    Bool(bool),
    Int(i64),
    Float(u64),
    Char(char),
    String(String),
}

/// A literal as a mathematical value.
#[verifier::ext_equal]
pub enum LiteralModel {
    Unit,
    Bool(bool),
    Int(i64),
    Float(u64),
    Char(char),
    String(Seq<char>),
}

impl View for Literal {
    type V = LiteralModel;

    open spec fn view(&self) -> LiteralModel {
        match *self {
            Literal::Unit => LiteralModel::Unit,
            Literal::Bool(value) => LiteralModel::Bool(value),
            Literal::Int(value) => LiteralModel::Int(value),
            Literal::Float(bits) => LiteralModel::Float(bits),
            Literal::Char(value) => LiteralModel::Char(value),
            Literal::String(value) => LiteralModel::String(value@),
        }
    }
}

impl Clone for Literal {
    fn clone(&self) -> (copy: Self)
        ensures
            copy@ == self@,
    {
        match self {
            Literal::Unit => Literal::Unit,
            Literal::Bool(value) => Literal::Bool(*value),
            Literal::Int(value) => Literal::Int(*value),
            Literal::Float(bits) => Literal::Float(*bits),
            Literal::Char(value) => Literal::Char(*value),
            Literal::String(value) => Literal::String(value.clone()),
        }
    }
}

#[derive(Clone, Copy, PartialEq, Eq, Hash, Debug, Structural)]
pub enum UnaryOp {
    Neg,
    Not,
}

#[derive(Clone, Copy, PartialEq, Eq, Hash, Debug, Structural)]
pub enum BinaryOp {
    Add,
    Sub,
    Mul,
    Div,
    Mod,
    Eq,
    Ne,
    Lt,
    Le,
    Gt,
    Ge,
    And,
    Or,
}

#[derive(Clone, Copy, PartialEq, Eq, Hash, Debug, Structural)]
pub enum StageDirective {
    Comptime,
    Runtime,
}

// ---------------------------------------------------------------------------
// Expressions
// ---------------------------------------------------------------------------

#[allow(inconsistent_fields)]
#[derive(Debug)]
pub enum ExprKind {
    Var(VarId),
    Literal(Literal),
    Unary { op: UnaryOp, expr: ExprId },
    Binary { op: BinaryOp, lhs: ExprId, rhs: ExprId },
    PureCall { callee: FuncId, args: Vec<ExprId> },
    MakeStruct { ty: SymbolId, fields: Vec<ExprId> },
    MakeEnum { ty: SymbolId, variant: SymbolId, fields: Vec<ExprId> },
    Error(ErrorNode),
}

#[derive(Debug)]
pub struct ExprNode {
    pub span: Span,
    pub kind: ExprKind,
}

/// An expression as a mathematical value.
#[allow(inconsistent_fields)]
#[verifier::ext_equal]
pub enum ExprModel {
    Var(VarId),
    Literal(LiteralModel),
    Unary { op: UnaryOp, expr: ExprId },
    Binary { op: BinaryOp, lhs: ExprId, rhs: ExprId },
    PureCall { callee: FuncId, args: Seq<ExprId> },
    MakeStruct { ty: SymbolId, fields: Seq<ExprId> },
    MakeEnum { ty: SymbolId, variant: SymbolId, fields: Seq<ExprId> },
    Error(ErrorModel),
}

#[verifier::ext_equal]
pub struct ExprNodeModel {
    pub span: Span,
    pub kind: ExprModel,
}

impl View for ExprKind {
    type V = ExprModel;

    open spec fn view(&self) -> ExprModel {
        match *self {
            ExprKind::Var(var) => ExprModel::Var(var),
            ExprKind::Literal(literal) => ExprModel::Literal(literal@),
            ExprKind::Unary { op, expr } => ExprModel::Unary { op, expr },
            ExprKind::Binary { op, lhs, rhs } => ExprModel::Binary { op, lhs, rhs },
            ExprKind::PureCall { callee, args } => ExprModel::PureCall { callee, args: args@ },
            ExprKind::MakeStruct { ty, fields } => ExprModel::MakeStruct { ty, fields: fields@ },
            ExprKind::MakeEnum { ty, variant, fields } => ExprModel::MakeEnum {
                ty,
                variant,
                fields: fields@,
            },
            ExprKind::Error(error) => ExprModel::Error(error@),
        }
    }
}

impl View for ExprNode {
    type V = ExprNodeModel;

    open spec fn view(&self) -> ExprNodeModel {
        ExprNodeModel { span: self.span, kind: self.kind@ }
    }
}

impl ExprModel {
    /// The expressions that are immediate parts of this one, in the order of the
    /// text.
    pub open spec fn parts(self) -> Seq<ExprId> {
        match self {
            ExprModel::Var(_) | ExprModel::Literal(_) | ExprModel::Error(_) => Seq::empty(),
            ExprModel::Unary { expr, .. } => seq![expr],
            ExprModel::Binary { lhs, rhs, .. } => seq![lhs, rhs],
            ExprModel::PureCall { args, .. } => args,
            ExprModel::MakeStruct { fields, .. } => fields,
            ExprModel::MakeEnum { fields, .. } => fields,
        }
    }

    /// Whether an expression is an immediate part of this one.
    pub open spec fn has_part(self, part: ExprId) -> bool {
        match self {
            ExprModel::Var(_) | ExprModel::Literal(_) | ExprModel::Error(_) => false,
            ExprModel::Unary { expr, .. } => part == expr,
            ExprModel::Binary { lhs, rhs, .. } => part == lhs || part == rhs,
            ExprModel::PureCall { args, .. } => args.contains(part),
            ExprModel::MakeStruct { fields, .. } => fields.contains(part),
            ExprModel::MakeEnum { fields, .. } => fields.contains(part),
        }
    }
}

// ---------------------------------------------------------------------------
// Statements
// ---------------------------------------------------------------------------

#[derive(Debug)]
pub struct MatchArm {
    pub tag: SymbolId,
    pub binders: Vec<VarId>,
    pub body: StmtId,
    pub span: Span,
}

#[verifier::ext_equal]
pub struct MatchArmModel {
    pub tag: SymbolId,
    pub binders: Seq<VarId>,
    pub body: StmtId,
    pub span: Span,
}

impl View for MatchArm {
    type V = MatchArmModel;

    open spec fn view(&self) -> MatchArmModel {
        MatchArmModel {
            tag: self.tag,
            binders: self.binders@,
            body: self.body,
            span: self.span,
        }
    }
}

#[allow(inconsistent_fields)]
#[derive(Debug)]
pub enum StmtKind {
    Return(ExprId),
    Let { binding: VarId, value: ExprId, next: StmtId },
    Val { binding: VarId, value: StmtId, next: StmtId },
    Call {
        result: VarId,
        callee: FuncId,
        args: Vec<ExprId>,
        effects: SortedEffectRow,
        next: StmtId,
    },
    If { cond: ExprId, then_branch: StmtId, else_branch: StmtId },
    Match { scrutinee: ExprId, arms: Vec<MatchArm>, default: Option<StmtId> },
    Perform {
        result: Option<VarId>,
        effect: EffectLabelId,
        operation: SymbolId,
        args: Vec<ExprId>,
        next: StmtId,
    },
    Resume { result: VarId, resume: VarId, arg: ExprId, next: StmtId },
    Handle { handler: HandlerId, body: StmtId, next: Option<StmtId> },
    Stage { stage: StageDirective, body: StmtId, next: Option<StmtId> },
    Hole { ty: TypeId },
    Error(ErrorNode),
}

#[derive(Debug)]
pub struct StmtNode {
    pub span: Span,
    pub kind: StmtKind,
}

/// A statement as a mathematical value.
#[allow(inconsistent_fields)]
#[verifier::ext_equal]
pub enum StmtModel {
    Return(ExprId),
    Let { binding: VarId, value: ExprId, next: StmtId },
    Val { binding: VarId, value: StmtId, next: StmtId },
    Call {
        result: VarId,
        callee: FuncId,
        args: Seq<ExprId>,
        effects: Seq<EffectLabelId>,
        next: StmtId,
    },
    If { cond: ExprId, then_branch: StmtId, else_branch: StmtId },
    Match { scrutinee: ExprId, arms: Seq<MatchArmModel>, default: Option<StmtId> },
    Perform {
        result: Option<VarId>,
        effect: EffectLabelId,
        operation: SymbolId,
        args: Seq<ExprId>,
        next: StmtId,
    },
    Resume { result: VarId, resume: VarId, arg: ExprId, next: StmtId },
    Handle { handler: HandlerId, body: StmtId, next: Option<StmtId> },
    Stage { stage: StageDirective, body: StmtId, next: Option<StmtId> },
    Hole { ty: TypeId },
    Error(ErrorModel),
}

#[verifier::ext_equal]
pub struct StmtNodeModel {
    pub span: Span,
    pub kind: StmtModel,
}

impl View for StmtKind {
    type V = StmtModel;

    open spec fn view(&self) -> StmtModel {
        match *self {
            StmtKind::Return(expr) => StmtModel::Return(expr),
            StmtKind::Let { binding, value, next } => StmtModel::Let { binding, value, next },
            StmtKind::Val { binding, value, next } => StmtModel::Val { binding, value, next },
            StmtKind::Call { result, callee, args, effects, next } => StmtModel::Call {
                result,
                callee,
                args: args@,
                effects: effects@,
                next,
            },
            StmtKind::If { cond, then_branch, else_branch } => StmtModel::If {
                cond,
                then_branch,
                else_branch,
            },
            StmtKind::Match { scrutinee, arms, default } => StmtModel::Match {
                scrutinee,
                arms: crate::common::views(arms@),
                default,
            },
            StmtKind::Perform { result, effect, operation, args, next } => StmtModel::Perform {
                result,
                effect,
                operation,
                args: args@,
                next,
            },
            StmtKind::Resume { result, resume, arg, next } => StmtModel::Resume {
                result,
                resume,
                arg,
                next,
            },
            StmtKind::Handle { handler, body, next } => StmtModel::Handle { handler, body, next },
            StmtKind::Stage { stage, body, next } => StmtModel::Stage { stage, body, next },
            StmtKind::Hole { ty } => StmtModel::Hole { ty },
            StmtKind::Error(error) => StmtModel::Error(error@),
        }
    }
}

impl View for StmtNode {
    type V = StmtNodeModel;

    open spec fn view(&self) -> StmtNodeModel {
        StmtNodeModel { span: self.span, kind: self.kind@ }
    }
}

impl StmtModel {
    /// Whether a statement is an immediate part of this one.
    pub open spec fn has_part(self, part: StmtId) -> bool {
        match self {
            StmtModel::Return(_) | StmtModel::Hole { .. } | StmtModel::Error(_) => false,
            StmtModel::Let { next, .. } => part == next,
            StmtModel::Val { value, next, .. } => part == value || part == next,
            StmtModel::Call { next, .. } => part == next,
            StmtModel::If { then_branch, else_branch, .. } => part == then_branch || part
                == else_branch,
            StmtModel::Match { arms, default, .. } => {
                ||| exists|i: int| 0 <= i < arms.len() && (#[trigger] arms[i]).body == part
                ||| default == Some(part)
            },
            StmtModel::Perform { next, .. } => part == next,
            StmtModel::Resume { next, .. } => part == next,
            StmtModel::Handle { body, next, .. } => part == body || next == Some(part),
            StmtModel::Stage { body, next, .. } => part == body || next == Some(part),
        }
    }

    /// The statements that are immediate parts of this one, in the order of the
    /// text.
    pub open spec fn parts(self) -> Seq<StmtId> {
        match self {
            StmtModel::Return(_) | StmtModel::Hole { .. } | StmtModel::Error(_) => Seq::empty(),
            StmtModel::Let { next, .. } => seq![next],
            StmtModel::Val { value, next, .. } => seq![value, next],
            StmtModel::Call { next, .. } => seq![next],
            StmtModel::If { then_branch, else_branch, .. } => seq![then_branch, else_branch],
            StmtModel::Match { arms, default, .. } => {
                let bodies = arms.map_values(|arm: MatchArmModel| arm.body);
                match default {
                    Some(default) => bodies.push(default),
                    None => bodies,
                }
            },
            StmtModel::Perform { next, .. } => seq![next],
            StmtModel::Resume { next, .. } => seq![next],
            StmtModel::Handle { body, next, .. } => match next {
                Some(next) => seq![body, next],
                None => seq![body],
            },
            StmtModel::Stage { body, next, .. } => match next {
                Some(next) => seq![body, next],
                None => seq![body],
            },
        }
    }

    /// The expressions that are immediate parts of this statement, in the order of
    /// the text.
    pub open spec fn expr_parts(self) -> Seq<ExprId> {
        match self {
            StmtModel::Return(expr) => seq![expr],
            StmtModel::Let { value, .. } => seq![value],
            StmtModel::If { cond, .. } => seq![cond],
            StmtModel::Match { scrutinee, .. } => seq![scrutinee],
            StmtModel::Resume { arg, .. } => seq![arg],
            StmtModel::Call { args, .. } => args,
            StmtModel::Perform { args, .. } => args,
            StmtModel::Val { .. } | StmtModel::Handle { .. } | StmtModel::Stage { .. }
            | StmtModel::Hole { .. } | StmtModel::Error(_) => Seq::empty(),
        }
    }

    /// Whether an expression is an immediate part of this statement.
    pub open spec fn has_expr(self, part: ExprId) -> bool {
        match self {
            StmtModel::Return(expr) => part == expr,
            StmtModel::Let { value, .. } => part == value,
            StmtModel::Val { .. } => false,
            StmtModel::Call { args, .. } => args.contains(part),
            StmtModel::If { cond, .. } => part == cond,
            StmtModel::Match { scrutinee, .. } => part == scrutinee,
            StmtModel::Perform { args, .. } => args.contains(part),
            StmtModel::Resume { arg, .. } => part == arg,
            StmtModel::Handle { .. } => false,
            StmtModel::Stage { .. } => false,
            StmtModel::Hole { .. } => false,
            StmtModel::Error(_) => false,
        }
    }
}

// ---------------------------------------------------------------------------
// Declarations
// ---------------------------------------------------------------------------

#[derive(Debug)]
pub struct FunctionDecl {
    pub name: SymbolId,
    pub params: Vec<VarId>,
    pub param_types: Vec<TypeId>,
    pub return_type: TypeId,
    pub declared_effects: SortedEffectRow,
    pub body: StmtId,
    pub ct_only: bool,
    pub span: Span,
}

#[verifier::ext_equal]
pub struct FunctionModel {
    pub name: SymbolId,
    pub params: Seq<VarId>,
    pub param_types: Seq<TypeId>,
    pub return_type: TypeId,
    pub declared_effects: Seq<EffectLabelId>,
    pub body: StmtId,
    pub ct_only: bool,
    pub span: Span,
}

impl View for FunctionDecl {
    type V = FunctionModel;

    open spec fn view(&self) -> FunctionModel {
        FunctionModel {
            name: self.name,
            params: self.params@,
            param_types: self.param_types@,
            return_type: self.return_type,
            declared_effects: self.declared_effects@,
            body: self.body,
            ct_only: self.ct_only,
            span: self.span,
        }
    }
}

#[derive(Debug)]
pub struct HandlerClause {
    pub operation: SymbolId,
    pub params: Vec<VarId>,
    pub resume_param: Option<VarId>,
    pub body: StmtId,
    pub span: Span,
}

#[verifier::ext_equal]
pub struct ClauseModel {
    pub operation: SymbolId,
    pub params: Seq<VarId>,
    pub resume_param: Option<VarId>,
    pub body: StmtId,
    pub span: Span,
}

impl View for HandlerClause {
    type V = ClauseModel;

    open spec fn view(&self) -> ClauseModel {
        ClauseModel {
            operation: self.operation,
            params: self.params@,
            resume_param: self.resume_param,
            body: self.body,
            span: self.span,
        }
    }
}

#[derive(Debug)]
pub struct HandlerDef {
    pub effect: EffectLabelId,
    pub return_param: VarId,
    pub return_body: StmtId,
    pub clauses: Vec<HandlerClause>,
    pub span: Span,
}

#[verifier::ext_equal]
pub struct HandlerModel {
    pub effect: EffectLabelId,
    pub return_param: VarId,
    pub return_body: StmtId,
    pub clauses: Seq<ClauseModel>,
    pub span: Span,
}

impl View for HandlerDef {
    type V = HandlerModel;

    open spec fn view(&self) -> HandlerModel {
        HandlerModel {
            effect: self.effect,
            return_param: self.return_param,
            return_body: self.return_body,
            clauses: crate::common::views(self.clauses@),
            span: self.span,
        }
    }
}

#[derive(Clone, Copy, PartialEq, Eq, Hash, Debug, Structural)]
pub enum PrimitiveTypeRef {
    Bool,
    Int,
    Float,
    Char,
    String,
}

#[derive(Clone, Copy, PartialEq, Eq, Hash, Debug, Structural)]
pub enum CoreTypeRef {
    Unit,
    Primitive(PrimitiveTypeRef),
    Named(SymbolId),
    Unknown,
}

#[derive(Debug)]
pub struct EffectOpDecl {
    pub name: SymbolId,
    pub param_types: Vec<CoreTypeRef>,
    pub return_type: CoreTypeRef,
}

#[verifier::ext_equal]
pub struct EffectOpModel {
    pub name: SymbolId,
    pub param_types: Seq<CoreTypeRef>,
    pub return_type: CoreTypeRef,
}

impl View for EffectOpDecl {
    type V = EffectOpModel;

    open spec fn view(&self) -> EffectOpModel {
        EffectOpModel {
            name: self.name,
            param_types: self.param_types@,
            return_type: self.return_type,
        }
    }
}

#[derive(Debug)]
pub struct EffectDecl {
    pub label: EffectLabelId,
    pub operations: Vec<EffectOpDecl>,
}

#[verifier::ext_equal]
pub struct EffectModel {
    pub label: EffectLabelId,
    pub operations: Seq<EffectOpModel>,
}

impl View for EffectDecl {
    type V = EffectModel;

    open spec fn view(&self) -> EffectModel {
        EffectModel { label: self.label, operations: crate::common::views(self.operations@) }
    }
}

#[derive(Clone, Copy, PartialEq, Eq, Debug, Structural)]
pub struct AdtStructDecl {
    pub name: SymbolId,
    pub field_count: usize,
    pub span: Span,
}

#[derive(Clone, Copy, PartialEq, Eq, Debug, Structural)]
pub struct AdtEnumVariantDecl {
    pub name: SymbolId,
    pub field_count: usize,
    pub span: Span,
}

#[derive(Debug)]
pub struct AdtEnumDecl {
    pub name: SymbolId,
    pub variants: Vec<AdtEnumVariantDecl>,
    pub span: Span,
}

#[verifier::ext_equal]
pub struct EnumModel {
    pub name: SymbolId,
    pub variants: Seq<AdtEnumVariantDecl>,
    pub span: Span,
}

impl View for AdtEnumDecl {
    type V = EnumModel;

    open spec fn view(&self) -> EnumModel {
        EnumModel { name: self.name, variants: self.variants@, span: self.span }
    }
}

// ---------------------------------------------------------------------------
// Programs
// ---------------------------------------------------------------------------

#[derive(Debug)]
pub struct CoreProgram {
    pub exprs: Vec<ExprNode>,
    pub stmts: Vec<StmtNode>,
    pub functions: Vec<FunctionDecl>,
    pub handlers: Vec<HandlerDef>,
    pub effects: Vec<EffectDecl>,
    pub structs: Vec<AdtStructDecl>,
    pub enums: Vec<AdtEnumDecl>,
    pub entrypoints: Vec<FuncId>,
}

/// A core program as a mathematical value.
#[verifier::ext_equal]
pub struct CoreModel {
    pub exprs: Seq<ExprNodeModel>,
    pub stmts: Seq<StmtNodeModel>,
    pub functions: Seq<FunctionModel>,
    pub handlers: Seq<HandlerModel>,
    pub effects: Seq<EffectModel>,
    pub structs: Seq<AdtStructDecl>,
    pub enums: Seq<EnumModel>,
    pub entrypoints: Seq<FuncId>,
}

impl View for CoreProgram {
    type V = CoreModel;

    open spec fn view(&self) -> CoreModel {
        CoreModel {
            exprs: crate::common::views(self.exprs@),
            stmts: crate::common::views(self.stmts@),
            functions: crate::common::views(self.functions@),
            handlers: crate::common::views(self.handlers@),
            effects: crate::common::views(self.effects@),
            structs: self.structs@,
            enums: crate::common::views(self.enums@),
            entrypoints: self.entrypoints@,
        }
    }
}

impl CoreModel {
    pub open spec fn empty() -> Self {
        CoreModel {
            exprs: Seq::empty(),
            stmts: Seq::empty(),
            functions: Seq::empty(),
            handlers: Seq::empty(),
            effects: Seq::empty(),
            structs: Seq::empty(),
            enums: Seq::empty(),
            entrypoints: Seq::empty(),
        }
    }

    pub open spec fn has_expr(self, id: ExprId) -> bool {
        id.0 < self.exprs.len()
    }

    pub open spec fn has_stmt(self, id: StmtId) -> bool {
        id.0 < self.stmts.len()
    }

    pub open spec fn has_function(self, id: FuncId) -> bool {
        id.0 < self.functions.len()
    }

    pub open spec fn has_handler(self, id: HandlerId) -> bool {
        id.0 < self.handlers.len()
    }

    pub open spec fn expr(self, id: ExprId) -> ExprModel {
        self.exprs[id.0 as int].kind
    }

    pub open spec fn stmt(self, id: StmtId) -> StmtModel {
        self.stmts[id.0 as int].kind
    }

    pub open spec fn stmt_span(self, id: StmtId) -> Span {
        self.stmts[id.0 as int].span
    }

    pub open spec fn function(self, id: FuncId) -> FunctionModel {
        self.functions[id.0 as int]
    }

    pub open spec fn handler(self, id: HandlerId) -> HandlerModel {
        self.handlers[id.0 as int]
    }

    // -- no cycles ---------------------------------------------------------

    /// A measure under which every expression is above its parts.
    pub open spec fn expr_ranking(self, rank: spec_fn(ExprId) -> nat) -> bool {
        forall|e: ExprId, part: ExprId| #![trigger self.expr(e).has_part(part)]
            self.has_expr(e) && self.expr(e).has_part(part) ==> rank(part) < rank(e)
    }

    /// A measure under which every statement is above its parts.
    pub open spec fn stmt_ranking(self, rank: spec_fn(StmtId) -> nat) -> bool {
        forall|s: StmtId, part: StmtId| #![trigger self.stmt(s).has_part(part)]
            self.has_stmt(s) && self.stmt(s).has_part(part) ==> rank(part) < rank(s)
    }

    /// No expression is, directly or not, a part of itself, and no statement is.
    pub open spec fn acyclic(self) -> bool {
        &&& exists|rank: spec_fn(ExprId) -> nat| #[trigger] self.expr_ranking(rank)
        &&& exists|rank: spec_fn(StmtId) -> nat| #[trigger] self.stmt_ranking(rank)
    }

    /// How high an expression stands above its innermost parts.
    pub open spec fn expr_rank(self, e: ExprId) -> nat {
        (choose|rank: spec_fn(ExprId) -> nat| #[trigger] self.expr_ranking(rank))(e)
    }

    /// How high a statement stands above its innermost parts.
    pub open spec fn stmt_rank(self, s: StmtId) -> nat {
        (choose|rank: spec_fn(StmtId) -> nat| #[trigger] self.stmt_ranking(rank))(s)
    }

    /// Every part of every node comes before it in its arena.
    pub open spec fn bottom_up(self) -> bool {
        &&& forall|e: ExprId, part: ExprId| #![trigger self.expr(e).has_part(part)]
            self.has_expr(e) && self.expr(e).has_part(part) ==> part.0 < e.0
        &&& forall|s: StmtId, part: StmtId| #![trigger self.stmt(s).has_part(part)]
            self.has_stmt(s) && self.stmt(s).has_part(part) ==> part.0 < s.0
        &&& forall|s: StmtId, part: ExprId| #![trigger self.stmt(s).has_expr(part)]
            self.has_stmt(s) && self.stmt(s).has_expr(part) ==> self.has_expr(part)
    }

    /// The nodes and handlers of an earlier state of the program are all here,
    /// unchanged.
    pub open spec fn extends(self, earlier: CoreModel) -> bool {
        &&& self.exprs.len() >= earlier.exprs.len()
        &&& self.stmts.len() >= earlier.stmts.len()
        &&& self.handlers.len() >= earlier.handlers.len()
        &&& forall|i: int| 0 <= i < earlier.exprs.len() ==> #[trigger] self.exprs[i]
            == earlier.exprs[i]
        &&& forall|i: int| 0 <= i < earlier.stmts.len() ==> #[trigger] self.stmts[i]
            == earlier.stmts[i]
        &&& forall|i: int| 0 <= i < earlier.handlers.len() ==> #[trigger] self.handlers[i]
            == earlier.handlers[i]
    }

    // -- no dangling parts -------------------------------------------------

    /// Every part of every expression exists.
    pub open spec fn exprs_closed(self) -> bool {
        forall|e: ExprId, part: ExprId| #![trigger self.expr(e).has_part(part)]
            self.has_expr(e) && self.expr(e).has_part(part) ==> self.has_expr(part)
    }

    /// Every part of every statement exists.
    pub open spec fn stmts_closed(self) -> bool {
        &&& forall|s: StmtId, part: StmtId| #![trigger self.stmt(s).has_part(part)]
            self.has_stmt(s) && self.stmt(s).has_part(part) ==> self.has_stmt(part)
        &&& forall|s: StmtId, part: ExprId| #![trigger self.stmt(s).has_expr(part)]
            self.has_stmt(s) && self.stmt(s).has_expr(part) ==> self.has_expr(part)
    }

    /// The body of every function exists.
    pub open spec fn functions_closed(self) -> bool {
        forall|f: FuncId| #![trigger self.function(f)]
            self.has_function(f) ==> self.has_stmt(self.function(f).body)
    }

    /// The return body and the clause bodies of every handler exist.
    pub open spec fn handlers_closed(self) -> bool {
        &&& forall|h: HandlerId| #![trigger self.handler(h)]
            self.has_handler(h) ==> self.has_stmt(self.handler(h).return_body)
        &&& forall|h: HandlerId, i: int| #![trigger self.handler(h).clauses[i]]
            self.has_handler(h) && 0 <= i < self.handler(h).clauses.len() ==> self.has_stmt(
                self.handler(h).clauses[i].body,
            )
    }

    /// No dangling identifier where a node is looked for.
    pub open spec fn closed(self) -> bool {
        &&& self.exprs_closed()
        &&& self.stmts_closed()
        &&& self.functions_closed()
        &&& self.handlers_closed()
    }
}

/// A program whose nodes are laid out bottom up has no cycle and no dangling
/// part.
pub proof fn lemma_bottom_up(p: CoreModel)
    requires
        p.bottom_up(),
    ensures
        p.acyclic(),
        p.exprs_closed(),
        p.stmts_closed(),
{
    let expr_rank = |e: ExprId| e.0 as nat;
    let stmt_rank = |s: StmtId| s.0 as nat;
    assert(p.expr_ranking(expr_rank));
    assert(p.stmt_ranking(stmt_rank));
}

/// An expression whose parts exist can be added on top.
pub proof fn lemma_bottom_up_push_expr(p: CoreModel, node: ExprNodeModel)
    requires
        p.bottom_up(),
        forall|part: ExprId| #[trigger] node.kind.has_part(part) ==> p.has_expr(part),
    ensures
        (CoreModel { exprs: p.exprs.push(node), ..p }).bottom_up(),
{
    let q = CoreModel { exprs: p.exprs.push(node), ..p };
    assert forall|e: ExprId, part: ExprId| #![trigger q.expr(e).has_part(part)]
        q.has_expr(e) && q.expr(e).has_part(part) implies part.0 < e.0 by {
        if p.has_expr(e) {
            assert(p.expr(e).has_part(part));
        }
    }
    assert forall|s: StmtId, part: StmtId| #![trigger q.stmt(s).has_part(part)]
        q.has_stmt(s) && q.stmt(s).has_part(part) implies part.0 < s.0 by {
        assert(p.stmt(s).has_part(part));
    }
    assert forall|s: StmtId, part: ExprId| #![trigger q.stmt(s).has_expr(part)]
        q.has_stmt(s) && q.stmt(s).has_expr(part) implies q.has_expr(part) by {
        assert(p.stmt(s).has_expr(part));
    }
}

/// A statement whose parts exist can be added on top.
pub proof fn lemma_bottom_up_push_stmt(p: CoreModel, node: StmtNodeModel)
    requires
        p.bottom_up(),
        forall|part: StmtId| #[trigger] node.kind.has_part(part) ==> p.has_stmt(part),
        forall|part: ExprId| #[trigger] node.kind.has_expr(part) ==> p.has_expr(part),
    ensures
        (CoreModel { stmts: p.stmts.push(node), ..p }).bottom_up(),
{
    let q = CoreModel { stmts: p.stmts.push(node), ..p };
    assert forall|e: ExprId, part: ExprId| #![trigger q.expr(e).has_part(part)]
        q.has_expr(e) && q.expr(e).has_part(part) implies part.0 < e.0 by {
        assert(p.expr(e).has_part(part));
    }
    assert forall|s: StmtId, part: StmtId| #![trigger q.stmt(s).has_part(part)]
        q.has_stmt(s) && q.stmt(s).has_part(part) implies part.0 < s.0 by {
        if p.has_stmt(s) {
            assert(p.stmt(s).has_part(part));
        }
    }
    assert forall|s: StmtId, part: ExprId| #![trigger q.stmt(s).has_expr(part)]
        q.has_stmt(s) && q.stmt(s).has_expr(part) implies q.has_expr(part) by {
        if p.has_stmt(s) {
            assert(p.stmt(s).has_expr(part));
        }
    }
}

/// The body of an arm is a part of the match, and so is the default.
pub proof fn lemma_arm_is_part(s: StmtModel, i: int)
    requires
        s is Match,
        0 <= i < s->arms.len(),
    ensures
        s.has_part(s->arms[i].body),
{
    assert(s->arms[i].body == s->arms[i].body);
}

/// A part of an expression stands below it.
pub proof fn lemma_expr_rank(p: CoreModel, e: ExprId, part: ExprId)
    requires
        p.acyclic(),
        p.has_expr(e),
        p.expr(e).has_part(part),
    ensures
        p.expr_rank(part) < p.expr_rank(e),
{
    let rank = choose|rank: spec_fn(ExprId) -> nat| #[trigger] p.expr_ranking(rank);
    assert(p.expr_ranking(rank));
}

/// A part of a statement stands below it.
pub proof fn lemma_stmt_rank(p: CoreModel, s: StmtId, part: StmtId)
    requires
        p.acyclic(),
        p.has_stmt(s),
        p.stmt(s).has_part(part),
    ensures
        p.stmt_rank(part) < p.stmt_rank(s),
{
    let rank = choose|rank: spec_fn(StmtId) -> nat| #[trigger] p.stmt_ranking(rank);
    assert(p.stmt_ranking(rank));
}

impl Default for CoreProgram {
    fn default() -> (program: Self)
        ensures
            program@ == CoreModel::empty(),
    {
        CoreProgram::new()
    }
}

impl CoreProgram {
    pub fn new() -> (program: Self)
        ensures
            program@ == CoreModel::empty(),
    {
        let program = CoreProgram {
            exprs: Vec::new(),
            stmts: Vec::new(),
            functions: Vec::new(),
            handlers: Vec::new(),
            effects: Vec::new(),
            structs: Vec::new(),
            enums: Vec::new(),
            entrypoints: Vec::new(),
        };
        assert(program@ =~= CoreModel::empty());
        program
    }

    pub fn expr(&self, id: ExprId) -> (node: Option<&ExprNode>)
        ensures
            node is Some <==> self@.has_expr(id),
            node matches Some(n) ==> n@ == self@.exprs[id.0 as int],
    {
        if id.0 < self.exprs.len() {
            Some(&self.exprs[id.0])
        } else {
            None
        }
    }

    pub fn stmt(&self, id: StmtId) -> (node: Option<&StmtNode>)
        ensures
            node is Some <==> self@.has_stmt(id),
            node matches Some(n) ==> n@ == self@.stmts[id.0 as int],
    {
        if id.0 < self.stmts.len() {
            Some(&self.stmts[id.0])
        } else {
            None
        }
    }

    pub fn function(&self, id: FuncId) -> (decl: Option<&FunctionDecl>)
        ensures
            decl is Some <==> self@.has_function(id),
            decl matches Some(d) ==> d@ == self@.function(id),
    {
        if id.0 < self.functions.len() {
            Some(&self.functions[id.0])
        } else {
            None
        }
    }

    pub fn handler(&self, id: HandlerId) -> (def: Option<&HandlerDef>)
        ensures
            def is Some <==> self@.has_handler(id),
            def matches Some(d) ==> d@ == self@.handler(id),
    {
        if id.0 < self.handlers.len() {
            Some(&self.handlers[id.0])
        } else {
            None
        }
    }

    pub fn push_expr(&mut self, node: ExprNode) -> (id: ExprId)
        ensures
            id.0 == old(self)@.exprs.len(),
            final(self)@ == (CoreModel { exprs: old(self)@.exprs.push(node@), ..old(self)@ }),
    {
        broadcast use crate::common::lemma_views_push;

        let id = ExprId::new(self.exprs.len());
        self.exprs.push(node);
        id
    }

    pub fn push_stmt(&mut self, node: StmtNode) -> (id: StmtId)
        ensures
            id.0 == old(self)@.stmts.len(),
            final(self)@ == (CoreModel { stmts: old(self)@.stmts.push(node@), ..old(self)@ }),
    {
        broadcast use crate::common::lemma_views_push;

        let id = StmtId::new(self.stmts.len());
        self.stmts.push(node);
        id
    }

    pub fn add_function(&mut self, decl: FunctionDecl) -> (id: FuncId)
        ensures
            id.0 == old(self)@.functions.len(),
            final(self)@ == (CoreModel {
                functions: old(self)@.functions.push(decl@),
                ..old(self)@
            }),
    {
        broadcast use crate::common::lemma_views_push;

        let id = FuncId::new(self.functions.len());
        self.functions.push(decl);
        id
    }

    pub fn add_handler(&mut self, def: HandlerDef) -> (id: HandlerId)
        ensures
            id.0 == old(self)@.handlers.len(),
            final(self)@ == (CoreModel {
                handlers: old(self)@.handlers.push(def@),
                ..old(self)@
            }),
    {
        broadcast use crate::common::lemma_views_push;

        let id = HandlerId::new(self.handlers.len());
        self.handlers.push(def);
        id
    }

    pub fn add_effect(&mut self, decl: EffectDecl)
        ensures
            final(self)@ == (CoreModel {
                effects: old(self)@.effects.push(decl@),
                ..old(self)@
            }),
    {
        broadcast use crate::common::lemma_views_push;

        self.effects.push(decl);
    }

    pub fn add_struct(&mut self, decl: AdtStructDecl)
        ensures
            final(self)@ == (CoreModel {
                structs: old(self)@.structs.push(decl),
                ..old(self)@
            }),
    {
        self.structs.push(decl);
    }

    pub fn add_enum(&mut self, decl: AdtEnumDecl)
        ensures
            final(self)@ == (CoreModel { enums: old(self)@.enums.push(decl@), ..old(self)@ }),
    {
        broadcast use crate::common::lemma_views_push;

        self.enums.push(decl);
    }

    pub fn set_entrypoints(&mut self, entrypoints: Vec<FuncId>)
        ensures
            final(self)@ == (CoreModel { entrypoints: entrypoints@, ..old(self)@ }),
    {
        self.entrypoints = entrypoints;
    }

    /// Replaces what an expression is, and keeps its span.
    pub fn set_expr(&mut self, id: ExprId, kind: ExprKind)
        requires
            old(self)@.has_expr(id),
        ensures
            final(self)@ == (CoreModel {
                exprs: old(self)@.exprs.update(
                    id.0 as int,
                    ExprNodeModel { kind: kind@, ..old(self)@.exprs[id.0 as int] },
                ),
                ..old(self)@
            }),
    {
        self.exprs[id.0].kind = kind;
        assert(self@.exprs =~= old(self)@.exprs.update(
            id.0 as int,
            ExprNodeModel { kind: kind@, ..old(self)@.exprs[id.0 as int] },
        ));
    }

    /// Replaces what a statement does, and keeps its span.
    pub fn set_stmt(&mut self, id: StmtId, kind: StmtKind)
        requires
            old(self)@.has_stmt(id),
        ensures
            final(self)@ == (CoreModel {
                stmts: old(self)@.stmts.update(
                    id.0 as int,
                    StmtNodeModel { kind: kind@, ..old(self)@.stmts[id.0 as int] },
                ),
                ..old(self)@
            }),
    {
        self.stmts[id.0].kind = kind;
        assert(self@.stmts =~= old(self)@.stmts.update(
            id.0 as int,
            StmtNodeModel { kind: kind@, ..old(self)@.stmts[id.0 as int] },
        ));
    }

    /// Gives a function another body.
    pub fn set_function_body(&mut self, id: FuncId, body: StmtId)
        requires
            old(self)@.has_function(id),
        ensures
            final(self)@ == (CoreModel {
                functions: old(self)@.functions.update(
                    id.0 as int,
                    FunctionModel { body, ..old(self)@.function(id) },
                ),
                ..old(self)@
            }),
    {
        self.functions[id.0].body = body;
        assert(self@.functions =~= old(self)@.functions.update(
            id.0 as int,
            FunctionModel { body, ..old(self)@.function(id) },
        ));
    }
}

impl StmtNode {
    /// The statements that are immediate parts of this one, in order.
    pub fn child_stmts(&self) -> (parts: Vec<StmtId>)
        ensures
            parts@ == self.kind@.parts(),
            forall|part: StmtId| #[trigger] parts@.contains(part) <==> self.kind@.has_part(part),
    {
        let mut parts: Vec<StmtId> = Vec::new();
        match &self.kind {
            StmtKind::Return(_) | StmtKind::Hole { .. } | StmtKind::Error(_) => {},
            StmtKind::Let { next, .. } => parts.push(*next),
            StmtKind::Call { next, .. } => parts.push(*next),
            StmtKind::Perform { next, .. } => parts.push(*next),
            StmtKind::Resume { next, .. } => parts.push(*next),
            StmtKind::Val { value, next, .. } => {
                parts.push(*value);
                parts.push(*next);
            },
            StmtKind::If { then_branch, else_branch, .. } => {
                parts.push(*then_branch);
                parts.push(*else_branch);
            },
            StmtKind::Match { arms, default, .. } => {
                let ghost models = crate::common::views(arms@);
                let mut i: usize = 0;
                while i < arms.len()
                    invariant
                        i <= arms@.len(),
                        models == crate::common::views(arms@),
                        parts@.len() == i,
                        forall|j: int| #![trigger parts@[j]] #![trigger models[j]]
                            0 <= j < i ==> parts@[j] == models[j].body,
                    decreases arms@.len() - i,
                {
                    parts.push(arms[i].body);
                    assert(models[i as int].body == arms@[i as int].body);
                    i += 1;
                }
                match default {
                    Some(next) => parts.push(*next),
                    None => {},
                }
                proof {
                    assert(self.kind@->Match_arms == models);
                    assert(parts@ =~= self.kind@.parts());
                    assert forall|part: StmtId| #[trigger]
                        parts@.contains(part) <==> self.kind@.has_part(part) by {
                        if parts@.contains(part) {
                            let j = choose|j: int| 0 <= j < parts@.len() && parts@[j] == part;
                            if j < models.len() {
                                assert(models[j].body == part);
                            }
                        }
                        if exists|j: int| 0 <= j < models.len() && (#[trigger] models[j]).body
                            == part {
                            let j = choose|j: int|
                                0 <= j < models.len() && (#[trigger] models[j]).body == part;
                            assert(parts@[j] == part);
                        }
                        if *default == Some(part) {
                            assert(parts@[models.len() as int] == part);
                        }
                    }
                }
                return parts;
            },
            StmtKind::Handle { body, next, .. } => {
                parts.push(*body);
                match next {
                    Some(next) => parts.push(*next),
                    None => {},
                }
            },
            StmtKind::Stage { body, next, .. } => {
                parts.push(*body);
                match next {
                    Some(next) => parts.push(*next),
                    None => {},
                }
            },
        }
        proof {
            assert(parts@ =~= self.kind@.parts());
            assert forall|part: StmtId| #[trigger] parts@.contains(part) <==> self.kind@.has_part(
                part,
            ) by {
                if parts@.len() > 0 {
                    assert(parts@.contains(parts@[0]));
                }
                if parts@.len() > 1 {
                    assert(parts@.contains(parts@[1]));
                }
            }
        }
        parts
    }

    /// The expressions that are immediate parts of this statement, in order.
    pub fn child_exprs(&self) -> (parts: Vec<ExprId>)
        ensures
            parts@ == self.kind@.expr_parts(),
            forall|part: ExprId| #[trigger] parts@.contains(part) <==> self.kind@.has_expr(part),
    {
        let mut parts: Vec<ExprId> = Vec::new();
        match &self.kind {
            StmtKind::Return(expr) => parts.push(*expr),
            StmtKind::Let { value, .. } => parts.push(*value),
            StmtKind::If { cond, .. } => parts.push(*cond),
            StmtKind::Match { scrutinee, .. } => parts.push(*scrutinee),
            StmtKind::Resume { arg, .. } => parts.push(*arg),
            StmtKind::Call { args, .. } => {
                parts = args.clone();
                assert(parts@ =~= args@);
                return parts;
            },
            StmtKind::Perform { args, .. } => {
                parts = args.clone();
                assert(parts@ =~= args@);
                return parts;
            },
            StmtKind::Val { .. }
            | StmtKind::Handle { .. }
            | StmtKind::Stage { .. }
            | StmtKind::Hole { .. }
            | StmtKind::Error(_) => {},
        }
        proof {
            if parts@.len() > 0 {
                assert(parts@.contains(parts@[0]));
            }
        }
        parts
    }
}

impl ExprNode {
    /// The expressions that are immediate parts of this one, in order.
    pub fn child_exprs(&self) -> (parts: Vec<ExprId>)
        ensures
            parts@ == self.kind@.parts(),
            forall|part: ExprId| #[trigger] parts@.contains(part) <==> self.kind@.has_part(part),
    {
        let mut parts: Vec<ExprId> = Vec::new();
        match &self.kind {
            ExprKind::Var(_) | ExprKind::Literal(_) | ExprKind::Error(_) => {},
            ExprKind::Unary { expr, .. } => parts.push(*expr),
            ExprKind::Binary { lhs, rhs, .. } => {
                parts.push(*lhs);
                parts.push(*rhs);
            },
            ExprKind::PureCall { args, .. } => {
                parts = args.clone();
                assert(parts@ =~= args@);
                return parts;
            },
            ExprKind::MakeStruct { fields, .. } => {
                parts = fields.clone();
                assert(parts@ =~= fields@);
                return parts;
            },
            ExprKind::MakeEnum { fields, .. } => {
                parts = fields.clone();
                assert(parts@ =~= fields@);
                return parts;
            },
        }
        proof {
            if parts@.len() > 0 {
                assert(parts@.contains(parts@[0]));
            }
            if parts@.len() > 1 {
                assert(parts@.contains(parts@[1]));
            }
        }
        parts
    }
}

// ---------------------------------------------------------------------------
// Copies
// ---------------------------------------------------------------------------

impl Clone for ExprKind {
    fn clone(&self) -> (copy: Self)
        ensures
            copy@ == self@,
    {
        match self {
            ExprKind::Var(var) => ExprKind::Var(*var),
            ExprKind::Literal(literal) => ExprKind::Literal(literal.clone()),
            ExprKind::Unary { op, expr } => ExprKind::Unary { op: *op, expr: *expr },
            ExprKind::Binary { op, lhs, rhs } => ExprKind::Binary {
                op: *op,
                lhs: *lhs,
                rhs: *rhs,
            },
            ExprKind::PureCall { callee, args } => ExprKind::PureCall {
                callee: *callee,
                args: copy_exprs(args),
            },
            ExprKind::MakeStruct { ty, fields } => ExprKind::MakeStruct {
                ty: *ty,
                fields: copy_exprs(fields),
            },
            ExprKind::MakeEnum { ty, variant, fields } => ExprKind::MakeEnum {
                ty: *ty,
                variant: *variant,
                fields: copy_exprs(fields),
            },
            ExprKind::Error(error) => ExprKind::Error(error.clone()),
        }
    }
}

pub fn copy_exprs(exprs: &Vec<ExprId>) -> (copy: Vec<ExprId>)
    ensures
        copy@ == exprs@,
{
    let copy = exprs.clone();
    assert(copy@ =~= exprs@);
    copy
}

pub fn copy_vars(vars: &Vec<VarId>) -> (copy: Vec<VarId>)
    ensures
        copy@ == vars@,
{
    let copy = vars.clone();
    assert(copy@ =~= vars@);
    copy
}

impl Clone for MatchArm {
    fn clone(&self) -> (copy: Self)
        ensures
            copy@ == self@,
    {
        MatchArm {
            tag: self.tag,
            binders: copy_vars(&self.binders),
            body: self.body,
            span: self.span,
        }
    }
}

pub fn copy_arms(arms: &Vec<MatchArm>) -> (copy: Vec<MatchArm>)
    ensures
        crate::common::views(copy@) == crate::common::views(arms@),
{
    let mut copy: Vec<MatchArm> = Vec::new();
    let mut i: usize = 0;
    while i < arms.len()
        invariant
            i <= arms@.len(),
            copy@.len() == i,
            forall|j: int| 0 <= j < i ==> (#[trigger] copy@[j])@ == arms@[j]@,
        decreases arms@.len() - i,
    {
        copy.push(arms[i].clone());
        i += 1;
    }
    assert(crate::common::views(copy@) =~= crate::common::views(arms@));
    copy
}

impl Clone for StmtKind {
    fn clone(&self) -> (copy: Self)
        ensures
            copy@ == self@,
    {
        match self {
            StmtKind::Return(expr) => StmtKind::Return(*expr),
            StmtKind::Let { binding, value, next } => StmtKind::Let {
                binding: *binding,
                value: *value,
                next: *next,
            },
            StmtKind::Val { binding, value, next } => StmtKind::Val {
                binding: *binding,
                value: *value,
                next: *next,
            },
            StmtKind::Call { result, callee, args, effects, next } => StmtKind::Call {
                result: *result,
                callee: *callee,
                args: copy_exprs(args),
                effects: effects.clone(),
                next: *next,
            },
            StmtKind::If { cond, then_branch, else_branch } => StmtKind::If {
                cond: *cond,
                then_branch: *then_branch,
                else_branch: *else_branch,
            },
            StmtKind::Match { scrutinee, arms, default } => StmtKind::Match {
                scrutinee: *scrutinee,
                arms: copy_arms(arms),
                default: *default,
            },
            StmtKind::Perform { result, effect, operation, args, next } => StmtKind::Perform {
                result: *result,
                effect: *effect,
                operation: *operation,
                args: copy_exprs(args),
                next: *next,
            },
            StmtKind::Resume { result, resume, arg, next } => StmtKind::Resume {
                result: *result,
                resume: *resume,
                arg: *arg,
                next: *next,
            },
            StmtKind::Handle { handler, body, next } => StmtKind::Handle {
                handler: *handler,
                body: *body,
                next: *next,
            },
            StmtKind::Stage { stage, body, next } => StmtKind::Stage {
                stage: *stage,
                body: *body,
                next: *next,
            },
            StmtKind::Hole { ty } => StmtKind::Hole { ty: *ty },
            StmtKind::Error(error) => StmtKind::Error(error.clone()),
        }
    }
}

impl Clone for FunctionDecl {
    fn clone(&self) -> (copy: Self)
        ensures
            copy@ == self@,
    {
        let param_types = self.param_types.clone();
        assert(param_types@ =~= self.param_types@);
        FunctionDecl {
            name: self.name,
            params: copy_vars(&self.params),
            param_types,
            return_type: self.return_type,
            declared_effects: self.declared_effects.clone(),
            body: self.body,
            ct_only: self.ct_only,
            span: self.span,
        }
    }
}

} // verus!
