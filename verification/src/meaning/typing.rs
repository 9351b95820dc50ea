//! A program that can be typed gets the types that it can be typed with.
use crate::common::ids::{EffectLabelId, ExprId, FuncId, HandlerId, StmtId, SymbolId, TypeId, VarId};
use crate::ir::core_ir::{
    BinaryOp, CoreModel, CoreTypeRef, EffectOpModel, ExprModel, LiteralModel,
    PrimitiveTypeRef, StmtModel, UnaryOp,
};
use crate::pipeline::tables::SemanticTables;
use crate::sema::typecheck::signatures::SignatureModel;
use crate::sema::typecheck::typing::Typing;
use vstd::prelude::*;

verus! {

/// A type for every expression, every variable and the result of every function.
pub struct Types {
    pub expr: spec_fn(ExprId) -> TypeId,
    pub var: spec_fn(VarId) -> TypeId,
    pub result: spec_fn(FuncId) -> TypeId,
}

pub open spec fn unit_type() -> TypeId {
    TypeId(0)
}

pub open spec fn bool_type() -> TypeId {
    TypeId(1)
}

pub open spec fn int_type() -> TypeId {
    TypeId(2)
}

pub open spec fn float_type() -> TypeId {
    TypeId(3)
}

pub open spec fn char_type() -> TypeId {
    TypeId(4)
}

pub open spec fn string_type() -> TypeId {
    TypeId(5)
}

pub open spec fn is_number(ty: TypeId) -> bool {
    ty == int_type() || ty == float_type()
}

/// The type that a literal is of.
pub open spec fn is_of(literal: LiteralModel, ty: TypeId) -> bool {
    &&& ty == unit_type() <==> literal is Unit
    &&& ty == bool_type() <==> literal is Bool
    &&& ty == int_type() <==> literal is Int
    &&& ty == float_type() <==> literal is Float
    &&& ty == char_type() <==> literal is Char
    &&& ty == string_type() <==> literal is String
}

/// The type that a declared type stands for.
pub open spec fn stands_for(p: CoreModel, ty: CoreTypeRef) -> Option<TypeId> {
    let ids = crate::sema::typecheck::signatures::declared(p).ids;
    match ty {
        CoreTypeRef::Unit => Some(unit_type()),
        CoreTypeRef::Primitive(PrimitiveTypeRef::Bool) => Some(bool_type()),
        CoreTypeRef::Primitive(PrimitiveTypeRef::Int) => Some(int_type()),
        CoreTypeRef::Primitive(PrimitiveTypeRef::Float) => Some(float_type()),
        CoreTypeRef::Primitive(PrimitiveTypeRef::Char) => Some(char_type()),
        CoreTypeRef::Primitive(PrimitiveTypeRef::String) => Some(string_type()),
        CoreTypeRef::Named(name) => if ids.contains_key(name.0) {
            Some(ids[name.0])
        } else {
            None
        },
        CoreTypeRef::Unknown => None,
    }
}

/// An operation that a program declares.
pub open spec fn declares(
    p: CoreModel,
    effect: EffectLabelId,
    operation: SymbolId,
    i: int,
    j: int,
) -> bool {
    &&& 0 <= i < p.effects.len()
    &&& 0 <= j < p.effects[i].operations.len()
    &&& p.effects[i].label == effect
    &&& p.effects[i].operations[j].name == operation
}

/// Whether a statement may return the value of an expression.
pub open spec fn may_return(p: CoreModel, s: StmtId, e: ExprId) -> bool
    decreases p.stmt_rank(s),
    when p.acyclic()
{
    proof {
        crate::passes::linearize::analysis::lemma_stmt_ranks(p, s);
    }
    p.has_stmt(s) && match p.stmt(s) {
        StmtModel::Return(value) => value == e,
        StmtModel::Let { next, .. } => may_return(p, next, e),
        StmtModel::Val { next, .. } => may_return(p, next, e),
        StmtModel::Call { next, .. } => may_return(p, next, e),
        StmtModel::Perform { next, .. } => may_return(p, next, e),
        StmtModel::Resume { next, .. } => may_return(p, next, e),
        StmtModel::If { .. } => exists|part: StmtId| #[trigger]
            p.stmt(s).has_part(part) && may_return(p, part, e),
        StmtModel::Match { .. } => exists|part: StmtId| #[trigger]
            p.stmt(s).has_part(part) && may_return(p, part, e),
        StmtModel::Handle { body, next, .. } => match next {
            Some(next) => may_return(p, next, e),
            None => may_return(p, body, e),
        },
        StmtModel::Stage { body, next, .. } => match next {
            Some(next) => may_return(p, next, e),
            None => may_return(p, body, e),
        },
        StmtModel::Hole { .. } => false,
        StmtModel::Error(_) => false,
    }
}

impl Types {
    /// Arguments have the types of parameters, as far as both go.
    pub open spec fn args_typed(self, args: Seq<ExprId>, params: Seq<VarId>) -> bool {
        forall|i: int|
            0 <= i < args.len() && i < params.len() ==> (self.expr)(#[trigger] args[i])
                == (self.var)(params[i])
    }

    pub open spec fn binary_typed(self, e: ExprId, op: BinaryOp, lhs: ExprId, rhs: ExprId) -> bool {
        let left = (self.expr)(lhs);
        let right = (self.expr)(rhs);
        let ty = (self.expr)(e);
        match op {
            BinaryOp::Add
            | BinaryOp::Sub
            | BinaryOp::Mul
            | BinaryOp::Div
            | BinaryOp::Mod => left == right && ty == left && is_number(ty),
            BinaryOp::Lt
            | BinaryOp::Le
            | BinaryOp::Gt
            | BinaryOp::Ge => left == right && is_number(left) && ty == bool_type(),
            BinaryOp::Eq | BinaryOp::Ne => left == right && ty == bool_type(),
            BinaryOp::And | BinaryOp::Or => left == bool_type() && right == bool_type() && ty
                == bool_type(),
        }
    }

    /// An expression is typed.
    pub open spec fn expr_typed(self, p: CoreModel, e: ExprId) -> bool {
        let ids = crate::sema::typecheck::signatures::declared(p).ids;
        match p.expr(e) {
            ExprModel::Literal(literal) => is_of(literal, (self.expr)(e)),
            ExprModel::Var(var) => (self.expr)(e) == (self.var)(var),
            ExprModel::Unary { op, expr } => (self.expr)(expr) == (self.expr)(e) && match op {
                UnaryOp::Neg => is_number((self.expr)(e)),
                UnaryOp::Not => (self.expr)(e) == bool_type(),
            },
            ExprModel::Binary { op, lhs, rhs } => self.binary_typed(e, op, lhs, rhs),
            ExprModel::PureCall { callee, args } => p.has_function(callee) ==> {
                &&& self.args_typed(args, p.function(callee).params)
                &&& (self.expr)(e) == (self.result)(callee)
            },
            ExprModel::MakeStruct { ty, .. } => ids.contains_key(ty.0) ==> (self.expr)(e)
                == ids[ty.0],
            ExprModel::MakeEnum { ty, .. } => ids.contains_key(ty.0) ==> (self.expr)(e)
                == ids[ty.0],
            ExprModel::Error(_) => true,
        }
    }

    /// All that a statement may return has one type.
    pub open spec fn gives_back(self, p: CoreModel, s: StmtId, ty: TypeId) -> bool {
        forall|e: ExprId| #[trigger] may_return(p, s, e) ==> (self.expr)(e) == ty
    }

    /// Arguments have the types that an operation declares.
    pub open spec fn op_args(self, p: CoreModel, args: Seq<ExprId>, op: EffectOpModel) -> bool {
        forall|i: int|
            0 <= i < args.len() && i < op.param_types.len() ==> (stands_for(
                p,
                op.param_types[i],
            ) matches Some(ty) ==> (self.expr)(#[trigger] args[i]) == ty)
    }

    pub open spec fn op_params(self, p: CoreModel, params: Seq<VarId>, op: EffectOpModel) -> bool {
        forall|i: int|
            0 <= i < params.len() && i < op.param_types.len() ==> (stands_for(
                p,
                op.param_types[i],
            ) matches Some(ty) ==> (self.var)(#[trigger] params[i]) == ty)
    }

    /// A handler that is installed round a body is typed.
    pub open spec fn handled(self, p: CoreModel, h: HandlerId, body: StmtId) -> bool {
        let def = p.handler(h);
        &&& self.gives_back(p, body, (self.var)(def.return_param))
        &&& self.gives_back(p, def.return_body, (self.var)(def.return_param))
        &&& forall|k: int|
            0 <= k < def.clauses.len() ==> {
                &&& self.gives_back(
                    p,
                    (#[trigger] def.clauses[k]).body,
                    (self.var)(def.return_param),
                )
                &&& forall|i: int, j: int| #[trigger]
                    declares(p, def.effect, def.clauses[k].operation, i, j) ==> self.op_params(
                        p,
                        def.clauses[k].params,
                        p.effects[i].operations[j],
                    )
            }
    }

    /// A statement is typed.
    pub open spec fn stmt_typed(self, p: CoreModel, s: StmtId) -> bool {
        match p.stmt(s) {
            StmtModel::Let { binding, value, .. } => (self.expr)(value) == (self.var)(binding),
            StmtModel::Val { binding, value, .. } => self.gives_back(p, value, (self.var)(binding)),
            StmtModel::Call { result, callee, args, .. } => p.has_function(callee) ==> {
                &&& self.args_typed(args, p.function(callee).params)
                &&& (self.var)(result) == (self.result)(callee)
            },
            StmtModel::If { cond, .. } => (self.expr)(cond) == bool_type(),
            StmtModel::Perform { result, effect, operation, args, .. } => {
                &&& forall|i: int, j: int| #[trigger]
                    declares(p, effect, operation, i, j) ==> {
                        let op = p.effects[i].operations[j];
                        &&& self.op_args(p, args, op)
                        &&& result matches Some(var) ==> (self.var)(var) == match stands_for(
                            p,
                            op.return_type,
                        ) {
                            Some(ty) => ty,
                            None => unit_type(),
                        }
                    }
                &&& result matches Some(var) ==> (self.var)(var) == unit_type() || exists|
                    i: int,
                    j: int,
                | #[trigger] declares(p, effect, operation, i, j)
            },
            StmtModel::Handle { handler, body, .. } => p.has_handler(handler) ==> self.handled(
                p,
                handler,
                body,
            ),
            _ => true,
        }
    }

    /// A function is typed: it takes and returns what it is declared to.
    pub open spec fn function_typed(self, p: CoreModel, f: FuncId) -> bool {
        let decl = p.function(f);
        &&& self.gives_back(p, decl.body, (self.result)(f))
        &&& decl.return_type != TypeId::spec_invalid() ==> (self.result)(f) == decl.return_type
        &&& forall|i: int|
            0 <= i < decl.params.len() && i < decl.param_types.len() && decl.param_types[i]
                != TypeId::spec_invalid() ==> (self.var)(#[trigger] decl.params[i])
                == decl.param_types[i]
    }

    /// The whole program is typed.
    pub open spec fn program_typed(self, p: CoreModel) -> bool {
        &&& forall|e: ExprId| #[trigger] p.has_expr(e) ==> self.expr_typed(p, e)
        &&& forall|s: StmtId| #[trigger] p.has_stmt(s) ==> self.stmt_typed(p, s)
        &&& forall|f: FuncId| #[trigger] p.has_function(f) ==> self.function_typed(p, f)
    }

    /// All that is known is as it is typed.
    pub open spec fn agrees(self, t: Typing) -> bool {
        &&& forall|e: usize| #[trigger]
            t.exprs.contains_key(e) ==> t.exprs[e] == (self.expr)(ExprId(e))
        &&& forall|v: usize| #[trigger]
            t.vars.contains_key(v) ==> t.vars[v] == (self.var)(VarId(v))
        &&& forall|f: usize| #[trigger]
            t.results.contains_key(f) ==> t.results[f] == (self.result)(FuncId(f))
    }
}

// ---------------------------------------------------------------------------
// What is returned
// ---------------------------------------------------------------------------

proof fn lemma_merged_in(list: Seq<ExprId>, more: Seq<ExprId>, first: nat, e: ExprId)
    requires
        first <= more.len(),
        crate::sema::typecheck::results::merged(list, more, first).contains(e),
    ensures
        list.contains(e) || more.contains(e),
    decreases first,
{
    if first > 0 {
        let rest = crate::sema::typecheck::results::merged(list, more, (first - 1) as nat);
        if rest.contains(e) {
            lemma_merged_in(list, more, (first - 1) as nat, e);
        } else {
            let pushed = rest.push(more[first - 1]);
            let i = choose|i: int| 0 <= i < pushed.len() && pushed[i] == e;
            if i < rest.len() {
                assert(rest[i] == e);
            }
            assert(more[first - 1] == e);
        }
    }
}

/// What is listed as returned may be returned.
pub proof fn lemma_results(p: CoreModel, s: StmtId, e: ExprId)
    requires
        p.acyclic(),
        crate::sema::typecheck::results::results(p, s).contains(e),
    ensures
        may_return(p, s, e),
    decreases p.stmt_rank(s), 1nat, 0nat,
{
    crate::passes::linearize::analysis::lemma_stmt_ranks(p, s);
    match p.stmt(s) {
        StmtModel::Let { next, .. } => lemma_results(p, next, e),
        StmtModel::Val { next, .. } => lemma_results(p, next, e),
        StmtModel::Call { next, .. } => lemma_results(p, next, e),
        StmtModel::Perform { next, .. } => lemma_results(p, next, e),
        StmtModel::Resume { next, .. } => lemma_results(p, next, e),
        StmtModel::If { then_branch, else_branch, .. } => {
            let first = crate::sema::typecheck::results::results(p, then_branch);
            let second = crate::sema::typecheck::results::results(p, else_branch);
            lemma_merged_in(first, second, second.len(), e);
            assert(p.stmt(s).has_part(then_branch));
            assert(p.stmt(s).has_part(else_branch));
            if first.contains(e) {
                lemma_results(p, then_branch, e);
            } else {
                lemma_results(p, else_branch, e);
            }
        },
        StmtModel::Match { arms, default, .. } => {
            let from_arms = crate::sema::typecheck::results::arms_return(p, s, arms.len());
            match default {
                Some(default) => {
                    let last = crate::sema::typecheck::results::results(p, default);
                    lemma_merged_in(from_arms, last, last.len(), e);
                    assert(p.stmt(s).has_part(default));
                    if from_arms.contains(e) {
                        lemma_arms_results(p, s, arms.len(), e);
                    } else {
                        lemma_results(p, default, e);
                    }
                },
                None => lemma_arms_results(p, s, arms.len(), e),
            }
        },
        StmtModel::Handle { body, next, .. } => match next {
            Some(next) => lemma_results(p, next, e),
            None => lemma_results(p, body, e),
        },
        StmtModel::Stage { body, next, .. } => match next {
            Some(next) => lemma_results(p, next, e),
            None => lemma_results(p, body, e),
        },
        _ => {},
    }
}

proof fn lemma_arms_results(p: CoreModel, s: StmtId, first: nat, e: ExprId)
    requires
        p.acyclic(),
        p.has_stmt(s),
        p.stmt(s) is Match,
        first <= p.stmt(s)->arms.len(),
        crate::sema::typecheck::results::arms_return(p, s, first).contains(e),
    ensures
        may_return(p, s, e),
    decreases p.stmt_rank(s), 0nat, first,
{
    if first > 0 {
        crate::passes::linearize::analysis::lemma_stmt_ranks(p, s);
        crate::ir::core_ir::lemma_arm_is_part(p.stmt(s), first - 1);
        let body = p.stmt(s)->arms[first - 1].body;
        let before = crate::sema::typecheck::results::arms_return(p, s, (first - 1) as nat);
        let own = crate::sema::typecheck::results::results(p, body);
        lemma_merged_in(before, own, own.len(), e);
        if before.contains(e) {
            lemma_arms_results(p, s, (first - 1) as nat, e);
        } else {
            lemma_results(p, body, e);
        }
    }
}

// ---------------------------------------------------------------------------
// Signatures
// ---------------------------------------------------------------------------

proof fn lemma_signature(p: CoreModel, first: int, k: int) -> (at: (int, int))
    requires
        0 <= first <= p.effects.len(),
        0 <= k < crate::sema::typecheck::signatures::signatures(
            p,
            crate::sema::typecheck::rules(p).ids,
            crate::sema::typecheck::rules(p).prim,
            first,
        ).len(),
    ensures
        ({
            let rules = crate::sema::typecheck::rules(p);
            let (i, j) = at;
            &&& 0 <= i < p.effects.len()
            &&& 0 <= j < p.effects[i].operations.len()
            &&& crate::sema::typecheck::signatures::signatures(p, rules.ids, rules.prim, first)[k]
                == crate::sema::typecheck::signatures::signature_of(
                rules.ids,
                rules.prim,
                p.effects[i].label,
                p.effects[i].operations[j],
            )
        }),
    decreases first,
{
    let rules = crate::sema::typecheck::rules(p);
    if first > 0 {
        let before = crate::sema::typecheck::signatures::signatures(
            p,
            rules.ids,
            rules.prim,
            first - 1,
        );
        if k < before.len() {
            lemma_signature(p, first - 1, k)
        } else {
            (first - 1, k - before.len())
        }
    } else {
        (0, 0)
    }
}

proof fn lemma_lookup(
    table: Seq<SignatureModel>,
    first: int,
    effect: EffectLabelId,
    operation: SymbolId,
) -> (k: int)
    requires
        first <= table.len(),
        crate::sema::typecheck::signatures::lookup(table, first, effect, operation) is Some,
    ensures
        0 <= k < table.len(),
        crate::sema::typecheck::signatures::lookup(table, first, effect, operation) == Some(
            table[k],
        ),
        table[k].effect == effect,
        table[k].operation == operation,
    decreases first,
{
    if first <= 0 {
        0
    } else if table[first - 1].effect == effect && table[first - 1].operation == operation {
        first - 1
    } else {
        lemma_lookup(table, first - 1, effect, operation)
    }
}

proof fn lemma_declared_listed(p: CoreModel, first: int, i: int, j: int) -> (k: int)
    requires
        0 <= i < first <= p.effects.len(),
        0 <= j < p.effects[i].operations.len(),
    ensures
        ({
            let rules = crate::sema::typecheck::rules(p);
            let table = crate::sema::typecheck::signatures::signatures(
                p,
                rules.ids,
                rules.prim,
                first,
            );
            &&& 0 <= k < table.len()
            &&& table[k].effect == p.effects[i].label
            &&& table[k].operation == p.effects[i].operations[j].name
        }),
    decreases first,
{
    let rules = crate::sema::typecheck::rules(p);
    let before = crate::sema::typecheck::signatures::signatures(
        p,
        rules.ids,
        rules.prim,
        first - 1,
    );
    if i < first - 1 {
        let k = lemma_declared_listed(p, first - 1, i, j);
        k
    } else {
        before.len() + j
    }
}

proof fn lemma_lookup_finds(
    table: Seq<SignatureModel>,
    first: int,
    effect: EffectLabelId,
    operation: SymbolId,
    k: int,
)
    requires
        0 <= k < first <= table.len(),
        table[k].effect == effect,
        table[k].operation == operation,
    ensures
        crate::sema::typecheck::signatures::lookup(table, first, effect, operation) is Some,
    decreases first,
{
    if k < first - 1 {
        lemma_lookup_finds(table, first - 1, effect, operation, k);
    }
}

/// An operation has a signature exactly where it is declared, and it is that of
/// a declaration.
proof fn lemma_rules_lookup(p: CoreModel, effect: EffectLabelId, operation: SymbolId)
    ensures
        match crate::sema::typecheck::rules(p).lookup(effect, operation) {
            Some(signature) => exists|i: int, j: int|
                {
                    let op = p.effects[i].operations[j];
                    &&& #[trigger] declares(p, effect, operation, i, j)
                    &&& signature.param_types.len() == op.param_types.len()
                    &&& forall|a: int|
                        0 <= a < op.param_types.len() ==> #[trigger] signature.param_types[a]
                            == stands_for(p, op.param_types[a])
                    &&& signature.return_type == stands_for(p, op.return_type)
                },
            None => forall|i: int, j: int| !#[trigger] declares(p, effect, operation, i, j),
        },
{
    let rules = crate::sema::typecheck::rules(p);
    match rules.lookup(effect, operation) {
        Some(signature) => {
            let k = lemma_lookup(rules.table, rules.table.len() as int, effect, operation);
            let (i, j) = lemma_signature(p, p.effects.len() as int, k);
            assert(declares(p, effect, operation, i, j));
        },
        None => {
            assert forall|i: int, j: int| !#[trigger] declares(p, effect, operation, i, j) by {
                if declares(p, effect, operation, i, j) {
                    let k = lemma_declared_listed(p, p.effects.len() as int, i, j);
                    lemma_lookup_finds(
                        rules.table,
                        rules.table.len() as int,
                        effect,
                        operation,
                        k,
                    );
                }
            }
        },
    }
}

// ---------------------------------------------------------------------------
// Inference finds nothing else
// ---------------------------------------------------------------------------

impl Types {
    proof fn lemma_set_var(self, t: Typing, var: VarId, ty: TypeId)
        requires
            self.agrees(t),
            (self.var)(var) == ty,
        ensures
            self.agrees(crate::sema::typecheck::typing::set_var(t, var, ty)),
    {
        assert(VarId(var.0) == var);
    }

    proof fn lemma_set_expr(self, p: CoreModel, t: Typing, e: ExprId, ty: TypeId)
        requires
            self.program_typed(p),
            self.agrees(t),
            (self.expr)(e) == ty,
        ensures
            self.agrees(crate::sema::typecheck::rules(p).set_expr(t, e, ty)),
    {
        assert(ExprId(e.0) == e);
        if p.has_expr(e) && p.expr(e) is Var {
            let var = p.expr(e)->Var_0;
            assert(self.expr_typed(p, e));
            assert(VarId(var.0) == var);
        }
    }

    proof fn lemma_set_result(self, p: CoreModel, t: Typing, f: FuncId, ty: TypeId)
        requires
            self.agrees(t),
            (self.result)(f) == ty,
        ensures
            self.agrees(crate::sema::typecheck::rules(p).set_result(t, f, ty)),
    {
        assert(FuncId(f.0) == f);
    }

    proof fn lemma_expr_var(self, p: CoreModel, t: Typing, e: ExprId, var: VarId)
        requires
            self.program_typed(p),
            self.agrees(t),
            (self.expr)(e) == (self.var)(var),
        ensures
            self.agrees(crate::sema::typecheck::rules(p).expr_var(t, e, var)),
    {
        assert(ExprId(e.0) == e && VarId(var.0) == var);
        let ty = (self.var)(var);
        self.lemma_set_expr(p, t, e, ty);
        let there = if t.vars.contains_key(var.0) {
            crate::sema::typecheck::rules(p).set_expr(t, e, t.vars[var.0])
        } else {
            t
        };
        if there.exprs.contains_key(e.0) {
            self.lemma_set_var(there, var, there.exprs[e.0]);
        }
    }

    proof fn lemma_expr_result(self, p: CoreModel, t: Typing, e: ExprId, f: FuncId)
        requires
            self.program_typed(p),
            self.agrees(t),
            (self.expr)(e) == (self.result)(f),
        ensures
            self.agrees(crate::sema::typecheck::rules(p).expr_result(t, e, f)),
    {
        assert(ExprId(e.0) == e && FuncId(f.0) == f);
        self.lemma_set_expr(p, t, e, (self.result)(f));
        let there = if t.results.contains_key(f.0) {
            crate::sema::typecheck::rules(p).set_expr(t, e, t.results[f.0])
        } else {
            t
        };
        if there.exprs.contains_key(e.0) {
            self.lemma_set_result(p, there, f, there.exprs[e.0]);
        }
    }

    proof fn lemma_var_result(self, p: CoreModel, t: Typing, var: VarId, f: FuncId)
        requires
            self.agrees(t),
            (self.var)(var) == (self.result)(f),
        ensures
            self.agrees(crate::sema::typecheck::rules(p).var_result(t, var, f)),
    {
        assert(VarId(var.0) == var && FuncId(f.0) == f);
        self.lemma_set_var(t, var, (self.result)(f));
        let there = if t.results.contains_key(f.0) {
            crate::sema::typecheck::typing::set_var(t, var, t.results[f.0])
        } else {
            t
        };
        if there.vars.contains_key(var.0) {
            self.lemma_set_result(p, there, f, there.vars[var.0]);
        }
    }

    proof fn lemma_exprs_var(
        self,
        p: CoreModel,
        t: Typing,
        exprs: Seq<ExprId>,
        var: VarId,
        first: nat,
    )
        requires
            self.program_typed(p),
            self.agrees(t),
            first <= exprs.len(),
            forall|i: int|
                0 <= i < exprs.len() ==> (self.expr)(#[trigger] exprs[i]) == (self.var)(var),
        ensures
            self.agrees(crate::sema::typecheck::rules(p).exprs_var(t, exprs, var, first)),
        decreases first,
    {
        if first > 0 {
            self.lemma_exprs_var(p, t, exprs, var, (first - 1) as nat);
            let rest = crate::sema::typecheck::rules(p).exprs_var(
                t,
                exprs,
                var,
                (first - 1) as nat,
            );
            self.lemma_expr_var(p, rest, exprs[first - 1], var);
        }
    }

    proof fn lemma_exprs_result(
        self,
        p: CoreModel,
        t: Typing,
        exprs: Seq<ExprId>,
        f: FuncId,
        first: nat,
    )
        requires
            self.program_typed(p),
            self.agrees(t),
            first <= exprs.len(),
            forall|i: int|
                0 <= i < exprs.len() ==> (self.expr)(#[trigger] exprs[i]) == (self.result)(f),
        ensures
            self.agrees(crate::sema::typecheck::rules(p).exprs_result(t, exprs, f, first)),
        decreases first,
    {
        if first > 0 {
            self.lemma_exprs_result(p, t, exprs, f, (first - 1) as nat);
            let rest = crate::sema::typecheck::rules(p).exprs_result(
                t,
                exprs,
                f,
                (first - 1) as nat,
            );
            self.lemma_expr_result(p, rest, exprs[first - 1], f);
        }
    }

    proof fn lemma_args_params(
        self,
        p: CoreModel,
        t: Typing,
        args: Seq<ExprId>,
        params: Seq<VarId>,
        first: nat,
    )
        requires
            self.program_typed(p),
            self.agrees(t),
            self.args_typed(args, params),
            first <= args.len(),
            first <= params.len(),
        ensures
            self.agrees(crate::sema::typecheck::rules(p).args_params(t, args, params, first)),
        decreases first,
    {
        if first > 0 {
            self.lemma_args_params(p, t, args, params, (first - 1) as nat);
            let rest = crate::sema::typecheck::rules(p).args_params(
                t,
                args,
                params,
                (first - 1) as nat,
            );
            self.lemma_expr_var(p, rest, args[first - 1], params[first - 1]);
        }
    }

    proof fn lemma_set_args(
        self,
        p: CoreModel,
        t: Typing,
        args: Seq<ExprId>,
        types: Seq<Option<TypeId>>,
        first: nat,
    )
        requires
            self.program_typed(p),
            self.agrees(t),
            first <= args.len(),
            first <= types.len(),
            forall|i: int|
                0 <= i < first ==> (#[trigger] types[i] matches Some(ty) ==> (self.expr)(args[i])
                    == ty),
        ensures
            self.agrees(crate::sema::typecheck::rules(p).set_args(t, args, types, first)),
        decreases first,
    {
        if first > 0 {
            self.lemma_set_args(p, t, args, types, (first - 1) as nat);
            let rest = crate::sema::typecheck::rules(p).set_args(
                t,
                args,
                types,
                (first - 1) as nat,
            );
            if let Some(ty) = types[first - 1] {
                self.lemma_set_expr(p, rest, args[first - 1], ty);
            }
        }
    }

    proof fn lemma_set_vars(
        self,
        t: Typing,
        vars: Seq<VarId>,
        types: Seq<Option<TypeId>>,
        first: nat,
    )
        requires
            self.agrees(t),
            first <= vars.len(),
            first <= types.len(),
            forall|i: int|
                0 <= i < first ==> (#[trigger] types[i] matches Some(ty) ==> (self.var)(vars[i])
                    == ty),
        ensures
            self.agrees(crate::sema::typecheck::typing::set_vars(t, vars, types, first)),
        decreases first,
    {
        if first > 0 {
            self.lemma_set_vars(t, vars, types, (first - 1) as nat);
            let rest = crate::sema::typecheck::typing::set_vars(
                t,
                vars,
                types,
                (first - 1) as nat,
            );
            if let Some(ty) = types[first - 1] {
                self.lemma_set_var(rest, vars[first - 1], ty);
            }
        }
    }

    proof fn lemma_call(
        self,
        p: CoreModel,
        t: Typing,
        callee: FuncId,
        args: Seq<ExprId>,
        expr: Option<ExprId>,
        var: Option<VarId>,
    )
        requires
            self.program_typed(p),
            self.agrees(t),
            p.has_function(callee) ==> self.args_typed(args, p.function(callee).params),
            p.has_function(callee) ==> (expr matches Some(e) ==> (self.expr)(e) == (self.result)(
                callee,
            )),
            p.has_function(callee) ==> (var matches Some(v) ==> (self.var)(v) == (self.result)(
                callee,
            )),
        ensures
            self.agrees(crate::sema::typecheck::rules(p).call(t, callee, args, expr, var)),
    {
        let r = crate::sema::typecheck::rules(p);
        if p.has_function(callee) {
            let params = p.function(callee).params;
            let n = crate::sema::typecheck::typing::shorter(args.len(), params.len());
            self.lemma_args_params(p, t, args, params, n);
            let t1 = r.args_params(t, args, params, n);
            let t2 = match expr {
                Some(e) => {
                    self.lemma_expr_result(p, t1, e, callee);
                    r.expr_result(t1, e, callee)
                },
                None => t1,
            };
            if let Some(v) = var {
                self.lemma_var_result(p, t2, v, callee);
            }
        }
    }

    proof fn lemma_binary(
        self,
        p: CoreModel,
        t: Typing,
        e: ExprId,
        op: BinaryOp,
        lhs: ExprId,
        rhs: ExprId,
    )
        requires
            self.program_typed(p),
            self.agrees(t),
            self.binary_typed(e, op, lhs, rhs),
        ensures
            self.agrees(crate::sema::typecheck::rules(p).binary(t, e, op, lhs, rhs)),
    {
        let r = crate::sema::typecheck::rules(p);
        assert(ExprId(lhs.0) == lhs && ExprId(rhs.0) == rhs && ExprId(e.0) == e);
        let left = (self.expr)(lhs);
        let right = (self.expr)(rhs);
        let ty = (self.expr)(e);
        self.lemma_set_expr(p, t, lhs, left);
        let a = r.set_expr(t, lhs, left);
        self.lemma_set_expr(p, a, rhs, right);
        let b = r.set_expr(a, rhs, right);
        self.lemma_set_expr(p, b, e, ty);
        self.lemma_set_expr(p, a, e, ty);
        self.lemma_set_expr(p, t, e, ty);
        self.lemma_set_expr(p, t, rhs, right);
        let c = r.set_expr(t, rhs, right);
        self.lemma_set_expr(p, c, e, ty);
    }

    proof fn lemma_infer(self, p: CoreModel, t: Typing, e: ExprId)
        requires
            p.acyclic(),
            self.program_typed(p),
            self.agrees(t),
        ensures
            self.agrees(crate::sema::typecheck::rules(p).infer(t, e)),
        decreases p.expr_rank(e), 1nat, 0nat,
    {
        let r = crate::sema::typecheck::rules(p);
        if p.has_expr(e) {
            assert(self.expr_typed(p, e));
            assert(ExprId(e.0) == e);
            match p.expr(e) {
                ExprModel::Literal(literal) => {
                    self.lemma_set_expr(p, t, e, (self.expr)(e));
                    assert(r.literal(literal) == (self.expr)(e));
                },
                ExprModel::Var(var) => self.lemma_expr_var(p, t, e, var),
                ExprModel::Unary { op, expr } => {
                    assert(ExprId(expr.0) == expr);
                    let ty = (self.expr)(e);
                    self.lemma_set_expr(p, t, expr, ty);
                    self.lemma_set_expr(p, r.set_expr(t, expr, ty), e, ty);
                },
                ExprModel::Binary { op, lhs, rhs } => self.lemma_binary(p, t, e, op, lhs, rhs),
                ExprModel::PureCall { callee, args } => self.lemma_call(
                    p,
                    t,
                    callee,
                    args,
                    Some(e),
                    None,
                ),
                ExprModel::MakeStruct { ty, fields } => {
                    self.lemma_set_expr(p, t, e, (self.expr)(e));
                    self.lemma_infer_fields(p, r.built(t, e, ty.0), e, fields.len());
                },
                ExprModel::MakeEnum { ty, fields, .. } => {
                    self.lemma_set_expr(p, t, e, (self.expr)(e));
                    self.lemma_infer_fields(p, r.built(t, e, ty.0), e, fields.len());
                },
                ExprModel::Error(_) => {},
            }
        }
    }

    proof fn lemma_infer_fields(self, p: CoreModel, t: Typing, e: ExprId, first: nat)
        requires
            p.acyclic(),
            self.program_typed(p),
            self.agrees(t),
        ensures
            self.agrees(crate::sema::typecheck::rules(p).infer_fields(t, e, first)),
        decreases p.expr_rank(e), 0nat, first,
    {
        let fields = crate::sema::typecheck::typing::fields_of(p.expr(e));
        if first > 0 && p.has_expr(e) && first <= fields.len() {
            crate::passes::linearize::analysis::lemma_expr_ranks(p, e);
            assert(fields.contains(fields[first - 1]));
            self.lemma_infer_fields(p, t, e, (first - 1) as nat);
            let rest = crate::sema::typecheck::rules(p).infer_fields(t, e, (first - 1) as nat);
            self.lemma_infer(p, rest, fields[first - 1]);
        }
    }

    proof fn lemma_results_var(self, p: CoreModel, t: Typing, s: StmtId, var: VarId)
        requires
            p.acyclic(),
            self.program_typed(p),
            self.agrees(t),
            self.gives_back(p, s, (self.var)(var)),
        ensures
            self.agrees(crate::sema::typecheck::rules(p).results_var(t, s, var)),
    {
        let exprs = crate::sema::typecheck::results::results(p, s);
        assert forall|i: int| 0 <= i < exprs.len() implies (self.expr)(#[trigger] exprs[i])
            == (self.var)(var) by {
            assert(exprs.contains(exprs[i]));
            lemma_results(p, s, exprs[i]);
        }
        self.lemma_exprs_var(p, t, exprs, var, exprs.len());
    }

    proof fn lemma_clauses(self, p: CoreModel, t: Typing, h: HandlerId, body: StmtId, first: nat)
        requires
            p.acyclic(),
            self.program_typed(p),
            self.agrees(t),
            self.handled(p, h, body),
            first <= p.handler(h).clauses.len(),
        ensures
            self.agrees(crate::sema::typecheck::rules(p).clauses(t, h, first)),
        decreases first,
    {
        if first > 0 {
            let r = crate::sema::typecheck::rules(p);
            self.lemma_clauses(p, t, h, body, (first - 1) as nat);
            let rest = r.clauses(t, h, (first - 1) as nat);
            let def = p.handler(h);
            let clause = def.clauses[first - 1];
            lemma_rules_lookup(p, def.effect, clause.operation);
            let t1 = match r.lookup(def.effect, clause.operation) {
                Some(signature) => {
                    let (i, j) = choose|i: int, j: int|
                        {
                            let op = p.effects[i].operations[j];
                            &&& #[trigger] declares(p, def.effect, clause.operation, i, j)
                            &&& signature.param_types.len() == op.param_types.len()
                            &&& forall|a: int|
                                0 <= a < op.param_types.len()
                                    ==> #[trigger] signature.param_types[a] == stands_for(
                                    p,
                                    op.param_types[a],
                                )
                            &&& signature.return_type == stands_for(p, op.return_type)
                        };
                    let op = p.effects[i].operations[j];
                    assert(self.op_params(p, clause.params, op));
                    let n = crate::sema::typecheck::typing::shorter(
                        clause.params.len(),
                        signature.param_types.len(),
                    );
                    assert forall|a: int|
                        0 <= a < n implies (#[trigger] signature.param_types[a] matches Some(ty)
                        ==> (self.var)(clause.params[a]) == ty) by {
                        assert(clause.params[a] == clause.params[a]);
                    }
                    self.lemma_set_vars(rest, clause.params, signature.param_types, n);
                    crate::sema::typecheck::typing::set_vars(
                        rest,
                        clause.params,
                        signature.param_types,
                        n,
                    )
                },
                None => rest,
            };
            self.lemma_results_var(p, t1, clause.body, def.return_param);
        }
    }

    proof fn lemma_perform(
        self,
        p: CoreModel,
        t: Typing,
        s: StmtId,
    )
        requires
            self.program_typed(p),
            self.agrees(t),
            p.has_stmt(s),
            p.stmt(s) is Perform,
        ensures
            self.agrees(crate::sema::typecheck::rules(p).constrain(t, s)),
    {
        let r = crate::sema::typecheck::rules(p);
        assert(self.stmt_typed(p, s));
        if let StmtModel::Perform { result, effect, operation, args, .. } = p.stmt(s) {
            lemma_rules_lookup(p, effect, operation);
            match r.lookup(effect, operation) {
                Some(signature) => {
                    let (i, j) = choose|i: int, j: int|
                        {
                            let op = p.effects[i].operations[j];
                            &&& #[trigger] declares(p, effect, operation, i, j)
                            &&& signature.param_types.len() == op.param_types.len()
                            &&& forall|a: int|
                                0 <= a < op.param_types.len()
                                    ==> #[trigger] signature.param_types[a] == stands_for(
                                    p,
                                    op.param_types[a],
                                )
                            &&& signature.return_type == stands_for(p, op.return_type)
                        };
                    let op = p.effects[i].operations[j];
                    assert(self.op_args(p, args, op));
                    let n = crate::sema::typecheck::typing::shorter(
                        args.len(),
                        signature.param_types.len(),
                    );
                    assert forall|a: int|
                        0 <= a < n implies (#[trigger] signature.param_types[a] matches Some(ty)
                        ==> (self.expr)(args[a]) == ty) by {
                        assert(args[a] == args[a]);
                    }
                    self.lemma_set_args(p, t, args, signature.param_types, n);
                    let t1 = r.set_args(t, args, signature.param_types, n);
                    if let Some(var) = result {
                        self.lemma_set_var(t1, var, (self.var)(var));
                    }
                },
                None => {
                    if let Some(var) = result {
                        self.lemma_set_var(t, var, (self.var)(var));
                    }
                },
            }
        }
    }

    proof fn lemma_constrain(self, p: CoreModel, t: Typing, s: StmtId)
        requires
            p.acyclic(),
            self.program_typed(p),
            self.agrees(t),
            p.has_stmt(s),
        ensures
            self.agrees(crate::sema::typecheck::rules(p).constrain(t, s)),
    {
        let r = crate::sema::typecheck::rules(p);
        assert(self.stmt_typed(p, s));
        match p.stmt(s) {
            StmtModel::Let { binding, value, .. } => self.lemma_expr_var(p, t, value, binding),
            StmtModel::Val { binding, value, .. } => self.lemma_results_var(p, t, value, binding),
            StmtModel::Call { result, callee, args, .. } => self.lemma_call(
                p,
                t,
                callee,
                args,
                None,
                Some(result),
            ),
            StmtModel::If { cond, .. } => self.lemma_set_expr(p, t, cond, bool_type()),
            StmtModel::Perform { .. } => self.lemma_perform(p, t, s),
            StmtModel::Handle { handler, body, .. } => {
                if p.has_handler(handler) {
                    let def = p.handler(handler);
                    self.lemma_results_var(p, t, body, def.return_param);
                    let t1 = r.results_var(t, body, def.return_param);
                    self.lemma_clauses(p, t1, handler, body, def.clauses.len());
                    let t2 = r.clauses(t1, handler, def.clauses.len());
                    self.lemma_results_var(p, t2, def.return_body, def.return_param);
                }
            },
            _ => {},
        }
    }

    proof fn lemma_infer_all(self, p: CoreModel, t: Typing, first: nat)
        requires
            p.acyclic(),
            self.program_typed(p),
            self.agrees(t),
        ensures
            self.agrees(crate::sema::typecheck::rules(p).infer_all(t, first)),
        decreases first,
    {
        if first > 0 {
            self.lemma_infer_all(p, t, (first - 1) as nat);
            let rest = crate::sema::typecheck::rules(p).infer_all(t, (first - 1) as nat);
            self.lemma_infer(p, rest, ExprId((first - 1) as usize));
        }
    }

    proof fn lemma_constrain_all(self, p: CoreModel, t: Typing, first: nat)
        requires
            p.acyclic(),
            self.program_typed(p),
            self.agrees(t),
            first <= p.stmts.len() <= usize::MAX,
        ensures
            self.agrees(crate::sema::typecheck::rules(p).constrain_all(t, first)),
        decreases first,
    {
        if first > 0 {
            self.lemma_constrain_all(p, t, (first - 1) as nat);
            let rest = crate::sema::typecheck::rules(p).constrain_all(t, (first - 1) as nat);
            self.lemma_constrain(p, rest, StmtId((first - 1) as usize));
        }
    }

    proof fn lemma_functions_all(self, p: CoreModel, t: Typing, first: nat)
        requires
            p.acyclic(),
            self.program_typed(p),
            self.agrees(t),
            first <= p.functions.len() <= usize::MAX,
        ensures
            self.agrees(crate::sema::typecheck::rules(p).functions_all(t, first)),
        decreases first,
    {
        if first > 0 {
            self.lemma_functions_all(p, t, (first - 1) as nat);
            let rest = crate::sema::typecheck::rules(p).functions_all(t, (first - 1) as nat);
            let f = FuncId((first - 1) as usize);
            assert(p.has_function(f));
            assert(self.function_typed(p, f));
            let exprs = crate::sema::typecheck::results::results(p, p.function(f).body);
            assert forall|i: int| 0 <= i < exprs.len() implies (self.expr)(#[trigger] exprs[i])
                == (self.result)(f) by {
                assert(exprs.contains(exprs[i]));
                lemma_results(p, p.function(f).body, exprs[i]);
            }
            self.lemma_exprs_result(p, rest, exprs, f, exprs.len());
        }
    }

    proof fn lemma_rounds(self, p: CoreModel, t: Typing, n: nat)
        requires
            p.acyclic(),
            self.program_typed(p),
            self.agrees(t),
            p.stmts.len() <= usize::MAX,
            p.functions.len() <= usize::MAX,
        ensures
            self.agrees(crate::sema::typecheck::rules(p).rounds(t, n)),
        decreases n,
    {
        if n > 0 {
            let r = crate::sema::typecheck::rules(p);
            self.lemma_rounds(p, t, (n - 1) as nat);
            let t0 = r.rounds(t, (n - 1) as nat);
            self.lemma_infer_all(p, t0, p.exprs.len());
            let t1 = r.infer_all(t0, p.exprs.len());
            self.lemma_constrain_all(p, t1, p.stmts.len());
            let t2 = r.constrain_all(t1, p.stmts.len());
            self.lemma_functions_all(p, t2, p.functions.len());
        }
    }

    proof fn lemma_params_declared(self, p: CoreModel, t: Typing, f: FuncId, first: nat)
        requires
            self.program_typed(p),
            self.agrees(t),
            p.has_function(f),
            first <= p.function(f).params.len(),
            first <= p.function(f).param_types.len(),
        ensures
            self.agrees(crate::sema::typecheck::params_declared(t, p.function(f), first)),
        decreases first,
    {
        if first > 0 {
            let decl = p.function(f);
            self.lemma_params_declared(p, t, f, (first - 1) as nat);
            let rest = crate::sema::typecheck::params_declared(t, decl, (first - 1) as nat);
            assert(self.function_typed(p, f));
            if decl.param_types[first - 1] != TypeId::spec_invalid() {
                assert((self.var)(decl.params[first - 1]) == decl.param_types[first - 1]);
                self.lemma_set_var(rest, decl.params[first - 1], decl.param_types[first - 1]);
            }
        }
    }

    proof fn lemma_functions_declared(self, p: CoreModel, t: Typing, first: nat)
        requires
            self.program_typed(p),
            self.agrees(t),
            first <= p.functions.len() <= usize::MAX,
        ensures
            self.agrees(crate::sema::typecheck::functions_declared(t, p, first)),
        decreases first,
    {
        if first > 0 {
            self.lemma_functions_declared(p, t, (first - 1) as nat);
            let rest = crate::sema::typecheck::functions_declared(t, p, (first - 1) as nat);
            let f = FuncId((first - 1) as usize);
            assert(p.has_function(f));
            let decl = p.function(f);
            self.lemma_params_declared(
                p,
                rest,
                f,
                crate::sema::typecheck::typing::shorter(
                    decl.params.len(),
                    decl.param_types.len(),
                ),
            );
        }
    }

    proof fn lemma_start(self, p: CoreModel)
        requires
            self.program_typed(p),
            p.functions.len() <= usize::MAX,
        ensures
            self.agrees(crate::sema::typecheck::start(p)),
    {
        let t = Typing {
            exprs: Map::empty(),
            vars: Map::empty(),
            results: crate::sema::typecheck::declared_results(p),
        };
        assert forall|f: usize| #[trigger] t.results.contains_key(f) implies t.results[f]
            == (self.result)(FuncId(f)) by {
            assert(p.has_function(FuncId(f)));
            assert(self.function_typed(p, FuncId(f)));
        }
        self.lemma_functions_declared(p, t, p.functions.len());
    }
}

/// Where a program can be typed, every type that inference puts into its tables
/// is the type that the expression has, in every way of typing the program.
pub proof fn lemma_types_are_right(
    p: CoreModel,
    types: Types,
    end: Typing,
    sema: SemanticTables,
    e: ExprId,
)
    requires
        p.acyclic(),
        types.program_typed(p),
        p.exprs.len() <= usize::MAX,
        p.stmts.len() <= usize::MAX,
        p.functions.len() <= usize::MAX,
        crate::sema::typecheck::rules(p).settles(crate::sema::typecheck::start(p), end),
        crate::sema::typecheck::tables_hold(p, end, sema),
        p.has_expr(e),
    ensures
        sema.type_of_expr@.len() == p.exprs.len(),
        sema.type_of_expr@[e.0 as int] matches Some(ty) ==> ty == (types.expr)(e),
{
    let r = crate::sema::typecheck::rules(p);
    let start = crate::sema::typecheck::start(p);
    let n = choose|n: nat| #[trigger] r.rounds(start, n) == end;
    types.lemma_start(p);
    types.lemma_rounds(p, start, n);
    assert(ExprId(e.0) == e);
}

/// The type that inference has found for an expression.
pub open spec fn has_type(sema: SemanticTables, e: ExprId) -> bool {
    e.0 < sema.type_of_expr@.len() && sema.type_of_expr@[e.0 as int] is Some
}

/// Where the operands of an operator have types, inference finds one for what
/// the operator gives; and one for every literal, every condition, and every
/// value of a declared type.
pub proof fn lemma_types_are_found(p: CoreModel, end: Typing, sema: SemanticTables, e: ExprId)
    requires
        p.acyclic(),
        p.closed(),
        p.exprs.len() <= usize::MAX,
        p.stmts.len() <= usize::MAX,
        crate::sema::typecheck::rules(p).settles(crate::sema::typecheck::start(p), end),
        crate::sema::typecheck::tables_hold(p, end, sema),
        p.has_expr(e),
    ensures
        match p.expr(e) {
            ExprModel::Literal(_) => has_type(sema, e),
            ExprModel::Unary { op, expr } => match op {
                UnaryOp::Not => has_type(sema, e) && has_type(sema, expr),
                UnaryOp::Neg => has_type(sema, expr) && is_number(
                    sema.type_of_expr@[expr.0 as int]->0,
                ) ==> has_type(sema, e),
            },
            ExprModel::Binary { op, lhs, rhs } => {
                let same = has_type(sema, lhs) && has_type(sema, rhs)
                    && sema.type_of_expr@[lhs.0 as int] == sema.type_of_expr@[rhs.0 as int];
                match op {
                    BinaryOp::Eq | BinaryOp::Ne => same ==> has_type(sema, e),
                    BinaryOp::And | BinaryOp::Or => has_type(sema, lhs) && has_type(sema, rhs),
                    _ => same && is_number(sema.type_of_expr@[lhs.0 as int]->0) ==> has_type(
                        sema,
                        e,
                    ),
                }
            },
            ExprModel::PureCall { callee, .. } => p.has_function(callee) && p.function(
                callee,
            ).return_type != TypeId::spec_invalid() ==> has_type(sema, e),
            ExprModel::MakeStruct { ty, .. } => crate::sema::typecheck::rules(p).ids.contains_key(
                ty.0,
            ) ==> has_type(sema, e),
            ExprModel::MakeEnum { ty, .. } => crate::sema::typecheck::rules(p).ids.contains_key(
                ty.0,
            ) ==> has_type(sema, e),
            _ => true,
        },
{
    let r = crate::sema::typecheck::rules(p);
    r.lemma_nothing_more(end);
    assert(r.infer(end, e) == end);
    assert forall|x: ExprId| #[trigger] p.has_expr(x) implies (has_type(sema, x)
        <==> end.exprs.contains_key(x.0)) by {}
    match p.expr(e) {
        ExprModel::Unary { op, expr } => {
            assert(p.expr(e).has_part(expr));
            assert(p.has_expr(expr));
            match op {
                UnaryOp::Not => {
                    let a = r.set_expr(end, expr, r.prim.bool_);
                    assert(r.set_expr(a, e, r.prim.bool_) == end);
                    assert(end.exprs.contains_key(expr.0) && end.exprs.contains_key(e.0));
                },
                UnaryOp::Neg => {},
            }
        },
        ExprModel::Binary { op, lhs, rhs } => {
            assert(p.expr(e).has_part(lhs) && p.expr(e).has_part(rhs));
            assert(p.has_expr(lhs) && p.has_expr(rhs));
        },
        ExprModel::PureCall { callee, args } => {
            if p.has_function(callee) {
                r.lemma_settles_grows(crate::sema::typecheck::start(p), end);
                lemma_result_known(p, callee);
                let params = p.function(callee).params;
                let n = crate::sema::typecheck::typing::shorter(args.len(), params.len());
                let t1 = r.args_params(end, args, params, n);
                r.lemma_args_params_grows(end, args, params, n);
            }
        },
        ExprModel::MakeStruct { ty, fields } => {
            r.lemma_infer_fields_grows(r.built(end, e, ty.0), e, fields.len());
        },
        ExprModel::MakeEnum { ty, fields, .. } => {
            r.lemma_infer_fields_grows(r.built(end, e, ty.0), e, fields.len());
        },
        _ => {},
    }
}

proof fn lemma_params_keep_results(
    t: Typing,
    f: crate::ir::core_ir::FunctionModel,
    first: nat,
)
    ensures
        crate::sema::typecheck::params_declared(t, f, first).results == t.results,
    decreases first,
{
    if first > 0 {
        lemma_params_keep_results(t, f, (first - 1) as nat);
    }
}

proof fn lemma_functions_keep_results(t: Typing, p: CoreModel, first: nat)
    ensures
        crate::sema::typecheck::functions_declared(t, p, first).results == t.results,
    decreases first,
{
    if first > 0 {
        lemma_functions_keep_results(t, p, (first - 1) as nat);
        let f = p.functions[first - 1];
        lemma_params_keep_results(
            crate::sema::typecheck::functions_declared(t, p, (first - 1) as nat),
            f,
            crate::sema::typecheck::typing::shorter(f.params.len(), f.param_types.len()),
        );
    }
}

/// What a function is declared to return is known from the start.
proof fn lemma_result_known(p: CoreModel, f: FuncId)
    requires
        p.has_function(f),
    ensures
        p.function(f).return_type != TypeId::spec_invalid()
            ==> crate::sema::typecheck::start(p).results.contains_key(f.0),
{
    let t = Typing {
        exprs: Map::empty(),
        vars: Map::empty(),
        results: crate::sema::typecheck::declared_results(p),
    };
    lemma_functions_keep_results(t, p, p.functions.len());
}

} // verus!
