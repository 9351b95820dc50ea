//! Inference: what is known of one node is carried to the nodes that must have
//! the same type, round after round, until a round adds nothing.
use super::results::precompute_stmt_returns;
use super::signatures::{
    find_signature, EffectSignature, PrimitiveTypeIds, SignatureModel,
};
use crate::common::densemap::DenseMap;
use crate::common::ids::{
    EffectLabelId, ExprId, FuncId, HandlerId, StmtId, SymbolId, TypeId, VarId,
};
use crate::ir::core_ir::{
    BinaryOp, ClauseModel, CoreModel, CoreProgram, ExprKind, ExprModel, HandlerClause, Literal,
    LiteralModel, StmtKind, StmtModel, UnaryOp,
};
use std::collections::HashMap;
use vstd::prelude::*;

verus! {

/// The types that are known: of expressions, of variables and of what functions
/// return.
#[verifier::ext_equal]
pub struct Typing {
    pub exprs: Map<usize, TypeId>,
    pub vars: Map<usize, TypeId>,
    pub results: Map<usize, TypeId>,
}

/// Every entry of a map is in another, unchanged.
pub open spec fn kept(before: Map<usize, TypeId>, after: Map<usize, TypeId>) -> bool {
    forall|k: usize|
        #![trigger before.contains_key(k)]
        #![trigger after.contains_key(k)]
        before.contains_key(k) ==> after.contains_key(k) && after[k] == before[k]
}

/// Everything known stays known, as it was.
pub open spec fn grows(before: Typing, after: Typing) -> bool {
    &&& kept(before.exprs, after.exprs)
    &&& kept(before.vars, after.vars)
    &&& kept(before.results, after.results)
}

/// A program with its declared types and signatures.
pub struct Rules {
    pub p: CoreModel,
    pub ids: Map<usize, TypeId>,
    pub prim: PrimitiveTypeIds,
    pub table: Seq<SignatureModel>,
}

/// The fields of an expression that builds a value.
pub open spec fn fields_of(e: ExprModel) -> Seq<ExprId> {
    match e {
        ExprModel::MakeStruct { fields, .. } => fields,
        ExprModel::MakeEnum { fields, .. } => fields,
        _ => Seq::empty(),
    }
}

/// The shorter of two lengths.
pub open spec fn shorter(a: nat, b: nat) -> nat {
    if a <= b {
        a
    } else {
        b
    }
}

pub open spec fn set_var(t: Typing, var: VarId, ty: TypeId) -> Typing {
    if t.vars.contains_key(var.0) {
        t
    } else {
        Typing { vars: t.vars.insert(var.0, ty), ..t }
    }
}

/// The types of variables in a list, as far as they are given.
pub open spec fn set_vars(
    t: Typing,
    vars: Seq<VarId>,
    types: Seq<Option<TypeId>>,
    first: nat,
) -> Typing
    decreases first,
{
    if first == 0 {
        t
    } else {
        let rest = set_vars(t, vars, types, (first - 1) as nat);
        match types[first - 1] {
            Some(ty) => set_var(rest, vars[first - 1], ty),
            None => rest,
        }
    }
}

impl Rules {
    pub open spec fn set_expr(self, t: Typing, e: ExprId, ty: TypeId) -> Typing {
        let own = if !self.p.has_expr(e) || t.exprs.contains_key(e.0) {
            t
        } else {
            Typing { exprs: t.exprs.insert(e.0, ty), ..t }
        };
        if self.p.has_expr(e) && self.p.expr(e) is Var {
            set_var(own, self.p.expr(e)->Var_0, ty)
        } else {
            own
        }
    }

    pub open spec fn set_result(self, t: Typing, f: FuncId, ty: TypeId) -> Typing {
        if !self.p.has_function(f) || t.results.contains_key(f.0) {
            t
        } else {
            Typing { results: t.results.insert(f.0, ty), ..t }
        }
    }

    /// An expression and a variable have one type.
    pub open spec fn expr_var(self, t: Typing, e: ExprId, var: VarId) -> Typing {
        let there = if t.vars.contains_key(var.0) {
            self.set_expr(t, e, t.vars[var.0])
        } else {
            t
        };
        if there.exprs.contains_key(e.0) {
            set_var(there, var, there.exprs[e.0])
        } else {
            there
        }
    }

    /// An expression has the type that a function returns.
    pub open spec fn expr_result(self, t: Typing, e: ExprId, f: FuncId) -> Typing {
        let there = if t.results.contains_key(f.0) {
            self.set_expr(t, e, t.results[f.0])
        } else {
            t
        };
        if there.exprs.contains_key(e.0) {
            self.set_result(there, f, there.exprs[e.0])
        } else {
            there
        }
    }

    /// A variable has the type that a function returns.
    pub open spec fn var_result(self, t: Typing, var: VarId, f: FuncId) -> Typing {
        let there = if t.results.contains_key(f.0) {
            set_var(t, var, t.results[f.0])
        } else {
            t
        };
        if there.vars.contains_key(var.0) {
            self.set_result(there, f, there.vars[var.0])
        } else {
            there
        }
    }

    /// The first expressions of a list all have the type of a variable.
    pub open spec fn exprs_var(
        self,
        t: Typing,
        exprs: Seq<ExprId>,
        var: VarId,
        first: nat,
    ) -> Typing
        decreases first,
    {
        if first == 0 {
            t
        } else {
            self.expr_var(
                self.exprs_var(t, exprs, var, (first - 1) as nat),
                exprs[first - 1],
                var,
            )
        }
    }

    /// The first expressions of a list all have the type that a function returns.
    pub open spec fn exprs_result(
        self,
        t: Typing,
        exprs: Seq<ExprId>,
        f: FuncId,
        first: nat,
    ) -> Typing
        decreases first,
    {
        if first == 0 {
            t
        } else {
            self.expr_result(
                self.exprs_result(t, exprs, f, (first - 1) as nat),
                exprs[first - 1],
                f,
            )
        }
    }

    /// The first arguments have the types of the parameters.
    pub open spec fn args_params(
        self,
        t: Typing,
        args: Seq<ExprId>,
        params: Seq<VarId>,
        first: nat,
    ) -> Typing
        decreases first,
    {
        if first == 0 {
            t
        } else {
            self.expr_var(
                self.args_params(t, args, params, (first - 1) as nat),
                args[first - 1],
                params[first - 1],
            )
        }
    }

    /// The types of the first arguments, as far as they are given.
    pub open spec fn set_args(
        self,
        t: Typing,
        args: Seq<ExprId>,
        types: Seq<Option<TypeId>>,
        first: nat,
    ) -> Typing
        decreases first,
    {
        if first == 0 {
            t
        } else {
            let rest = self.set_args(t, args, types, (first - 1) as nat);
            match types[first - 1] {
                Some(ty) => self.set_expr(rest, args[first - 1], ty),
                None => rest,
            }
        }
    }

    /// A call, of which an expression or a variable has the result.
    pub open spec fn call(
        self,
        t: Typing,
        callee: FuncId,
        args: Seq<ExprId>,
        expr: Option<ExprId>,
        var: Option<VarId>,
    ) -> Typing {
        if self.p.has_function(callee) {
            let params = self.p.function(callee).params;
            let t1 = self.args_params(t, args, params, shorter(args.len(), params.len()));
            let t2 = match expr {
                Some(e) => self.expr_result(t1, e, callee),
                None => t1,
            };
            match var {
                Some(v) => self.var_result(t2, v, callee),
                None => t2,
            }
        } else {
            t
        }
    }

    pub open spec fn literal(self, literal: LiteralModel) -> TypeId {
        match literal {
            LiteralModel::Unit => self.prim.unit,
            LiteralModel::Bool(_) => self.prim.bool_,
            LiteralModel::Int(_) => self.prim.int,
            LiteralModel::Float(_) => self.prim.float,
            LiteralModel::Char(_) => self.prim.char_,
            LiteralModel::String(_) => self.prim.string,
        }
    }

    pub open spec fn numeric(self, ty: TypeId) -> bool {
        ty == self.prim.int || ty == self.prim.float
    }

    /// The number type that one of two nodes is known to have; that of the first
    /// node counts.
    pub open spec fn number(self, t: Typing, a: ExprId, b: ExprId) -> Option<TypeId> {
        if t.exprs.contains_key(a.0) && self.numeric(t.exprs[a.0]) {
            Some(t.exprs[a.0])
        } else if t.exprs.contains_key(b.0) && self.numeric(t.exprs[b.0]) {
            Some(t.exprs[b.0])
        } else {
            None
        }
    }

    /// Two expressions are known to have one type.
    pub open spec fn same_type(self, t: Typing, a: ExprId, b: ExprId) -> bool {
        t.exprs.contains_key(a.0) && t.exprs.contains_key(b.0) && t.exprs[a.0] == t.exprs[b.0]
    }

    pub open spec fn unary(self, t: Typing, e: ExprId, op: UnaryOp, inner: ExprId) -> Typing {
        match op {
            UnaryOp::Neg => match self.number(t, inner, e) {
                Some(ty) => self.set_expr(self.set_expr(t, inner, ty), e, ty),
                None => t,
            },
            UnaryOp::Not => self.set_expr(
                self.set_expr(t, inner, self.prim.bool_),
                e,
                self.prim.bool_,
            ),
        }
    }

    /// Both sides of an operation on numbers are numbers of one type.
    pub open spec fn numbers(self, t: Typing, lhs: ExprId, rhs: ExprId) -> Typing {
        match self.number(t, lhs, rhs) {
            Some(ty) => self.set_expr(self.set_expr(t, lhs, ty), rhs, ty),
            None => t,
        }
    }

    pub open spec fn arithmetic(self, t: Typing, e: ExprId, lhs: ExprId, rhs: ExprId) -> Typing {
        let t1 = self.numbers(t, lhs, rhs);
        if self.same_type(t1, lhs, rhs) && self.numeric(t1.exprs[lhs.0]) {
            self.set_expr(t1, e, t1.exprs[lhs.0])
        } else {
            t1
        }
    }

    pub open spec fn comparison(self, t: Typing, e: ExprId, lhs: ExprId, rhs: ExprId) -> Typing {
        let t1 = self.numbers(t, lhs, rhs);
        if self.same_type(t1, lhs, rhs) && self.numeric(t1.exprs[lhs.0]) {
            self.set_expr(t1, e, self.prim.bool_)
        } else {
            t1
        }
    }

    pub open spec fn equality(self, t: Typing, e: ExprId, lhs: ExprId, rhs: ExprId) -> Typing {
        let t1 = if t.exprs.contains_key(lhs.0) && !t.exprs.contains_key(rhs.0) {
            self.set_expr(t, rhs, t.exprs[lhs.0])
        } else if !t.exprs.contains_key(lhs.0) && t.exprs.contains_key(rhs.0) {
            self.set_expr(t, lhs, t.exprs[rhs.0])
        } else {
            t
        };
        if self.same_type(t1, lhs, rhs) {
            self.set_expr(t1, e, self.prim.bool_)
        } else {
            t1
        }
    }

    pub open spec fn logic(self, t: Typing, e: ExprId, lhs: ExprId, rhs: ExprId) -> Typing {
        let t1 = self.set_expr(self.set_expr(t, lhs, self.prim.bool_), rhs, self.prim.bool_);
        if self.same_type(t1, lhs, rhs) && t1.exprs[lhs.0] == self.prim.bool_ {
            self.set_expr(t1, e, self.prim.bool_)
        } else {
            t1
        }
    }

    pub open spec fn binary(
        self,
        t: Typing,
        e: ExprId,
        op: BinaryOp,
        lhs: ExprId,
        rhs: ExprId,
    ) -> Typing {
        match op {
            BinaryOp::Add => self.arithmetic(t, e, lhs, rhs),
            BinaryOp::Sub => self.arithmetic(t, e, lhs, rhs),
            BinaryOp::Mul => self.arithmetic(t, e, lhs, rhs),
            BinaryOp::Div => self.arithmetic(t, e, lhs, rhs),
            BinaryOp::Mod => self.arithmetic(t, e, lhs, rhs),
            BinaryOp::Eq => self.equality(t, e, lhs, rhs),
            BinaryOp::Ne => self.equality(t, e, lhs, rhs),
            BinaryOp::Lt => self.comparison(t, e, lhs, rhs),
            BinaryOp::Le => self.comparison(t, e, lhs, rhs),
            BinaryOp::Gt => self.comparison(t, e, lhs, rhs),
            BinaryOp::Ge => self.comparison(t, e, lhs, rhs),
            BinaryOp::And => self.logic(t, e, lhs, rhs),
            BinaryOp::Or => self.logic(t, e, lhs, rhs),
        }
    }

    /// An expression that builds a value of a declared type.
    pub open spec fn built(self, t: Typing, e: ExprId, name: usize) -> Typing {
        if self.ids.contains_key(name) {
            self.set_expr(t, e, self.ids[name])
        } else {
            t
        }
    }

    /// What an expression says about types.
    pub open spec fn infer(self, t: Typing, e: ExprId) -> Typing
        decreases self.p.expr_rank(e), 1nat, 0nat,
        when self.p.acyclic()
    {
        if self.p.has_expr(e) {
            match self.p.expr(e) {
                ExprModel::Literal(literal) => self.set_expr(t, e, self.literal(literal)),
                ExprModel::Var(var) => self.expr_var(t, e, var),
                ExprModel::Unary { op, expr } => self.unary(t, e, op, expr),
                ExprModel::Binary { op, lhs, rhs } => self.binary(t, e, op, lhs, rhs),
                ExprModel::PureCall { callee, args } => self.call(t, callee, args, Some(e), None),
                ExprModel::MakeStruct { ty, fields } => self.infer_fields(
                    self.built(t, e, ty.0),
                    e,
                    fields.len(),
                ),
                ExprModel::MakeEnum { ty, fields, .. } => self.infer_fields(
                    self.built(t, e, ty.0),
                    e,
                    fields.len(),
                ),
                ExprModel::Error(_) => t,
            }
        } else {
            t
        }
    }

    /// What the first fields of an expression say about types.
    pub open spec fn infer_fields(self, t: Typing, e: ExprId, first: nat) -> Typing
        decreases self.p.expr_rank(e), 0nat, first,
        when self.p.acyclic()
    {
        if first > 0 && self.p.has_expr(e) && first <= fields_of(self.p.expr(e)).len() {
            proof {
                crate::passes::linearize::analysis::lemma_expr_ranks(self.p, e);
                assert(fields_of(self.p.expr(e)).contains(fields_of(self.p.expr(e))[first - 1]));
            }
            self.infer(
                self.infer_fields(t, e, (first - 1) as nat),
                fields_of(self.p.expr(e))[first - 1],
            )
        } else {
            t
        }
    }

    /// The signature of an operation, if one was declared.
    pub open spec fn lookup(
        self,
        effect: EffectLabelId,
        operation: SymbolId,
    ) -> Option<SignatureModel> {
        crate::sema::typecheck::signatures::lookup(
            self.table,
            self.table.len() as int,
            effect,
            operation,
        )
    }

    /// A performed operation: its arguments and its result.
    pub open spec fn perform(
        self,
        t: Typing,
        result: Option<VarId>,
        effect: EffectLabelId,
        operation: SymbolId,
        args: Seq<ExprId>,
    ) -> Typing {
        match self.lookup(effect, operation) {
            Some(signature) => {
                let t1 = self.set_args(
                    t,
                    args,
                    signature.param_types,
                    shorter(args.len(), signature.param_types.len()),
                );
                match result {
                    Some(var) => match signature.return_type {
                        Some(ty) => set_var(t1, var, ty),
                        None => set_var(t1, var, self.prim.unit),
                    },
                    None => t1,
                }
            },
            None => match result {
                Some(var) => set_var(t, var, self.prim.unit),
                None => t,
            },
        }
    }

    /// What a statement may return has the type of a variable.
    pub open spec fn results_var(self, t: Typing, s: StmtId, var: VarId) -> Typing {
        let exprs = crate::sema::typecheck::results::results(self.p, s);
        self.exprs_var(t, exprs, var, exprs.len())
    }

    /// A clause of a handler: its parameters, and what it returns.
    pub open spec fn clause(self, t: Typing, h: HandlerId, clause: ClauseModel) -> Typing {
        let t1 = match self.lookup(self.p.handler(h).effect, clause.operation) {
            Some(signature) => set_vars(
                t,
                clause.params,
                signature.param_types,
                shorter(clause.params.len(), signature.param_types.len()),
            ),
            None => t,
        };
        self.results_var(t1, clause.body, self.p.handler(h).return_param)
    }

    pub open spec fn clauses(self, t: Typing, h: HandlerId, first: nat) -> Typing
        decreases first,
    {
        if first == 0 {
            t
        } else {
            self.clause(
                self.clauses(t, h, (first - 1) as nat),
                h,
                self.p.handler(h).clauses[first - 1],
            )
        }
    }

    /// A handled body: what it, the clauses and the return body return has the
    /// type of the parameter of the return body.
    pub open spec fn handle(self, t: Typing, h: HandlerId, body: StmtId) -> Typing {
        if self.p.has_handler(h) {
            let def = self.p.handler(h);
            let t1 = self.results_var(t, body, def.return_param);
            let t2 = self.clauses(t1, h, def.clauses.len());
            self.results_var(t2, def.return_body, def.return_param)
        } else {
            t
        }
    }

    /// What a statement says about types.
    pub open spec fn constrain(self, t: Typing, s: StmtId) -> Typing {
        match self.p.stmt(s) {
            StmtModel::Let { binding, value, .. } => self.expr_var(t, value, binding),
            StmtModel::Val { binding, value, .. } => self.results_var(t, value, binding),
            StmtModel::Call { result, callee, args, .. } => self.call(
                t,
                callee,
                args,
                None,
                Some(result),
            ),
            StmtModel::If { cond, .. } => self.set_expr(t, cond, self.prim.bool_),
            StmtModel::Perform { result, effect, operation, args, .. } => self.perform(
                t,
                result,
                effect,
                operation,
                args,
            ),
            StmtModel::Handle { handler, body, .. } => self.handle(t, handler, body),
            _ => t,
        }
    }

    pub open spec fn infer_all(self, t: Typing, first: nat) -> Typing
        decreases first,
    {
        if first == 0 {
            t
        } else {
            self.infer(self.infer_all(t, (first - 1) as nat), ExprId((first - 1) as usize))
        }
    }

    pub open spec fn constrain_all(self, t: Typing, first: nat) -> Typing
        decreases first,
    {
        if first == 0 {
            t
        } else {
            self.constrain(self.constrain_all(t, (first - 1) as nat), StmtId((first - 1) as usize))
        }
    }

    pub open spec fn functions_all(self, t: Typing, first: nat) -> Typing
        decreases first,
    {
        if first == 0 {
            t
        } else {
            let exprs = crate::sema::typecheck::results::results(
                self.p,
                self.p.functions[first - 1].body,
            );
            self.exprs_result(
                self.functions_all(t, (first - 1) as nat),
                exprs,
                FuncId((first - 1) as usize),
                exprs.len(),
            )
        }
    }

    /// One round: all expressions, then all statements, then all functions.
    pub open spec fn round(self, t: Typing) -> Typing {
        self.functions_all(
            self.constrain_all(
                self.infer_all(t, self.p.exprs.len()),
                self.p.stmts.len(),
            ),
            self.p.functions.len(),
        )
    }

    pub open spec fn rounds(self, t: Typing, n: nat) -> Typing
        decreases n,
    {
        if n == 0 {
            t
        } else {
            self.round(self.rounds(t, (n - 1) as nat))
        }
    }

    /// Rounds lead from one state of knowledge to another, which no further
    /// round changes.
    pub open spec fn settles(self, start: Typing, end: Typing) -> bool {
        &&& self.round(end) == end
        &&& exists|n: nat| #[trigger] self.rounds(start, n) == end
    }
}

// ---------------------------------------------------------------------------
// Knowledge grows
// ---------------------------------------------------------------------------

proof fn lemma_set_vars_grows(t: Typing, vars: Seq<VarId>, types: Seq<Option<TypeId>>, first: nat)
    ensures
        grows(t, set_vars(t, vars, types, first)),
    decreases first,
{
    if first > 0 {
        lemma_set_vars_grows(t, vars, types, (first - 1) as nat);
    }
}

impl Rules {
    proof fn lemma_exprs_var_grows(self, t: Typing, exprs: Seq<ExprId>, var: VarId, first: nat)
        ensures
            grows(t, self.exprs_var(t, exprs, var, first)),
        decreases first,
    {
        if first > 0 {
            self.lemma_exprs_var_grows(t, exprs, var, (first - 1) as nat);
        }
    }

    proof fn lemma_exprs_result_grows(self, t: Typing, exprs: Seq<ExprId>, f: FuncId, first: nat)
        ensures
            grows(t, self.exprs_result(t, exprs, f, first)),
        decreases first,
    {
        if first > 0 {
            self.lemma_exprs_result_grows(t, exprs, f, (first - 1) as nat);
        }
    }

    pub proof fn lemma_args_params_grows(
        self,
        t: Typing,
        args: Seq<ExprId>,
        params: Seq<VarId>,
        first: nat,
    )
        ensures
            grows(t, self.args_params(t, args, params, first)),
        decreases first,
    {
        if first > 0 {
            self.lemma_args_params_grows(t, args, params, (first - 1) as nat);
        }
    }

    proof fn lemma_set_args_grows(
        self,
        t: Typing,
        args: Seq<ExprId>,
        types: Seq<Option<TypeId>>,
        first: nat,
    )
        ensures
            grows(t, self.set_args(t, args, types, first)),
        decreases first,
    {
        if first > 0 {
            self.lemma_set_args_grows(t, args, types, (first - 1) as nat);
        }
    }

    proof fn lemma_call_grows(
        self,
        t: Typing,
        callee: FuncId,
        args: Seq<ExprId>,
        expr: Option<ExprId>,
        var: Option<VarId>,
    )
        ensures
            grows(t, self.call(t, callee, args, expr, var)),
    {
        if self.p.has_function(callee) {
            let params = self.p.function(callee).params;
            self.lemma_args_params_grows(t, args, params, shorter(args.len(), params.len()));
        }
    }

    proof fn lemma_infer_grows(self, t: Typing, e: ExprId)
        requires
            self.p.acyclic(),
        ensures
            grows(t, self.infer(t, e)),
        decreases self.p.expr_rank(e), 1nat, 0nat,
    {
        if self.p.has_expr(e) {
            match self.p.expr(e) {
                ExprModel::PureCall { callee, args } => {
                    self.lemma_call_grows(t, callee, args, Some(e), None);
                },
                ExprModel::MakeStruct { ty, fields } => {
                    self.lemma_infer_fields_grows(self.built(t, e, ty.0), e, fields.len());
                },
                ExprModel::MakeEnum { ty, fields, .. } => {
                    self.lemma_infer_fields_grows(self.built(t, e, ty.0), e, fields.len());
                },
                _ => {},
            }
        }
    }

    pub proof fn lemma_infer_fields_grows(self, t: Typing, e: ExprId, first: nat)
        requires
            self.p.acyclic(),
        ensures
            grows(t, self.infer_fields(t, e, first)),
        decreases self.p.expr_rank(e), 0nat, first,
    {
        if first > 0 && self.p.has_expr(e) && first <= fields_of(self.p.expr(e)).len() {
            crate::passes::linearize::analysis::lemma_expr_ranks(self.p, e);
            assert(fields_of(self.p.expr(e)).contains(fields_of(self.p.expr(e))[first - 1]));
            self.lemma_infer_fields_grows(t, e, (first - 1) as nat);
            self.lemma_infer_grows(
                self.infer_fields(t, e, (first - 1) as nat),
                fields_of(self.p.expr(e))[first - 1],
            );
        }
    }

    proof fn lemma_clauses_grows(self, t: Typing, h: HandlerId, first: nat)
        ensures
            grows(t, self.clauses(t, h, first)),
        decreases first,
    {
        if first > 0 {
            self.lemma_clauses_grows(t, h, (first - 1) as nat);
            let t0 = self.clauses(t, h, (first - 1) as nat);
            let clause = self.p.handler(h).clauses[first - 1];
            let t1 = match self.lookup(self.p.handler(h).effect, clause.operation) {
                Some(signature) => {
                    let n = shorter(clause.params.len(), signature.param_types.len());
                    lemma_set_vars_grows(t0, clause.params, signature.param_types, n);
                    set_vars(t0, clause.params, signature.param_types, n)
                },
                None => t0,
            };
            let exprs = crate::sema::typecheck::results::results(self.p, clause.body);
            self.lemma_exprs_var_grows(t1, exprs, self.p.handler(h).return_param, exprs.len());
        }
    }

    proof fn lemma_constrain_grows(self, t: Typing, s: StmtId)
        ensures
            grows(t, self.constrain(t, s)),
    {
        match self.p.stmt(s) {
            StmtModel::Val { binding, value, .. } => {
                let exprs = crate::sema::typecheck::results::results(self.p, value);
                self.lemma_exprs_var_grows(t, exprs, binding, exprs.len());
            },
            StmtModel::Call { result, callee, args, .. } => {
                self.lemma_call_grows(t, callee, args, None, Some(result));
            },
            StmtModel::Perform { effect, operation, args, .. } => {
                if let Some(signature) = self.lookup(effect, operation) {
                    self.lemma_set_args_grows(
                        t,
                        args,
                        signature.param_types,
                        shorter(args.len(), signature.param_types.len()),
                    );
                }
            },
            StmtModel::Handle { handler, body, .. } => {
                if self.p.has_handler(handler) {
                    let def = self.p.handler(handler);
                    let exprs = crate::sema::typecheck::results::results(self.p, body);
                    self.lemma_exprs_var_grows(t, exprs, def.return_param, exprs.len());
                    let t1 = self.results_var(t, body, def.return_param);
                    self.lemma_clauses_grows(t1, handler, def.clauses.len());
                    let t2 = self.clauses(t1, handler, def.clauses.len());
                    let last = crate::sema::typecheck::results::results(self.p, def.return_body);
                    self.lemma_exprs_var_grows(t2, last, def.return_param, last.len());
                }
            },
            _ => {},
        }
    }

    proof fn lemma_infer_all_grows(self, t: Typing, first: nat)
        requires
            self.p.acyclic(),
        ensures
            grows(t, self.infer_all(t, first)),
        decreases first,
    {
        if first > 0 {
            self.lemma_infer_all_grows(t, (first - 1) as nat);
            self.lemma_infer_grows(
                self.infer_all(t, (first - 1) as nat),
                ExprId((first - 1) as usize),
            );
        }
    }

    proof fn lemma_constrain_all_grows(self, t: Typing, first: nat)
        ensures
            grows(t, self.constrain_all(t, first)),
        decreases first,
    {
        if first > 0 {
            self.lemma_constrain_all_grows(t, (first - 1) as nat);
            self.lemma_constrain_grows(
                self.constrain_all(t, (first - 1) as nat),
                StmtId((first - 1) as usize),
            );
        }
    }

    proof fn lemma_functions_all_grows(self, t: Typing, first: nat)
        ensures
            grows(t, self.functions_all(t, first)),
        decreases first,
    {
        if first > 0 {
            self.lemma_functions_all_grows(t, (first - 1) as nat);
            let exprs = crate::sema::typecheck::results::results(
                self.p,
                self.p.functions[first - 1].body,
            );
            self.lemma_exprs_result_grows(
                self.functions_all(t, (first - 1) as nat),
                exprs,
                FuncId((first - 1) as usize),
                exprs.len(),
            );
        }
    }

    /// A round takes nothing back.
    pub proof fn lemma_round_grows(self, t: Typing)
        requires
            self.p.acyclic(),
        ensures
            grows(t, self.round(t)),
    {
        self.lemma_infer_all_grows(t, self.p.exprs.len());
        let t1 = self.infer_all(t, self.p.exprs.len());
        self.lemma_constrain_all_grows(t1, self.p.stmts.len());
        let t2 = self.constrain_all(t1, self.p.stmts.len());
        self.lemma_functions_all_grows(t2, self.p.functions.len());
    }

    /// Inference takes nothing back: what is known at the start is known, as it
    /// was, at the end.
    pub proof fn lemma_settles_grows(self, start: Typing, end: Typing)
        requires
            self.p.acyclic(),
            self.settles(start, end),
        ensures
            grows(start, end),
    {
        let n = choose|n: nat| #[trigger] self.rounds(start, n) == end;
        self.lemma_rounds_grow(start, n);
    }

    proof fn lemma_rounds_grow(self, start: Typing, n: nat)
        requires
            self.p.acyclic(),
        ensures
            grows(start, self.rounds(start, n)),
        decreases n,
    {
        if n > 0 {
            self.lemma_rounds_grow(start, (n - 1) as nat);
            self.lemma_round_grows(self.rounds(start, (n - 1) as nat));
        }
    }

    proof fn lemma_infer_all_onward(self, t: Typing, first: nat, more: nat)
        requires
            self.p.acyclic(),
            first <= more,
        ensures
            grows(self.infer_all(t, first), self.infer_all(t, more)),
        decreases more,
    {
        if first < more {
            self.lemma_infer_all_onward(t, first, (more - 1) as nat);
            self.lemma_infer_grows(
                self.infer_all(t, (more - 1) as nat),
                ExprId((more - 1) as usize),
            );
        }
    }

    proof fn lemma_constrain_all_onward(self, t: Typing, first: nat, more: nat)
        requires
            first <= more,
        ensures
            grows(self.constrain_all(t, first), self.constrain_all(t, more)),
        decreases more,
    {
        if first < more {
            self.lemma_constrain_all_onward(t, first, (more - 1) as nat);
            self.lemma_constrain_grows(
                self.constrain_all(t, (more - 1) as nat),
                StmtId((more - 1) as usize),
            );
        }
    }

    /// Where a round changes nothing, no expression and no statement says anything
    /// about types that is not known.
    pub proof fn lemma_nothing_more(self, end: Typing)
        requires
            self.p.acyclic(),
            self.round(end) == end,
            self.p.exprs.len() <= usize::MAX,
            self.p.stmts.len() <= usize::MAX,
        ensures
            forall|e: ExprId| #[trigger] self.p.has_expr(e) ==> self.infer(end, e) == end,
            forall|s: StmtId| #[trigger] self.p.has_stmt(s) ==> self.constrain(end, s) == end,
    {
        let n = self.p.exprs.len();
        let m = self.p.stmts.len();
        let t1 = self.infer_all(end, n);
        let t2 = self.constrain_all(t1, m);
        self.lemma_infer_all_grows(end, n);
        self.lemma_constrain_all_grows(t1, m);
        self.lemma_functions_all_grows(t2, self.p.functions.len());
        assert(t1 =~= end);
        assert(t2 =~= end);
        assert forall|e: ExprId| #[trigger] self.p.has_expr(e) implies self.infer(end, e) == end by {
            let i = e.0 as nat;
            self.lemma_infer_all_grows(end, i);
            self.lemma_infer_all_onward(end, i, n);
            assert(self.infer_all(end, i) =~= end);
            self.lemma_infer_all_grows(end, i + 1);
            self.lemma_infer_all_onward(end, i + 1, n);
            assert(self.infer_all(end, i + 1) =~= end);
            assert(ExprId(i as usize) == e);
        }
        assert forall|s: StmtId| #[trigger] self.p.has_stmt(s) implies self.constrain(end, s)
            == end by {
            let i = s.0 as nat;
            self.lemma_constrain_all_grows(end, i);
            self.lemma_constrain_all_onward(end, i, m);
            assert(self.constrain_all(end, i) =~= end);
            self.lemma_constrain_all_grows(end, i + 1);
            self.lemma_constrain_all_onward(end, i + 1, m);
            assert(self.constrain_all(end, i + 1) =~= end);
            assert(StmtId(i as usize) == s);
        }
    }

    /// Where inference starts decides where it ends.
    pub proof fn lemma_settles_once(self, start: Typing, a: Typing, b: Typing)
        requires
            self.settles(start, a),
            self.settles(start, b),
        ensures
            a == b,
    {
        let m = choose|n: nat| #[trigger] self.rounds(start, n) == a;
        let n = choose|n: nat| #[trigger] self.rounds(start, n) == b;
        if m <= n {
            self.lemma_stays(start, a, m, n);
        } else {
            self.lemma_stays(start, b, n, m);
        }
    }

    proof fn lemma_stays(self, start: Typing, end: Typing, m: nat, n: nat)
        requires
            self.rounds(start, m) == end,
            self.round(end) == end,
            m <= n,
        ensures
            self.rounds(start, n) == end,
        decreases n - m,
    {
        if m < n {
            self.lemma_stays(start, end, m, (n - 1) as nat);
        }
    }
}

// ---------------------------------------------------------------------------
// Carrying types from node to node
// ---------------------------------------------------------------------------

/// The types that are known, in tables.
#[derive(Debug)]
pub struct TypeState {
    pub exprs: DenseMap<TypeId>,
    pub vars: DenseMap<TypeId>,
    pub results: DenseMap<TypeId>,
}

impl View for TypeState {
    type V = Typing;

    open spec fn view(&self) -> Typing {
        Typing { exprs: self.exprs@, vars: self.vars@, results: self.results@ }
    }
}

impl TypeState {
    fn expr(&self, e: ExprId) -> (ty: Option<TypeId>)
        ensures
            ty == (if self@.exprs.contains_key(e.0) {
                Some(self@.exprs[e.0])
            } else {
                None
            }),
    {
        match self.exprs.get(e.0) {
            Some(ty) => Some(*ty),
            None => None,
        }
    }

    fn var(&self, var: VarId) -> (ty: Option<TypeId>)
        ensures
            ty == (if self@.vars.contains_key(var.0) {
                Some(self@.vars[var.0])
            } else {
                None
            }),
    {
        match self.vars.get(var.0) {
            Some(ty) => Some(*ty),
            None => None,
        }
    }

    fn result(&self, f: FuncId) -> (ty: Option<TypeId>)
        ensures
            ty == (if self@.results.contains_key(f.0) {
                Some(self@.results[f.0])
            } else {
                None
            }),
    {
        match self.results.get(f.0) {
            Some(ty) => Some(*ty),
            None => None,
        }
    }

    pub(crate) fn set_var_type(&mut self, var: VarId, ty: TypeId)
        ensures
            final(self)@ == set_var(old(self)@, var, ty),
    {
        if !self.vars.contains_key(var.0) {
            self.vars.insert(var.0, ty);
        }
    }

    fn set_var_types(&mut self, vars: &Vec<VarId>, types: &Vec<Option<TypeId>>)
        ensures
            final(self)@ == set_vars(
                old(self)@,
                vars@,
                types@,
                shorter(vars@.len(), types@.len()),
            ),
    {
        let ghost before = self@;
        let mut i: usize = 0;
        while i < vars.len() && i < types.len()
            invariant
                i <= shorter(vars@.len(), types@.len()),
                self@ == set_vars(before, vars@, types@, i as nat),
            decreases vars@.len() - i,
        {
            if let Some(ty) = types[i] {
                self.set_var_type(vars[i], ty);
            }
            i += 1;
        }
    }

    /// How many entries there are.
    fn counts(&self) -> (n: (usize, usize, usize))
        ensures
            self@.exprs.dom().finite(),
            self@.vars.dom().finite(),
            self@.results.dom().finite(),
            n.0 == self@.exprs.dom().len(),
            n.1 == self@.vars.dom().len(),
            n.2 == self@.results.dom().len(),
    {
        (self.exprs.len(), self.vars.len(), self.results.len())
    }
}

/// What inference needs to know of a program.
pub(crate) struct TypeChecker<'a> {
    pub program: &'a CoreProgram,
    pub adt_types: &'a HashMap<usize, TypeId>,
    pub prim: PrimitiveTypeIds,
    pub signatures: &'a Vec<EffectSignature>,
    pub stmt_returns: Vec<Vec<ExprId>>,
}

impl<'a> TypeChecker<'a> {
    pub(crate) open spec fn rules(self) -> Rules {
        Rules {
            p: self.program@,
            ids: self.adt_types@,
            prim: self.prim,
            table: crate::common::views(self.signatures@),
        }
    }

    pub(crate) open spec fn ready(self) -> bool {
        &&& self.program@.acyclic()
        &&& self.program@.closed()
        &&& self.stmt_returns@.len() == self.program@.stmts.len()
        &&& forall|i: int|
            0 <= i < self.stmt_returns@.len() ==> (#[trigger] self.stmt_returns@[i])@
                == crate::sema::typecheck::results::results(self.program@, StmtId(i as usize))
    }

    pub(crate) fn new(
        program: &'a CoreProgram,
        adt_types: &'a HashMap<usize, TypeId>,
        prim: PrimitiveTypeIds,
        signatures: &'a Vec<EffectSignature>,
    ) -> (checker: Self)
        requires
            program@.acyclic(),
            program@.closed(),
        ensures
            checker.ready(),
            checker.rules() == (Rules {
                p: program@,
                ids: adt_types@,
                prim,
                table: crate::common::views(signatures@),
            }),
    {
        let stmt_returns = precompute_stmt_returns(program);
        TypeChecker { program, adt_types, prim, signatures, stmt_returns }
    }

    fn set_expr_type(&self, state: &mut TypeState, e: ExprId, ty: TypeId)
        ensures
            final(state)@ == self.rules().set_expr(old(state)@, e, ty),
    {
        if let Some(node) = self.program.expr(e) {
            if !state.exprs.contains_key(e.0) {
                state.exprs.insert(e.0, ty);
            }
            if let ExprKind::Var(var) = &node.kind {
                state.set_var_type(*var, ty);
            }
        }
    }

    fn set_func_return_type(&self, state: &mut TypeState, f: FuncId, ty: TypeId)
        ensures
            final(state)@ == self.rules().set_result(old(state)@, f, ty),
    {
        if f.0 < self.program.functions.len() && !state.results.contains_key(f.0) {
            state.results.insert(f.0, ty);
        }
    }

    fn unify_expr_with_var(&self, state: &mut TypeState, e: ExprId, var: VarId)
        ensures
            final(state)@ == self.rules().expr_var(old(state)@, e, var),
    {
        if let Some(ty) = state.var(var) {
            self.set_expr_type(state, e, ty);
        }
        if let Some(ty) = state.expr(e) {
            state.set_var_type(var, ty);
        }
    }

    fn unify_expr_with_func_return(&self, state: &mut TypeState, e: ExprId, f: FuncId)
        ensures
            final(state)@ == self.rules().expr_result(old(state)@, e, f),
    {
        if let Some(ty) = state.result(f) {
            self.set_expr_type(state, e, ty);
        }
        if let Some(ty) = state.expr(e) {
            self.set_func_return_type(state, f, ty);
        }
    }

    fn unify_var_with_func_return(&self, state: &mut TypeState, var: VarId, f: FuncId)
        ensures
            final(state)@ == self.rules().var_result(old(state)@, var, f),
    {
        if let Some(ty) = state.result(f) {
            state.set_var_type(var, ty);
        }
        if let Some(ty) = state.var(var) {
            self.set_func_return_type(state, f, ty);
        }
    }

    fn unify_exprs_with_var(&self, state: &mut TypeState, exprs: &Vec<ExprId>, var: VarId)
        ensures
            final(state)@ == self.rules().exprs_var(old(state)@, exprs@, var, exprs@.len()),
    {
        let ghost before = state@;
        let mut i: usize = 0;
        while i < exprs.len()
            invariant
                i <= exprs@.len(),
                state@ == self.rules().exprs_var(before, exprs@, var, i as nat),
            decreases exprs@.len() - i,
        {
            self.unify_expr_with_var(state, exprs[i], var);
            i += 1;
        }
    }

    /// What a statement may return has the type of a variable.
    fn unify_returns_with_var(&self, state: &mut TypeState, s: StmtId, var: VarId)
        requires
            self.ready(),
            self.program@.has_stmt(s),
        ensures
            final(state)@ == self.rules().results_var(old(state)@, s, var),
    {
        self.unify_exprs_with_var(state, &self.stmt_returns[s.0], var);
    }

    fn constrain_call_signature(
        &self,
        state: &mut TypeState,
        callee: FuncId,
        args: &Vec<ExprId>,
        result_expr: Option<ExprId>,
        result_var: Option<VarId>,
    )
        ensures
            final(state)@ == self.rules().call(
                old(state)@,
                callee,
                args@,
                result_expr,
                result_var,
            ),
    {
        let ghost before = state@;
        if let Some(function) = self.program.function(callee) {
            let params = &function.params;
            let mut i: usize = 0;
            while i < args.len() && i < params.len()
                invariant
                    i <= shorter(args@.len(), params@.len()),
                    state@ == self.rules().args_params(before, args@, params@, i as nat),
                decreases args@.len() - i,
            {
                self.unify_expr_with_var(state, args[i], params[i]);
                i += 1;
            }
            assert(i == shorter(args@.len(), params@.len()));
            if let Some(e) = result_expr {
                self.unify_expr_with_func_return(state, e, callee);
            }
            if let Some(var) = result_var {
                self.unify_var_with_func_return(state, var, callee);
            }
        }
    }

    fn type_for_literal(&self, literal: &Literal) -> (ty: TypeId)
        ensures
            ty == self.rules().literal(literal@),
    {
        match literal {
            Literal::Unit => self.prim.unit,
            Literal::Bool(_) => self.prim.bool_,
            Literal::Int(_) => self.prim.int,
            Literal::Float(_) => self.prim.float,
            Literal::Char(_) => self.prim.char_,
            Literal::String(_) => self.prim.string,
        }
    }

    fn is_numeric(&self, ty: TypeId) -> (b: bool)
        ensures
            b == self.rules().numeric(ty),
    {
        ty == self.prim.int || ty == self.prim.float
    }

    fn numeric_type(&self, state: &TypeState, a: ExprId, b: ExprId) -> (found: Option<TypeId>)
        ensures
            found == self.rules().number(state@, a, b),
    {
        if let Some(ty) = state.expr(a) {
            if self.is_numeric(ty) {
                return Some(ty);
            }
        }
        if let Some(ty) = state.expr(b) {
            if self.is_numeric(ty) {
                return Some(ty);
            }
        }
        None
    }

    /// The type that two expressions are known to share.
    fn shared_type(&self, state: &TypeState, a: ExprId, b: ExprId) -> (found: Option<TypeId>)
        ensures
            found == (if self.rules().same_type(state@, a, b) {
                Some(state@.exprs[a.0])
            } else {
                None
            }),
    {
        match (state.expr(a), state.expr(b)) {
            (Some(left), Some(right)) => if left == right {
                Some(left)
            } else {
                None
            },
            _ => None,
        }
    }

    fn infer_unary(&self, state: &mut TypeState, e: ExprId, op: UnaryOp, inner: ExprId)
        ensures
            final(state)@ == self.rules().unary(old(state)@, e, op, inner),
    {
        match op {
            UnaryOp::Neg => {
                if let Some(ty) = self.numeric_type(state, inner, e) {
                    self.set_expr_type(state, inner, ty);
                    self.set_expr_type(state, e, ty);
                }
            },
            UnaryOp::Not => {
                self.set_expr_type(state, inner, self.prim.bool_);
                self.set_expr_type(state, e, self.prim.bool_);
            },
        }
    }

    fn constrain_numbers(&self, state: &mut TypeState, lhs: ExprId, rhs: ExprId)
        ensures
            final(state)@ == self.rules().numbers(old(state)@, lhs, rhs),
    {
        if let Some(ty) = self.numeric_type(state, lhs, rhs) {
            self.set_expr_type(state, lhs, ty);
            self.set_expr_type(state, rhs, ty);
        }
    }

    fn infer_binary(
        &self,
        state: &mut TypeState,
        e: ExprId,
        op: BinaryOp,
        lhs: ExprId,
        rhs: ExprId,
    )
        ensures
            final(state)@ == self.rules().binary(old(state)@, e, op, lhs, rhs),
    {
        match op {
            BinaryOp::Add | BinaryOp::Sub | BinaryOp::Mul | BinaryOp::Div | BinaryOp::Mod => {
                self.constrain_numbers(state, lhs, rhs);
                if let Some(ty) = self.shared_type(state, lhs, rhs) {
                    if self.is_numeric(ty) {
                        self.set_expr_type(state, e, ty);
                    }
                }
            },
            BinaryOp::Eq | BinaryOp::Ne => {
                match (state.expr(lhs), state.expr(rhs)) {
                    (Some(ty), None) => {
                        self.set_expr_type(state, rhs, ty);
                    },
                    (None, Some(ty)) => {
                        self.set_expr_type(state, lhs, ty);
                    },
                    _ => {},
                }
                if self.shared_type(state, lhs, rhs).is_some() {
                    self.set_expr_type(state, e, self.prim.bool_);
                }
            },
            BinaryOp::Lt | BinaryOp::Le | BinaryOp::Gt | BinaryOp::Ge => {
                self.constrain_numbers(state, lhs, rhs);
                if let Some(ty) = self.shared_type(state, lhs, rhs) {
                    if self.is_numeric(ty) {
                        self.set_expr_type(state, e, self.prim.bool_);
                    }
                }
            },
            BinaryOp::And | BinaryOp::Or => {
                self.set_expr_type(state, lhs, self.prim.bool_);
                self.set_expr_type(state, rhs, self.prim.bool_);
                if let Some(ty) = self.shared_type(state, lhs, rhs) {
                    if ty == self.prim.bool_ {
                        self.set_expr_type(state, e, self.prim.bool_);
                    }
                }
            },
        }
    }

    fn infer_fields(
        &self,
        state: &mut TypeState,
        Ghost(owner): Ghost<ExprId>,
        fields: &Vec<ExprId>,
    )
        requires
            self.ready(),
            self.program@.has_expr(owner),
            self.program@.expr(owner) is MakeStruct || self.program@.expr(owner) is MakeEnum,
            fields@ == fields_of(self.program@.expr(owner)),
        ensures
            final(state)@ == self.rules().infer_fields(old(state)@, owner, fields@.len()),
        decreases self.program@.expr_rank(owner), 0nat,
    {
        let ghost before = state@;
        let mut i: usize = 0;
        while i < fields.len()
            invariant
                i <= fields@.len(),
                self.ready(),
                self.program@.has_expr(owner),
                self.program@.expr(owner) is MakeStruct || self.program@.expr(owner) is MakeEnum,
                fields@ == fields_of(self.program@.expr(owner)),
                state@ == self.rules().infer_fields(before, owner, i as nat),
            decreases fields@.len() - i,
        {
            proof {
                assert(fields@.contains(fields@[i as int]));
                crate::ir::core_ir::lemma_expr_rank(self.program@, owner, fields@[i as int]);
            }
            self.infer_expr_type(state, fields[i]);
            i += 1;
        }
    }

    fn infer_expr_type(&self, state: &mut TypeState, e: ExprId)
        requires
            self.ready(),
        ensures
            final(state)@ == self.rules().infer(old(state)@, e),
        decreases self.program@.expr_rank(e), 1nat,
    {
        broadcast use vstd::std_specs::hash::group_hash_axioms;

        if let Some(node) = self.program.expr(e) {
            match &node.kind {
                ExprKind::Literal(literal) => {
                    let ty = self.type_for_literal(literal);
                    self.set_expr_type(state, e, ty);
                },
                ExprKind::Var(var) => {
                    self.unify_expr_with_var(state, e, *var);
                },
                ExprKind::Unary { op, expr } => {
                    self.infer_unary(state, e, *op, *expr);
                },
                ExprKind::Binary { op, lhs, rhs } => {
                    self.infer_binary(state, e, *op, *lhs, *rhs);
                },
                ExprKind::PureCall { callee, args } => {
                    self.constrain_call_signature(state, *callee, args, Some(e), None);
                },
                ExprKind::MakeStruct { ty, fields } => {
                    if let Some(adt) = self.adt_types.get(&ty.0) {
                        self.set_expr_type(state, e, *adt);
                    }
                    self.infer_fields(state, Ghost(e), fields);
                },
                ExprKind::MakeEnum { ty, fields, .. } => {
                    if let Some(adt) = self.adt_types.get(&ty.0) {
                        self.set_expr_type(state, e, *adt);
                    }
                    self.infer_fields(state, Ghost(e), fields);
                },
                ExprKind::Error(_) => {},
            }
        }
    }

    fn constrain_args(
        &self,
        state: &mut TypeState,
        args: &Vec<ExprId>,
        types: &Vec<Option<TypeId>>,
    )
        ensures
            final(state)@ == self.rules().set_args(
                old(state)@,
                args@,
                types@,
                shorter(args@.len(), types@.len()),
            ),
    {
        let ghost before = state@;
        let mut i: usize = 0;
        while i < args.len() && i < types.len()
            invariant
                i <= shorter(args@.len(), types@.len()),
                state@ == self.rules().set_args(before, args@, types@, i as nat),
            decreases args@.len() - i,
        {
            if let Some(ty) = types[i] {
                self.set_expr_type(state, args[i], ty);
            }
            i += 1;
        }
    }

    fn constrain_perform(
        &self,
        state: &mut TypeState,
        result: Option<VarId>,
        effect: EffectLabelId,
        operation: SymbolId,
        args: &Vec<ExprId>,
    )
        ensures
            final(state)@ == self.rules().perform(
                old(state)@,
                result,
                effect,
                operation,
                args@,
            ),
    {
        match find_signature(self.signatures, effect, operation) {
            Some(signature) => {
                self.constrain_args(state, args, &signature.param_types);
                if let Some(var) = result {
                    match signature.return_type {
                        Some(ty) => {
                            state.set_var_type(var, ty);
                        },
                        None => {
                            state.set_var_type(var, self.prim.unit);
                        },
                    }
                }
            },
            None => {
                if let Some(var) = result {
                    state.set_var_type(var, self.prim.unit);
                }
            },
        }
    }

    fn constrain_clause(&self, state: &mut TypeState, h: HandlerId, i: usize)
        requires
            self.ready(),
            self.program@.has_handler(h),
            i < self.program@.handler(h).clauses.len(),
        ensures
            final(state)@ == self.rules().clause(
                old(state)@,
                h,
                self.program@.handler(h).clauses[i as int],
            ),
    {
        let def = &self.program.handlers[h.0];
        let clause: &HandlerClause = &def.clauses[i];
        assert(self.program@.handler(h).clauses[i as int] == clause@);
        if let Some(signature) = find_signature(self.signatures, def.effect, clause.operation) {
            state.set_var_types(&clause.params, &signature.param_types);
        }
        self.unify_returns_with_var(state, clause.body, def.return_param);
    }

    fn constrain_handle(&self, state: &mut TypeState, h: HandlerId, body: StmtId)
        requires
            self.ready(),
            self.program@.has_stmt(body),
        ensures
            final(state)@ == self.rules().handle(old(state)@, h, body),
    {
        if let Some(def) = self.program.handler(h) {
            self.unify_returns_with_var(state, body, def.return_param);
            let ghost before = state@;
            let mut i: usize = 0;
            assert(def.clauses@.len() == self.program@.handler(h).clauses.len());
            while i < def.clauses.len()
                invariant
                    i <= def.clauses@.len(),
                    def.clauses@.len() == self.program@.handler(h).clauses.len(),
                    self.ready(),
                    self.program@.has_handler(h),
                    state@ == self.rules().clauses(before, h, i as nat),
                decreases def.clauses@.len() - i,
            {
                self.constrain_clause(state, h, i);
                i += 1;
            }
            self.unify_returns_with_var(state, def.return_body, def.return_param);
        }
    }

    fn constrain_stmt(&self, state: &mut TypeState, s: StmtId)
        requires
            self.ready(),
            self.program@.has_stmt(s),
        ensures
            final(state)@ == self.rules().constrain(old(state)@, s),
    {
        let ghost model = self.program@.stmt(s);
        match &self.program.stmts[s.0].kind {
            StmtKind::Let { binding, value, .. } => {
                self.unify_expr_with_var(state, *value, *binding);
            },
            StmtKind::Val { binding, value, .. } => {
                assert(model.has_part(*value));
                self.unify_returns_with_var(state, *value, *binding);
            },
            StmtKind::Call { result, callee, args, .. } => {
                self.constrain_call_signature(state, *callee, args, None, Some(*result));
            },
            StmtKind::If { cond, .. } => {
                self.set_expr_type(state, *cond, self.prim.bool_);
            },
            StmtKind::Perform { result, effect, operation, args, .. } => {
                self.constrain_perform(state, *result, *effect, *operation, args);
            },
            StmtKind::Handle { handler, body, .. } => {
                assert(model.has_part(*body));
                self.constrain_handle(state, *handler, *body);
            },
            StmtKind::Return(_) | StmtKind::Match { .. } | StmtKind::Resume { .. }
            | StmtKind::Stage { .. } | StmtKind::Hole { .. } | StmtKind::Error(_) => {},
        }
    }

    fn constrain_function(&self, state: &mut TypeState, f: usize)
        requires
            self.ready(),
            f < self.program@.functions.len(),
        ensures
            final(state)@ == self.rules().exprs_result(
                old(state)@,
                crate::sema::typecheck::results::results(
                    self.program@,
                    self.program@.functions[f as int].body,
                ),
                FuncId(f),
                crate::sema::typecheck::results::results(
                    self.program@,
                    self.program@.functions[f as int].body,
                ).len(),
            ),
    {
        let ghost before = state@;
        assert(self.program@.has_stmt(self.program@.function(FuncId(f)).body));
        let exprs = &self.stmt_returns[self.program.functions[f].body.0];
        let mut i: usize = 0;
        while i < exprs.len()
            invariant
                i <= exprs@.len(),
                state@ == self.rules().exprs_result(before, exprs@, FuncId(f), i as nat),
            decreases exprs@.len() - i,
        {
            self.unify_expr_with_func_return(state, exprs[i], FuncId(f));
            i += 1;
        }
    }

    fn round(&self, state: &mut TypeState)
        requires
            self.ready(),
        ensures
            final(state)@ == self.rules().round(old(state)@),
    {
        let ghost before = state@;
        let mut e: usize = 0;
        while e < self.program.exprs.len()
            invariant
                e <= self.program.exprs@.len(),
                self.ready(),
                state@ == self.rules().infer_all(before, e as nat),
            decreases self.program.exprs@.len() - e,
        {
            self.infer_expr_type(state, ExprId::new(e));
            e += 1;
        }
        let ghost inferred = state@;
        let mut s: usize = 0;
        while s < self.program.stmts.len()
            invariant
                s <= self.program.stmts@.len(),
                self.ready(),
                state@ == self.rules().constrain_all(inferred, s as nat),
            decreases self.program.stmts@.len() - s,
        {
            self.constrain_stmt(state, StmtId::new(s));
            s += 1;
        }
        let ghost constrained = state@;
        let mut f: usize = 0;
        while f < self.program.functions.len()
            invariant
                f <= self.program.functions@.len(),
                self.ready(),
                state@ == self.rules().functions_all(constrained, f as nat),
            decreases self.program.functions@.len() - f,
        {
            self.constrain_function(state, f);
            f += 1;
        }
    }

    /// Rounds, until one adds nothing.
    pub(crate) fn infer(&self, state: &mut TypeState)
        requires
            self.ready(),
        ensures
            self.rules().settles(old(state)@, final(state)@),
    {
        let ghost start = state@;
        let ghost mut n: nat = 0;
        let mut changed = true;
        while changed
            invariant
                self.ready(),
                state@ == self.rules().rounds(start, n),
                !changed ==> self.rules().round(state@) == state@,
            decreases
                    room(state@.exprs) + room(state@.vars) + room(state@.results),
                    (if changed {
                        1nat
                    } else {
                        0nat
                    }),
        {
            let ghost before = state@;
            let earlier = state.counts();
            self.round(state);
            let later = state.counts();
            proof {
                self.rules().lemma_round_grows(before);
                lemma_room(before.exprs, state@.exprs);
                lemma_room(before.vars, state@.vars);
                lemma_room(before.results, state@.results);
                n = n + 1;
            }
            changed = earlier.0 != later.0 || earlier.1 != later.1 || earlier.2 != later.2;
            assert(!changed ==> before =~= state@);
        }
    }
}

/// How many more entries a map can have.
spec fn room(map: Map<usize, TypeId>) -> nat {
    (crate::common::reach::position_count() - map.dom().len()) as nat
}

/// A map that keeps the entries of another is the same, or has less room.
proof fn lemma_room(before: Map<usize, TypeId>, after: Map<usize, TypeId>)
    requires
        kept(before, after),
        before.dom().finite(),
        after.dom().finite(),
    ensures
        before.dom().len() <= after.dom().len(),
        before.dom().len() == after.dom().len() ==> before == after,
        room(after) <= room(before),
        before.dom().len() != after.dom().len() ==> room(after) < room(before),
{
    assert(before.dom().subset_of(after.dom())) by {
        assert forall|k: usize| before.dom().contains(k) implies after.dom().contains(k) by {
            assert(before.contains_key(k));
        }
    }
    vstd::set_lib::lemma_len_subset(before.dom(), after.dom());
    crate::common::reach::lemma_position_bound(after.dom());
    if before.dom().len() == after.dom().len() {
        vstd::set_lib::lemma_subset_equality(before.dom(), after.dom());
        assert(before =~= after) by {
            assert forall|k: usize| before.contains_key(k) <==> after.contains_key(k) by {
                assert(before.dom().contains(k) <==> after.dom().contains(k));
            }
        }
    }
}

} // verus!
