//! Code that mirrors other code does the same.
use crate::common::ids::{ExprId, StmtId};
use crate::ir::core_ir::{CoreModel, ExprModel, MatchArmModel, StmtModel};
use crate::meaning::values::{Arithmetic, Value};
use crate::meaning::worlds::{Event, World};
use vstd::prelude::*;

verus! {

/// Pairs of expressions, and pairs of statements.
pub struct Pairs {
    pub exprs: spec_fn(ExprId, ExprId) -> bool,
    pub stmts: spec_fn(StmtId, StmtId) -> bool,
}

impl Pairs {
    pub open spec fn expr(self, a: ExprId, b: ExprId) -> bool {
        (self.exprs)(a, b)
    }

    pub open spec fn stmt(self, a: StmtId, b: StmtId) -> bool {
        (self.stmts)(a, b)
    }

    pub open spec fn list(self, a: Seq<ExprId>, b: Seq<ExprId>) -> bool {
        &&& a.len() == b.len()
        &&& forall|i: int| #![trigger a[i]] #![trigger b[i]]
            0 <= i < a.len() ==> self.expr(a[i], b[i])
    }

    pub open spec fn option(self, a: Option<StmtId>, b: Option<StmtId>) -> bool {
        match (a, b) {
            (Some(a), Some(b)) => self.stmt(a, b),
            (None, None) => true,
            _ => false,
        }
    }

    pub open spec fn arms(self, a: Seq<MatchArmModel>, b: Seq<MatchArmModel>) -> bool {
        &&& a.len() == b.len()
        &&& forall|i: int| #![trigger a[i]] #![trigger b[i]]
            0 <= i < a.len() ==> {
                &&& a[i].tag == b[i].tag
                &&& a[i].binders == b[i].binders
                &&& self.stmt(a[i].body, b[i].body)
            }
    }

    /// Two expressions are the same, but that pairs stand in the places of their
    /// parts.
    pub open spec fn expr_mirrors(self, p: CoreModel, q: CoreModel, a: ExprId, b: ExprId) -> bool {
        &&& p.has_expr(a)
        &&& q.has_expr(b)
        &&& match (p.expr(a), q.expr(b)) {
            (ExprModel::Var(v), ExprModel::Var(u)) => v == u,
            (ExprModel::Literal(l), ExprModel::Literal(k)) => l == k,
            (ExprModel::Unary { op, expr }, ExprModel::Unary { op: o2, expr: e2 }) => op == o2
                && self.expr(expr, e2),
            (
                ExprModel::Binary { op, lhs, rhs },
                ExprModel::Binary { op: o2, lhs: l2, rhs: r2 },
            ) => op == o2 && self.expr(lhs, l2) && self.expr(rhs, r2),
            (
                ExprModel::PureCall { callee, args },
                ExprModel::PureCall { callee: c2, args: a2 },
            ) => crate::meaning::core_values::name_of(p, callee)
                == crate::meaning::core_values::name_of(q, c2) && self.list(args, a2),
            (
                ExprModel::MakeStruct { ty, fields },
                ExprModel::MakeStruct { ty: t2, fields: f2 },
            ) => ty == t2 && self.list(fields, f2),
            (
                ExprModel::MakeEnum { ty, variant, fields },
                ExprModel::MakeEnum { ty: t2, variant: v2, fields: f2 },
            ) => ty == t2 && variant == v2 && self.list(fields, f2),
            (ExprModel::Error(_), ExprModel::Error(_)) => true,
            _ => false,
        }
    }

    /// Two statements are the same, but that pairs stand in the places of their
    /// parts.
    pub open spec fn stmt_mirrors(self, p: CoreModel, q: CoreModel, a: StmtId, b: StmtId) -> bool {
        &&& p.has_stmt(a)
        &&& q.has_stmt(b)
        &&& match (p.stmt(a), q.stmt(b)) {
            (StmtModel::Return(e), StmtModel::Return(e2)) => self.expr(e, e2),
            (
                StmtModel::Let { binding, value, next },
                StmtModel::Let { binding: b2, value: v2, next: n2 },
            ) => binding == b2 && self.expr(value, v2) && self.stmt(next, n2),
            (
                StmtModel::Val { binding, value, next },
                StmtModel::Val { binding: b2, value: v2, next: n2 },
            ) => binding == b2 && self.stmt(value, v2) && self.stmt(next, n2),
            (
                StmtModel::Call { result, callee, args, next, .. },
                StmtModel::Call { result: r2, callee: c2, args: a2, next: n2, .. },
            ) => {
                &&& result == r2
                &&& crate::meaning::core_values::name_of(p, callee)
                    == crate::meaning::core_values::name_of(q, c2)
                &&& self.list(args, a2)
                &&& self.stmt(next, n2)
            },
            (
                StmtModel::If { cond, then_branch, else_branch },
                StmtModel::If { cond: c2, then_branch: t2, else_branch: e2 },
            ) => self.expr(cond, c2) && self.stmt(then_branch, t2) && self.stmt(else_branch, e2),
            (
                StmtModel::Match { scrutinee, arms, default },
                StmtModel::Match { scrutinee: s2, arms: a2, default: d2 },
            ) => self.expr(scrutinee, s2) && self.arms(arms, a2) && self.option(default, d2),
            (
                StmtModel::Perform { result, effect, operation, args, next },
                StmtModel::Perform { result: r2, effect: e2, operation: o2, args: a2, next: n2 },
            ) => {
                &&& result == r2
                &&& effect == e2
                &&& operation == o2
                &&& self.list(args, a2)
                &&& self.stmt(next, n2)
            },
            (
                StmtModel::Resume { result, resume, arg, next },
                StmtModel::Resume { result: r2, resume: u2, arg: a2, next: n2 },
            ) => result == r2 && resume == u2 && self.expr(arg, a2) && self.stmt(next, n2),
            (
                StmtModel::Handle { handler, body, next },
                StmtModel::Handle { handler: h2, body: b2, next: n2 },
            ) => {
                &&& crate::meaning::open_run::effect_of(p, handler)
                    == crate::meaning::open_run::effect_of(q, h2)
                &&& crate::meaning::open_run::clauses_of(p, handler)
                    == crate::meaning::open_run::clauses_of(q, h2)
                &&& self.stmt(body, b2)
                &&& self.option(next, n2)
            },
            (
                StmtModel::Stage { stage, body, next },
                StmtModel::Stage { stage: s2, body: b2, next: n2 },
            ) => stage == s2 && self.stmt(body, b2) && self.option(next, n2),
            (StmtModel::Hole { .. }, StmtModel::Hole { .. }) => true,
            (StmtModel::Error(_), StmtModel::Error(_)) => true,
            _ => false,
        }
    }

    /// All pairs mirror each other.
    pub open spec fn mirror(self, p: CoreModel, q: CoreModel) -> bool {
        &&& forall|a: ExprId, b: ExprId| #[trigger]
            self.expr(a, b) ==> self.expr_mirrors(p, q, a, b)
        &&& forall|a: StmtId, b: StmtId| #[trigger]
            self.stmt(a, b) ==> self.stmt_mirrors(p, q, a, b)
    }
}

/// Expressions of a pair have one value.
pub proof fn lemma_mirrored_value(
    m: Arithmetic,
    p: CoreModel,
    q: CoreModel,
    pairs: Pairs,
    vars: Map<usize, Value>,
    a: ExprId,
    b: ExprId,
)
    requires
        p.acyclic(),
        q.acyclic(),
        pairs.mirror(p, q),
        pairs.expr(a, b),
    ensures
        crate::meaning::core_values::core_value(m, p, vars, a)
            == crate::meaning::core_values::core_value(m, q, vars, b),
    decreases p.expr_rank(a), 1nat, 0nat,
{
    crate::passes::linearize::analysis::lemma_expr_ranks(p, a);
    assert(pairs.expr_mirrors(p, q, a, b));
    match p.expr(a) {
        ExprModel::Unary { expr, .. } => {
            assert(p.expr(a).has_part(expr));
            lemma_mirrored_value(m, p, q, pairs, vars, expr, q.expr(b)->Unary_expr);
        },
        ExprModel::Binary { lhs, rhs, .. } => {
            assert(p.expr(a).has_part(lhs));
            assert(p.expr(a).has_part(rhs));
            lemma_mirrored_value(m, p, q, pairs, vars, lhs, q.expr(b)->lhs);
            lemma_mirrored_value(m, p, q, pairs, vars, rhs, q.expr(b)->rhs);
        },
        ExprModel::PureCall { args, .. } => {
            lemma_mirrored_parts(m, p, q, pairs, vars, a, b, args.len());
        },
        ExprModel::MakeStruct { fields, .. } => {
            lemma_mirrored_parts(m, p, q, pairs, vars, a, b, fields.len());
        },
        ExprModel::MakeEnum { fields, .. } => {
            lemma_mirrored_parts(m, p, q, pairs, vars, a, b, fields.len());
        },
        _ => {},
    }
}

proof fn lemma_mirrored_parts(
    m: Arithmetic,
    p: CoreModel,
    q: CoreModel,
    pairs: Pairs,
    vars: Map<usize, Value>,
    a: ExprId,
    b: ExprId,
    first: nat,
)
    requires
        p.acyclic(),
        q.acyclic(),
        pairs.mirror(p, q),
        p.has_expr(a),
        q.has_expr(b),
        pairs.list(p.expr(a).parts(), q.expr(b).parts()),
        first <= p.expr(a).parts().len(),
    ensures
        crate::meaning::core_values::core_parts(m, p, vars, a, first)
            == crate::meaning::core_values::core_parts(m, q, vars, b, first),
    decreases p.expr_rank(a), 0nat, first,
{
    if first > 0 {
        let n = (first - 1) as nat;
        crate::passes::linearize::analysis::lemma_expr_ranks(p, a);
        crate::meaning::core_values::lemma_parts(p.expr(a), first - 1);
        lemma_mirrored_parts(m, p, q, pairs, vars, a, b, n);
        let left = p.expr(a).parts()[first - 1];
        let right = q.expr(b).parts()[first - 1];
        lemma_mirrored_value(m, p, q, pairs, vars, left, right);
    }
}

proof fn lemma_mirrored_all(
    m: Arithmetic,
    p: CoreModel,
    q: CoreModel,
    pairs: Pairs,
    vars: Map<usize, Value>,
    a: Seq<ExprId>,
    b: Seq<ExprId>,
)
    requires
        p.acyclic(),
        q.acyclic(),
        pairs.mirror(p, q),
        pairs.list(a, b),
    ensures
        crate::meaning::core_values::core_all(m, p, vars, a)
            == crate::meaning::core_values::core_all(m, q, vars, b),
{
    let left = crate::meaning::core_values::core_all(m, p, vars, a);
    let right = crate::meaning::core_values::core_all(m, q, vars, b);
    assert forall|i: int| 0 <= i < a.len() implies left[i] == right[i] by {
        assert(pairs.expr(a[i], b[i]));
        lemma_mirrored_value(m, p, q, pairs, vars, a[i], b[i]);
    }
    assert(left =~= right);
}

/// Statements of a pair do the same.
#[verifier::rlimit(100)]
#[verifier::spinoff_prover]
pub proof fn lemma_mirrored_does_the_same(
    w: World,
    p: CoreModel,
    q: CoreModel,
    pairs: Pairs,
    vars: Map<usize, Value>,
    seen: Seq<Event>,
    a: StmtId,
    b: StmtId,
)
    requires
        p.acyclic(),
        q.acyclic(),
        pairs.mirror(p, q),
        pairs.stmt(a, b),
    ensures
        crate::meaning::open_run::open_run(w, p, vars, seen, a)
            == crate::meaning::open_run::open_run(w, q, vars, seen, b),
    decreases p.stmt_rank(a),
{
    let m = w.arithmetic;
    crate::passes::linearize::analysis::lemma_stmt_ranks(p, a);
    assert(pairs.stmt_mirrors(p, q, a, b));
    let to = q.stmt(b);
    match p.stmt(a) {
        StmtModel::Return(e) => {
            lemma_mirrored_value(m, p, q, pairs, vars, e, to->Return_0);
        },
        StmtModel::Let { binding, value, next } => {
            assert(p.stmt(a).has_part(next));
            lemma_mirrored_value(m, p, q, pairs, vars, value, to->Let_value);
            let v = crate::meaning::core_values::core_value(m, p, vars, value);
            lemma_mirrored_does_the_same(
                w,
                p,
                q,
                pairs,
                vars.insert(binding.0, v),
                seen,
                next,
                to->Let_next,
            );
        },
        StmtModel::Val { binding, value, next } => {
            assert(p.stmt(a).has_part(value));
            assert(p.stmt(a).has_part(next));
            lemma_mirrored_does_the_same(w, p, q, pairs, vars, seen, value, to->Val_value);
            let o = crate::meaning::open_run::open_run(w, p, vars, seen, value);
            lemma_mirrored_does_the_same(
                w,
                p,
                q,
                pairs,
                vars.insert(binding.0, o.value),
                o.seen,
                next,
                to->Val_next,
            );
        },
        StmtModel::Call { result, callee, args, next, .. } => {
            assert(p.stmt(a).has_part(next));
            lemma_mirrored_all(m, p, q, pairs, vars, args, to->Call_args);
            let more = seen.push(
                Event::Call {
                    callee: crate::meaning::core_values::name_of(p, callee),
                    args: crate::meaning::core_values::core_all(m, p, vars, args),
                },
            );
            lemma_mirrored_does_the_same(
                w,
                p,
                q,
                pairs,
                vars.insert(result.0, (w.answer)(more)),
                more,
                next,
                to->Call_next,
            );
        },
        StmtModel::If { cond, then_branch, else_branch } => {
            assert(p.stmt(a).has_part(then_branch));
            assert(p.stmt(a).has_part(else_branch));
            lemma_mirrored_value(m, p, q, pairs, vars, cond, to->cond);
            lemma_mirrored_does_the_same(
                w,
                p,
                q,
                pairs,
                vars,
                seen,
                then_branch,
                to->then_branch,
            );
            lemma_mirrored_does_the_same(
                w,
                p,
                q,
                pairs,
                vars,
                seen,
                else_branch,
                to->else_branch,
            );
        },
        StmtModel::Match { scrutinee, arms, default } => {
            lemma_mirrored_value(m, p, q, pairs, vars, scrutinee, to->scrutinee);
            let value = crate::meaning::core_values::core_value(m, p, vars, scrutinee);
            let tags = crate::meaning::core_run::core_tags(arms);
            assert forall|i: int| 0 <= i < arms.len() implies #[trigger] arms[i].tag
                == to->arms[i].tag by {}
            assert(crate::meaning::core_run::core_tags(to->arms) =~= tags);
            crate::meaning::worlds::lemma_arm_of(tags, value);
            match crate::meaning::worlds::arm_of(tags, value) {
                Some(i) => {
                    crate::ir::core_ir::lemma_arm_is_part(p.stmt(a), i);
                    assert(arms[i].binders == to->arms[i].binders);
                    lemma_mirrored_does_the_same(
                        w,
                        p,
                        q,
                        pairs,
                        crate::meaning::worlds::with_fields(
                            vars,
                            arms[i].binders,
                            value,
                            arms[i].binders.len(),
                        ),
                        seen,
                        arms[i].body,
                        to->arms[i].body,
                    );
                },
                None => {
                    if let Some(part) = default {
                        assert(p.stmt(a).has_part(part));
                        lemma_mirrored_does_the_same(
                            w,
                            p,
                            q,
                            pairs,
                            vars,
                            seen,
                            part,
                            to->default->0,
                        );
                    }
                },
            }
        },
        StmtModel::Perform { result, effect, operation, args, next } => {
            assert(p.stmt(a).has_part(next));
            lemma_mirrored_all(m, p, q, pairs, vars, args, to->Perform_args);
            let more = seen.push(
                Event::Perform {
                    effect,
                    operation,
                    args: crate::meaning::core_values::core_all(m, p, vars, args),
                },
            );
            lemma_mirrored_does_the_same(
                w,
                p,
                q,
                pairs,
                crate::meaning::worlds::bind_option(vars, result, (w.answer)(more)),
                more,
                next,
                to->Perform_next,
            );
        },
        StmtModel::Resume { result, resume, arg, next } => {
            assert(p.stmt(a).has_part(next));
            lemma_mirrored_value(m, p, q, pairs, vars, arg, to->arg);
            let more = seen.push(
                Event::Resume {
                    of: crate::meaning::core_values::value_of(vars, resume),
                    with: crate::meaning::core_values::core_value(m, p, vars, arg),
                },
            );
            lemma_mirrored_does_the_same(
                w,
                p,
                q,
                pairs,
                vars.insert(result.0, (w.answer)(more)),
                more,
                next,
                to->Resume_next,
            );
        },
        StmtModel::Handle { handler, body, next } => {
            assert(p.stmt(a).has_part(body));
            let effect = crate::meaning::open_run::effect_of(p, handler);
            let operations = crate::meaning::open_run::clauses_of(p, handler);
            let inside = seen.push(Event::Install { effect, operations });
            lemma_mirrored_does_the_same(w, p, q, pairs, vars, inside, body, to->Handle_body);
            let o = crate::meaning::open_run::open_run(w, p, vars, inside, body);
            if let Some(next) = next {
                assert(p.stmt(a).has_part(next));
                lemma_mirrored_does_the_same(
                    w,
                    p,
                    q,
                    pairs,
                    vars,
                    o.seen.push(Event::Remove { effect, operations }),
                    next,
                    to->Handle_next->0,
                );
            }
        },
        StmtModel::Stage { stage, body, next } => {
            assert(p.stmt(a).has_part(body));
            let inside = seen.push(Event::Stage(stage));
            lemma_mirrored_does_the_same(w, p, q, pairs, vars, inside, body, to->Stage_body);
            let o = crate::meaning::open_run::open_run(w, p, vars, inside, body);
            if let Some(next) = next {
                assert(p.stmt(a).has_part(next));
                lemma_mirrored_does_the_same(
                    w,
                    p,
                    q,
                    pairs,
                    vars,
                    o.seen,
                    next,
                    to->Stage_next->0,
                );
            }
        },
        _ => {},
    }
}

} // verus!
