//! What it means that code mentions a variable, that it resumes so many times,
//! and that it resumes last of all.
use crate::common::ids::{ExprId, StmtId, VarId};
use crate::ir::core_ir::{ClauseModel, CoreModel, ExprModel, StmtModel};
use crate::meaning::values::{Arithmetic, Value};
use crate::meaning::worlds::{Event, World};
use crate::passes::linearize::analysis::{ResumeQualifier, ResumeUseBound, ResumeUseRange};
use vstd::prelude::*;

verus! {

/// Variables hold the same, but for one.
pub open spec fn same_but(a: Map<usize, Value>, b: Map<usize, Value>, var: VarId) -> bool {
    forall|x: VarId|
        x != var ==> #[trigger] crate::meaning::core_values::value_of(a, x)
            == crate::meaning::core_values::value_of(b, x)
}

proof fn lemma_same_set(
    a: Map<usize, Value>,
    b: Map<usize, Value>,
    var: VarId,
    binding: VarId,
    v: Value,
)
    requires
        same_but(a, b, var),
    ensures
        same_but(a.insert(binding.0, v), b.insert(binding.0, v), var),
{
    assert forall|x: VarId| x != var implies #[trigger] crate::meaning::core_values::value_of(
        a.insert(binding.0, v),
        x,
    ) == crate::meaning::core_values::value_of(b.insert(binding.0, v), x) by {
        assert(crate::meaning::core_values::value_of(a, x)
            == crate::meaning::core_values::value_of(b, x));
    }
}

/// The value of an expression does not depend on a variable that it does not
/// mention.
pub proof fn lemma_unmentioned_value(
    m: Arithmetic,
    p: CoreModel,
    e: ExprId,
    var: VarId,
    a: Map<usize, Value>,
    b: Map<usize, Value>,
)
    requires
        p.acyclic(),
        !crate::passes::linearize::analysis::expr_mentions(p, e, var),
        same_but(a, b, var),
    ensures
        crate::meaning::core_values::core_value(m, p, a, e)
            == crate::meaning::core_values::core_value(m, p, b, e),
    decreases p.expr_rank(e), 1nat, 0nat,
{
    crate::passes::linearize::analysis::lemma_expr_ranks(p, e);
    if p.has_expr(e) {
        match p.expr(e) {
            ExprModel::Unary { expr, .. } => {
                assert(p.expr(e).has_part(expr));
                lemma_unmentioned_value(m, p, expr, var, a, b);
            },
            ExprModel::Binary { lhs, rhs, .. } => {
                assert(p.expr(e).has_part(lhs));
                assert(p.expr(e).has_part(rhs));
                lemma_unmentioned_value(m, p, lhs, var, a, b);
                lemma_unmentioned_value(m, p, rhs, var, a, b);
            },
            ExprModel::PureCall { args, .. } => {
                lemma_unmentioned_parts(m, p, e, var, a, b, args.len());
            },
            ExprModel::MakeStruct { fields, .. } => {
                lemma_unmentioned_parts(m, p, e, var, a, b, fields.len());
            },
            ExprModel::MakeEnum { fields, .. } => {
                lemma_unmentioned_parts(m, p, e, var, a, b, fields.len());
            },
            _ => {},
        }
    }
}

proof fn lemma_unmentioned_parts(
    m: Arithmetic,
    p: CoreModel,
    e: ExprId,
    var: VarId,
    a: Map<usize, Value>,
    b: Map<usize, Value>,
    first: nat,
)
    requires
        p.acyclic(),
        p.has_expr(e),
        p.expr(e) is PureCall || p.expr(e) is MakeStruct || p.expr(e) is MakeEnum,
        !crate::passes::linearize::analysis::expr_mentions(p, e, var),
        same_but(a, b, var),
        first <= p.expr(e).parts().len(),
    ensures
        crate::meaning::core_values::core_parts(m, p, a, e, first)
            == crate::meaning::core_values::core_parts(m, p, b, e, first),
    decreases p.expr_rank(e), 0nat, first,
{
    if first > 0 {
        crate::passes::linearize::analysis::lemma_expr_ranks(p, e);
        crate::meaning::core_values::lemma_parts(p.expr(e), first - 1);
        lemma_unmentioned_parts(m, p, e, var, a, b, (first - 1) as nat);
        let part = p.expr(e).parts()[first - 1];
        lemma_unmentioned_value(m, p, part, var, a, b);
    }
}

proof fn lemma_unmentioned_all(
    m: Arithmetic,
    p: CoreModel,
    es: Seq<ExprId>,
    var: VarId,
    a: Map<usize, Value>,
    b: Map<usize, Value>,
)
    requires
        p.acyclic(),
        !crate::passes::linearize::analysis::any_mentions(p, es, var),
        same_but(a, b, var),
    ensures
        crate::meaning::core_values::core_all(m, p, a, es)
            == crate::meaning::core_values::core_all(m, p, b, es),
{
    let left = crate::meaning::core_values::core_all(m, p, a, es);
    let right = crate::meaning::core_values::core_all(m, p, b, es);
    assert forall|i: int| 0 <= i < es.len() implies left[i] == right[i] by {
        lemma_unmentioned_value(m, p, es[i], var, a, b);
    }
    assert(left =~= right);
}

proof fn lemma_same_fields(
    a: Map<usize, Value>,
    b: Map<usize, Value>,
    var: VarId,
    binders: Seq<VarId>,
    value: Value,
    first: nat,
)
    requires
        same_but(a, b, var),
        first <= binders.len(),
    ensures
        same_but(
            crate::meaning::worlds::with_fields(a, binders, value, first),
            crate::meaning::worlds::with_fields(b, binders, value, first),
            var,
        ),
    decreases first,
{
    if first > 0 {
        let n = (first - 1) as nat;
        lemma_same_fields(a, b, var, binders, value, n);
        lemma_same_set(
            crate::meaning::worlds::with_fields(a, binders, value, n),
            crate::meaning::worlds::with_fields(b, binders, value, n),
            var,
            binders[first - 1],
            crate::meaning::worlds::with_fields(a, binders, value, first)[binders[first - 1].0],
        );
    }
}

/// What code does does not depend on a variable that it does not mention.
#[verifier::rlimit(60)]
pub proof fn lemma_unmentioned_does_the_same(
    w: World,
    p: CoreModel,
    s: StmtId,
    var: VarId,
    a: Map<usize, Value>,
    b: Map<usize, Value>,
    seen: Seq<Event>,
)
    requires
        p.acyclic(),
        !crate::passes::linearize::analysis::stmt_mentions(p, s, var),
        same_but(a, b, var),
    ensures
        crate::meaning::open_run::open_run(w, p, a, seen, s)
            == crate::meaning::open_run::open_run(w, p, b, seen, s),
    decreases p.stmt_rank(s),
{
    let m = w.arithmetic;
    crate::passes::linearize::analysis::lemma_stmt_ranks(p, s);
    if p.has_stmt(s) {
        match p.stmt(s) {
            StmtModel::Return(e) => {
                lemma_unmentioned_value(m, p, e, var, a, b);
            },
            StmtModel::Let { binding, value, next } => {
                lemma_unmentioned_value(m, p, value, var, a, b);
                let v = crate::meaning::core_values::core_value(m, p, a, value);
                lemma_same_set(a, b, var, binding, v);
                lemma_unmentioned_does_the_same(
                    w,
                    p,
                    next,
                    var,
                    a.insert(binding.0, v),
                    b.insert(binding.0, v),
                    seen,
                );
            },
            StmtModel::Val { binding, value, next } => {
                lemma_unmentioned_does_the_same(w, p, value, var, a, b, seen);
                let o = crate::meaning::open_run::open_run(w, p, a, seen, value);
                lemma_same_set(a, b, var, binding, o.value);
                lemma_unmentioned_does_the_same(
                    w,
                    p,
                    next,
                    var,
                    a.insert(binding.0, o.value),
                    b.insert(binding.0, o.value),
                    o.seen,
                );
            },
            StmtModel::Call { result, callee, args, next, .. } => {
                lemma_unmentioned_all(m, p, args, var, a, b);
                let more = seen.push(
                    Event::Call {
                        callee: crate::meaning::core_values::name_of(p, callee),
                        args: crate::meaning::core_values::core_all(m, p, a, args),
                    },
                );
                let v = (w.answer)(more);
                lemma_same_set(a, b, var, result, v);
                lemma_unmentioned_does_the_same(
                    w,
                    p,
                    next,
                    var,
                    a.insert(result.0, v),
                    b.insert(result.0, v),
                    more,
                );
            },
            StmtModel::If { cond, then_branch, else_branch } => {
                lemma_unmentioned_value(m, p, cond, var, a, b);
                lemma_unmentioned_does_the_same(w, p, then_branch, var, a, b, seen);
                lemma_unmentioned_does_the_same(w, p, else_branch, var, a, b, seen);
            },
            StmtModel::Match { scrutinee, arms, default } => {
                lemma_unmentioned_value(m, p, scrutinee, var, a, b);
                let value = crate::meaning::core_values::core_value(m, p, a, scrutinee);
                let tags = crate::meaning::core_run::core_tags(arms);
                crate::meaning::worlds::lemma_arm_of(tags, value);
                match crate::meaning::worlds::arm_of(tags, value) {
                    Some(i) => {
                        crate::ir::core_ir::lemma_arm_is_part(p.stmt(s), i);
                        let binders = arms[i].binders;
                        lemma_same_fields(a, b, var, binders, value, binders.len());
                        lemma_unmentioned_does_the_same(
                            w,
                            p,
                            arms[i].body,
                            var,
                            crate::meaning::worlds::with_fields(
                                a,
                                binders,
                                value,
                                binders.len(),
                            ),
                            crate::meaning::worlds::with_fields(
                                b,
                                binders,
                                value,
                                binders.len(),
                            ),
                            seen,
                        );
                    },
                    None => {
                        if let Some(part) = default {
                            lemma_unmentioned_does_the_same(w, p, part, var, a, b, seen);
                        }
                    },
                }
            },
            StmtModel::Perform { result, effect, operation, args, next } => {
                lemma_unmentioned_all(m, p, args, var, a, b);
                let more = seen.push(
                    Event::Perform {
                        effect,
                        operation,
                        args: crate::meaning::core_values::core_all(m, p, a, args),
                    },
                );
                let v = (w.answer)(more);
                if let Some(result) = result {
                    lemma_same_set(a, b, var, result, v);
                }
                lemma_unmentioned_does_the_same(
                    w,
                    p,
                    next,
                    var,
                    crate::meaning::worlds::bind_option(a, result, v),
                    crate::meaning::worlds::bind_option(b, result, v),
                    more,
                );
            },
            StmtModel::Resume { result, resume, arg, next } => {
                lemma_unmentioned_value(m, p, arg, var, a, b);
                let more = seen.push(
                    Event::Resume {
                        of: crate::meaning::core_values::value_of(a, resume),
                        with: crate::meaning::core_values::core_value(m, p, a, arg),
                    },
                );
                let v = (w.answer)(more);
                lemma_same_set(a, b, var, result, v);
                lemma_unmentioned_does_the_same(
                    w,
                    p,
                    next,
                    var,
                    a.insert(result.0, v),
                    b.insert(result.0, v),
                    more,
                );
            },
            StmtModel::Handle { handler, body, next } => {
                let effect = crate::meaning::open_run::effect_of(p, handler);
                let operations = crate::meaning::open_run::clauses_of(p, handler);
                let inside = seen.push(Event::Install { effect, operations });
                lemma_unmentioned_does_the_same(w, p, body, var, a, b, inside);
                let o = crate::meaning::open_run::open_run(w, p, a, inside, body);
                if let Some(next) = next {
                    let left = o.seen.push(Event::Remove { effect, operations });
                    lemma_unmentioned_does_the_same(w, p, next, var, a, b, left);
                }
            },
            StmtModel::Stage { stage, body, next } => {
                let inside = seen.push(Event::Stage(stage));
                lemma_unmentioned_does_the_same(w, p, body, var, a, b, inside);
                let o = crate::meaning::open_run::open_run(w, p, a, inside, body);
                if let Some(next) = next {
                    lemma_unmentioned_does_the_same(w, p, next, var, a, b, o.seen);
                }
            },
            _ => {},
        }
    }
}

/// An expression that mentions a variable has that variable among its parts, and
/// the parts of those.
pub proof fn lemma_mentioned_somewhere(p: CoreModel, e: ExprId, var: VarId) -> (found: ExprId)
    requires
        p.acyclic(),
        crate::passes::linearize::analysis::expr_mentions(p, e, var),
    ensures
        p.has_expr(found),
        p.expr(found) == ExprModel::Var(var),
        crate::common::reach::reaches(
            crate::passes::function_graph::expr_edge(p),
            set![e.0],
            found.0,
        ),
    decreases p.expr_rank(e),
{
    crate::passes::linearize::analysis::lemma_expr_ranks(p, e);
    let edge = crate::passes::function_graph::expr_edge(p);
    crate::common::reach::lemma_reaches_root(edge, set![e.0], e.0);
    let part = match p.expr(e) {
        ExprModel::Unary { expr, .. } => expr,
        ExprModel::Binary { lhs, rhs, .. } => if crate::passes::linearize::analysis::expr_mentions(
            p,
            lhs,
            var,
        ) {
            lhs
        } else {
            rhs
        },
        ExprModel::PureCall { args, .. } => args[choose|i: int| #![trigger args[i]]
            0 <= i < args.len() && crate::passes::linearize::analysis::expr_mentions(
                p,
                args[i],
                var,
            )],
        ExprModel::MakeStruct { fields, .. } => fields[choose|i: int| #![trigger fields[i]]
            0 <= i < fields.len() && crate::passes::linearize::analysis::expr_mentions(
                p,
                fields[i],
                var,
            )],
        ExprModel::MakeEnum { fields, .. } => fields[choose|i: int| #![trigger fields[i]]
            0 <= i < fields.len() && crate::passes::linearize::analysis::expr_mentions(
                p,
                fields[i],
                var,
            )],
        _ => e,
    };
    if p.expr(e) is Var {
        e
    } else {
        assert(p.expr(e).has_part(part));
        let found = lemma_mentioned_somewhere(p, part, var);
        assert(ExprId(e.0) == e && ExprId(part.0) == part);
        lemma_reaches_through(edge, e.0, part.0, found.0);
        found
    }
}

/// What is reached from where an edge leads is reached from where it starts.
pub proof fn lemma_reaches_through(
    edge: spec_fn(usize, usize) -> bool,
    a: usize,
    b: usize,
    c: usize,
)
    requires
        edge(a, b),
        crate::common::reach::reaches(edge, set![b], c),
    ensures
        crate::common::reach::reaches(edge, set![a], c),
{
    let path = choose|path: Seq<usize>| crate::common::reach::leads(edge, set![b], c, path);
    let longer = seq![a] + path;
    assert forall|i: int| #![trigger longer[i]] 0 <= i < longer.len() - 1 implies edge(
        longer[i],
        longer[i + 1],
    ) by {
        if i > 0 {
            assert(longer[i] == path[i - 1]);
            assert(longer[i + 1] == path[i]);
        }
    }
    assert(longer[0] == a);
    assert(longer.last() == path.last());
    assert(crate::common::reach::leads(edge, set![a], c, longer));
}

/// The sums of a number of one set and one of another.
pub open spec fn sums(a: Set<nat>, b: Set<nat>) -> Set<nat> {
    Set::new(
        |n: nat|
            exists|k: nat| k <= n && #[trigger] a.contains(k) && b.contains((n - k) as nat),
    )
}

proof fn lemma_sum(a: Set<nat>, b: Set<nat>, k: nat, n: nat)
    requires
        a.contains(k),
        b.contains(n),
    ensures
        sums(a, b).contains(k + n),
{
    assert((k + n - k) as nat == n);
}

/// How many times the ways through a statement resume.
pub open spec fn ways(p: CoreModel, s: StmtId, resume: VarId) -> Set<nat>
    decreases p.stmt_rank(s),
    when p.acyclic()
{
    proof {
        crate::passes::linearize::analysis::lemma_stmt_ranks(p, s);
    }
    if !p.has_stmt(s) {
        Set::empty()
    } else {
        match p.stmt(s) {
            StmtModel::Return(_) | StmtModel::Hole { .. } | StmtModel::Error(_) => set![0nat],
            StmtModel::Let { next, .. } => ways(p, next, resume),
            StmtModel::Call { next, .. } => ways(p, next, resume),
            StmtModel::Perform { next, .. } => ways(p, next, resume),
            StmtModel::Resume { resume: used, next, .. } => if used == resume {
                sums(set![1nat], ways(p, next, resume))
            } else {
                ways(p, next, resume)
            },
            StmtModel::Val { value, next, .. } => sums(
                ways(p, value, resume),
                ways(p, next, resume),
            ),
            StmtModel::If { then_branch, else_branch, .. } => ways(p, then_branch, resume).union(
                ways(p, else_branch, resume),
            ),
            StmtModel::Match { arms, default, .. } => {
                let other = match default {
                    Some(default) => ways(p, default, resume),
                    None => set![0nat],
                };
                Set::new(
                    |n: nat|
                        other.contains(n) || exists|i: int| #![trigger arms[i]]
                            0 <= i < arms.len() && ways(p, arms[i].body, resume).contains(n),
                )
            },
            StmtModel::Handle { body, next, .. } => match next {
                Some(next) => sums(ways(p, body, resume), ways(p, next, resume)),
                None => ways(p, body, resume),
            },
            StmtModel::Stage { body, next, .. } => match next {
                Some(next) => sums(ways(p, body, resume), ways(p, next, resume)),
                None => ways(p, body, resume),
            },
        }
    }
}

/// A number lies between two bounds, of which the greatest bounds nothing.
pub open spec fn between(range: ResumeUseRange, n: nat) -> bool {
    &&& match range.min {
        ResumeUseBound::Zero => true,
        ResumeUseBound::One => n >= 1,
        ResumeUseBound::Many => n >= 2,
    }
    &&& match range.max {
        ResumeUseBound::Zero => n == 0,
        ResumeUseBound::One => n <= 1,
        ResumeUseBound::Many => true,
    }
}

/// A number is as great as a bound.
pub open spec fn as_great(bound: ResumeUseBound, n: nat) -> bool {
    match bound {
        ResumeUseBound::Zero => n == 0,
        ResumeUseBound::One => n == 1,
        ResumeUseBound::Many => n >= 2,
    }
}

/// Every way through code resumes as often as the range says.
pub proof fn lemma_every_way_in_range(p: CoreModel, s: StmtId, resume: VarId, n: nat)
    requires
        p.acyclic(),
        p.stmts_closed(),
        ways(p, s, resume).contains(n),
    ensures
        between(crate::passes::linearize::analysis::use_range(p, s, resume), n),
    decreases p.stmt_rank(s),
{
    crate::passes::linearize::analysis::lemma_stmt_ranks(p, s);
    match p.stmt(s) {
        StmtModel::Let { next, .. } => lemma_every_way_in_range(p, next, resume, n),
        StmtModel::Call { next, .. } => lemma_every_way_in_range(p, next, resume, n),
        StmtModel::Perform { next, .. } => lemma_every_way_in_range(p, next, resume, n),
        StmtModel::Resume { resume: used, next, .. } => {
            if used == resume {
                let k = choose|k: nat|
                    k <= n && #[trigger] set![1nat].contains(k) && ways(p, next, resume).contains(
                        (n - k) as nat,
                    );
                lemma_every_way_in_range(p, next, resume, (n - k) as nat);
            } else {
                lemma_every_way_in_range(p, next, resume, n);
            }
        },
        StmtModel::Val { value, next, .. } => {
            let k = choose|k: nat|
                    k <= n && #[trigger] ways(p, value, resume).contains(k) && ways(p, next, resume).contains(
                        (n - k) as nat,
                    );
            lemma_every_way_in_range(p, value, resume, k);
            lemma_every_way_in_range(p, next, resume, (n - k) as nat);
        },
        StmtModel::If { then_branch, else_branch, .. } => {
            if ways(p, then_branch, resume).contains(n) {
                lemma_every_way_in_range(p, then_branch, resume, n);
            } else {
                lemma_every_way_in_range(p, else_branch, resume, n);
            }
        },
        StmtModel::Match { arms, default, .. } => {
            lemma_arms_none(p, s, arms.len(), resume);
            if exists|i: int| #![trigger arms[i]]
                0 <= i < arms.len() && ways(p, arms[i].body, resume).contains(n) {
                let i = choose|i: int| #![trigger arms[i]]
                    0 <= i < arms.len() && ways(p, arms[i].body, resume).contains(n);
                crate::ir::core_ir::lemma_arm_is_part(p.stmt(s), i);
                lemma_every_way_in_range(p, arms[i].body, resume, n);
                lemma_arm_in_range(p, s, arms.len(), resume, i, n);
            } else if let Some(part) = default {
                lemma_every_way_in_range(p, part, resume, n);
            }
        },
        StmtModel::Handle { body, next, .. } => {
            if let Some(part) = next {
                let k = choose|k: nat|
                    k <= n && #[trigger] ways(p, body, resume).contains(k) && ways(p, part, resume).contains(
                        (n - k) as nat,
                    );
                lemma_every_way_in_range(p, body, resume, k);
                lemma_every_way_in_range(p, part, resume, (n - k) as nat);
            } else {
                lemma_every_way_in_range(p, body, resume, n);
            }
        },
        StmtModel::Stage { body, next, .. } => {
            if let Some(part) = next {
                let k = choose|k: nat|
                    k <= n && #[trigger] ways(p, body, resume).contains(k) && ways(p, part, resume).contains(
                        (n - k) as nat,
                    );
                lemma_every_way_in_range(p, body, resume, k);
                lemma_every_way_in_range(p, part, resume, (n - k) as nat);
            } else {
                lemma_every_way_in_range(p, body, resume, n);
            }
        },
        _ => {},
    }
}

proof fn lemma_arms_none(p: CoreModel, s: StmtId, first: nat, resume: VarId)
    requires
        p.acyclic(),
        p.has_stmt(s),
        p.stmt(s) is Match,
        first <= p.stmt(s)->arms.len(),
    ensures
        crate::passes::linearize::analysis::arms_range(p, s, first, resume).min is Zero,
    decreases first,
{
    if first > 0 {
        lemma_arms_none(p, s, (first - 1) as nat, resume);
    }
}

proof fn lemma_arm_in_range(
    p: CoreModel,
    s: StmtId,
    first: nat,
    resume: VarId,
    i: int,
    n: nat,
)
    requires
        p.acyclic(),
        p.has_stmt(s),
        p.stmt(s) is Match,
        0 <= i < first <= p.stmt(s)->arms.len(),
        between(
            crate::passes::linearize::analysis::use_range(p, p.stmt(s)->arms[i].body, resume),
            n,
        ),
    ensures
        between(crate::passes::linearize::analysis::arms_range(p, s, first, resume), n),
    decreases first,
{
    lemma_arms_none(p, s, (first - 1) as nat, resume);
    if i < first - 1 {
        lemma_arm_in_range(p, s, (first - 1) as nat, resume, i, n);
    }
}

/// Some way through code resumes as often as the range says at most.
#[verifier::rlimit(60)]
#[verifier::spinoff_prover]
pub proof fn lemma_some_way_at_most(p: CoreModel, s: StmtId, resume: VarId) -> (n: nat)
    requires
        p.acyclic(),
        p.stmts_closed(),
        p.has_stmt(s),
    ensures
        ways(p, s, resume).contains(n),
        as_great(crate::passes::linearize::analysis::use_range(p, s, resume).max, n),
    decreases p.stmt_rank(s), 1nat, 0nat,
{
    crate::passes::linearize::analysis::lemma_stmt_ranks(p, s);
    match p.stmt(s) {
        StmtModel::Let { next, .. } => {
            assert(p.stmt(s).has_part(next));
            lemma_some_way_at_most(p, next, resume)
        },
        StmtModel::Call { next, .. } => {
            assert(p.stmt(s).has_part(next));
            lemma_some_way_at_most(p, next, resume)
        },
        StmtModel::Perform { next, .. } => {
            assert(p.stmt(s).has_part(next));
            lemma_some_way_at_most(p, next, resume)
        },
        StmtModel::Resume { resume: used, next, .. } => {
            assert(p.stmt(s).has_part(next));
            let n = lemma_some_way_at_most(p, next, resume);
            if used == resume {
                lemma_sum(set![1nat], ways(p, next, resume), 1, n);
                1 + n
            } else {
                n
            }
        },
        StmtModel::Val { value, next, .. } => {
            assert(p.stmt(s).has_part(value));
            assert(p.stmt(s).has_part(next));
            let k = lemma_some_way_at_most(p, value, resume);
            let n = lemma_some_way_at_most(p, next, resume);
            lemma_sum(ways(p, value, resume), ways(p, next, resume), k, n);
            k + n
        },
        StmtModel::If { then_branch, else_branch, .. } => {
            assert(p.stmt(s).has_part(then_branch));
            assert(p.stmt(s).has_part(else_branch));
            let a = lemma_some_way_at_most(p, then_branch, resume);
            let b = lemma_some_way_at_most(p, else_branch, resume);
            if crate::passes::linearize::analysis::use_range(p, then_branch, resume).max
                == crate::passes::linearize::analysis::use_range(p, s, resume).max {
                a
            } else {
                b
            }
        },
        StmtModel::Match { arms, default, .. } => {
            let all = crate::passes::linearize::analysis::arms_range(p, s, arms.len(), resume).max;
            let most = crate::passes::linearize::analysis::use_range(p, s, resume).max;
            match default {
                Some(part) => {
                    assert(p.stmt(s).has_part(part));
                    let d = lemma_some_way_at_most(p, part, resume);
                    let of = crate::passes::linearize::analysis::use_range(p, part, resume).max;
                    if most == of {
                        d
                    } else {
                        lemma_some_arm_at_most(p, s, arms.len(), resume)
                    }
                },
                None => {
                    if all is Zero {
                        0nat
                    } else {
                        lemma_some_arm_at_most(p, s, arms.len(), resume)
                    }
                },
            }
        },
        StmtModel::Handle { body, next, .. } => {
            assert(p.stmt(s).has_part(body));
            let k = lemma_some_way_at_most(p, body, resume);
            match next {
                Some(part) => {
                    assert(p.stmt(s).has_part(part));
                    let n = lemma_some_way_at_most(p, part, resume);
                    lemma_sum(ways(p, body, resume), ways(p, part, resume), k, n);
                    k + n
                },
                None => k,
            }
        },
        StmtModel::Stage { body, next, .. } => {
            assert(p.stmt(s).has_part(body));
            let k = lemma_some_way_at_most(p, body, resume);
            match next {
                Some(part) => {
                    assert(p.stmt(s).has_part(part));
                    let n = lemma_some_way_at_most(p, part, resume);
                    lemma_sum(ways(p, body, resume), ways(p, part, resume), k, n);
                    k + n
                },
                None => k,
            }
        },
        _ => 0nat,
    }
}

proof fn lemma_some_arm_at_most(p: CoreModel, s: StmtId, first: nat, resume: VarId) -> (n: nat)
    requires
        p.acyclic(),
        p.stmts_closed(),
        p.has_stmt(s),
        p.stmt(s) is Match,
        first <= p.stmt(s)->arms.len(),
        !(crate::passes::linearize::analysis::arms_range(p, s, first, resume).max is Zero),
    ensures
        exists|i: int| #![trigger p.stmt(s)->arms[i]]
            0 <= i < first && ways(p, p.stmt(s)->arms[i].body, resume).contains(n),
        as_great(crate::passes::linearize::analysis::arms_range(p, s, first, resume).max, n),
    decreases p.stmt_rank(s), 0nat, first,
{
    let last = p.stmt(s)->arms[first - 1].body;
    crate::ir::core_ir::lemma_arm_is_part(p.stmt(s), first - 1);
    crate::passes::linearize::analysis::lemma_stmt_ranks(p, s);
    if crate::passes::linearize::analysis::use_range(p, last, resume).max
        == crate::passes::linearize::analysis::arms_range(p, s, first, resume).max {
        let n = lemma_some_way_at_most(p, last, resume);
        assert(p.stmt(s)->arms[first - 1].body == last);
        n
    } else {
        lemma_some_arm_at_most(p, s, (first - 1) as nat, resume)
    }
}

/// Code that resumes last of all comes to what the world answers to a resume, and
/// does nothing after it; or it comes to nothing.
#[verifier::rlimit(60)]
pub proof fn lemma_resumes_last(
    w: World,
    p: CoreModel,
    s: StmtId,
    resume: VarId,
    vars: Map<usize, Value>,
    seen: Seq<Event>,
)
    requires
        p.acyclic(),
        crate::passes::linearize::analysis::tail_resumptive(p, s, resume),
    ensures
        ({
            let o = crate::meaning::open_run::open_run(w, p, vars, seen, s);
            o.value == Value::Wrong || (o.seen.len() > 0 && o.seen.last() is Resume && o.value == (
            w.answer)(o.seen))
        }),
    decreases p.stmt_rank(s),
{
    let m = w.arithmetic;
    crate::passes::linearize::analysis::lemma_stmt_ranks(p, s);
    match p.stmt(s) {
        StmtModel::Let { binding, value, next } => {
            let v = crate::meaning::core_values::core_value(m, p, vars, value);
            lemma_resumes_last(w, p, next, resume, vars.insert(binding.0, v), seen);
        },
        StmtModel::Val { binding, value, next } => {
            let o = crate::meaning::open_run::open_run(w, p, vars, seen, value);
            if crate::passes::linearize::analysis::returns_var(p, next, binding) {
                lemma_resumes_last(w, p, value, resume, vars, seen);
                lemma_only_returned(w, p, next, binding, vars.insert(binding.0, o.value), o.seen);
            } else {
                lemma_resumes_last(w, p, next, resume, vars.insert(binding.0, o.value), o.seen);
            }
        },
        StmtModel::Resume { result, resume: used, arg, next } => {
            let more = seen.push(
                Event::Resume {
                    of: crate::meaning::core_values::value_of(vars, used),
                    with: crate::meaning::core_values::core_value(m, p, vars, arg),
                },
            );
            lemma_only_returned(
                w,
                p,
                next,
                result,
                vars.insert(result.0, (w.answer)(more)),
                more,
            );
        },
        StmtModel::If { then_branch, else_branch, .. } => {
            lemma_resumes_last(w, p, then_branch, resume, vars, seen);
            lemma_resumes_last(w, p, else_branch, resume, vars, seen);
        },
        StmtModel::Match { scrutinee, arms, default } => {
            let value = crate::meaning::core_values::core_value(m, p, vars, scrutinee);
            let tags = crate::meaning::core_run::core_tags(arms);
            crate::meaning::worlds::lemma_arm_of(tags, value);
            match crate::meaning::worlds::arm_of(tags, value) {
                Some(i) => {
                    crate::ir::core_ir::lemma_arm_is_part(p.stmt(s), i);
                    let binders = arms[i].binders;
                    lemma_resumes_last(
                        w,
                        p,
                        arms[i].body,
                        resume,
                        crate::meaning::worlds::with_fields(vars, binders, value, binders.len()),
                        seen,
                    );
                },
                None => {
                    if let Some(part) = default {
                        lemma_resumes_last(w, p, part, resume, vars, seen);
                    }
                },
            }
        },
        _ => {},
    }
}

proof fn lemma_only_returned(
    w: World,
    p: CoreModel,
    s: StmtId,
    var: VarId,
    vars: Map<usize, Value>,
    seen: Seq<Event>,
)
    requires
        p.acyclic(),
        crate::passes::linearize::analysis::returns_var(p, s, var),
    ensures
        crate::meaning::open_run::open_run(w, p, vars, seen, s).value
            == crate::meaning::core_values::value_of(vars, var),
        crate::meaning::open_run::open_run(w, p, vars, seen, s).seen == seen,
{
}

/// A clause that is called abortive resumes on no way, an affine one at most
/// once, a linear one just once, and one that may resume many times does so on
/// some way. A clause that is entered directly resumes at most once on every way.
pub proof fn lemma_qualifier(p: CoreModel, clause: ClauseModel, n: nat) -> (many: nat)
    requires
        p.acyclic(),
        p.stmts_closed(),
        p.has_stmt(clause.body),
        clause.resume_param is Some,
        ways(p, clause.body, clause.resume_param->0).contains(n),
    ensures
        ways(p, clause.body, clause.resume_param->0).contains(many),
        match crate::passes::linearize::analysis::clause_resume(p, clause).qualifier {
            ResumeQualifier::Abortive => n == 0,
            ResumeQualifier::Affine => n <= 1 && many == 1,
            ResumeQualifier::Linear => n == 1,
            ResumeQualifier::Multi => many >= 2,
        },
        crate::passes::linearize::analysis::clause_convention(p, clause) is Direct ==> n <= 1,
        crate::passes::linearize::analysis::clause_convention(p, clause) is Control ==> many >= 2
            || !crate::passes::linearize::analysis::tail_resumptive(
            p,
            clause.body,
            clause.resume_param->0,
        ),
{
    let resume = clause.resume_param->0;
    lemma_every_way_in_range(p, clause.body, resume, n);
    lemma_some_way_at_most(p, clause.body, resume)
}

} // verus!
