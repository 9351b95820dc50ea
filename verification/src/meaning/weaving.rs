//! Linear code does what the core code does that it was made from, its handlers
//! included.
use crate::common::ids::{
    ExprId, FuncId, HandlerId, LinearExprId, LinearStmtId, StmtId, SymbolId, VarId,
};
use crate::ir::core_ir::{CoreModel, ExprModel, HandlerModel, StmtModel};
use crate::meaning::core_run::Place;
use crate::meaning::values::{Arithmetic, Value};
use crate::meaning::worlds::{Event, World};
use crate::passes::linearize::lowering::{LinearState, Mode, ResumeContext, Task};
use crate::sema::effect::EffectProperties;
use vstd::prelude::*;

verus! {

/// Code is lowered for the place in which it runs.
pub open spec fn place_is(mode: Mode, place: Place) -> bool {
    match (mode, place) {
        (Mode::Plain, Place::Alone) => true,
        (Mode::Under(h, context), Place::Under(g, to)) => h == g && match (context, to) {
            (None, None) => true,
            (Some(c), Some(to)) => {
                &&& c.resume_var == to.resume
                &&& c.perform_result == to.into
                &&& c.continuation == to.rest
                &&& c.clause_convention is Direct <==> to.last
            },
            _ => false,
        },
        _ => false,
    }
}

/// The linear expression for a core expression has its value.
pub proof fn lemma_linear_value(
    m: Arithmetic,
    p: CoreModel,
    properties: Map<usize, EffectProperties>,
    state: LinearState,
    vars: Map<usize, Value>,
    e: ExprId,
    d: LinearExprId,
)
    requires
        p.acyclic(),
        p.has_expr(e),
        p.exprs_closed(),
        state.holds(p, properties),
        state.expr_at(e, d),
    ensures
        crate::meaning::linear_run::linear_value(m, state.lin, vars, d)
            == crate::meaning::core_values::core_value(m, p, vars, e),
    decreases p.expr_rank(e), 1nat, 0nat,
{
    crate::passes::linearize::analysis::lemma_expr_ranks(p, e);
    assert(state.expr_holds(p, e, d));
    match p.expr(e) {
        ExprModel::Unary { op, expr } => {
            assert(p.expr(e).has_part(expr));
            lemma_linear_value(
                m,
                p,
                properties,
                state,
                vars,
                expr,
                state.lin.expr(d)->Unary_expr,
            );
        },
        ExprModel::Binary { op, lhs, rhs } => {
            assert(p.expr(e).has_part(lhs));
            assert(p.expr(e).has_part(rhs));
            lemma_linear_value(m, p, properties, state, vars, lhs, state.lin.expr(d)->lhs);
            lemma_linear_value(m, p, properties, state, vars, rhs, state.lin.expr(d)->rhs);
        },
        ExprModel::PureCall { args, .. } => {
            lemma_linear_parts(m, p, properties, state, vars, e, d, args.len());
        },
        ExprModel::MakeStruct { fields, .. } => {
            lemma_linear_parts(m, p, properties, state, vars, e, d, fields.len());
        },
        ExprModel::MakeEnum { fields, .. } => {
            lemma_linear_parts(m, p, properties, state, vars, e, d, fields.len());
        },
        _ => {},
    }
}

proof fn lemma_linear_parts(
    m: Arithmetic,
    p: CoreModel,
    properties: Map<usize, EffectProperties>,
    state: LinearState,
    vars: Map<usize, Value>,
    e: ExprId,
    d: LinearExprId,
    first: nat,
)
    requires
        p.acyclic(),
        p.has_expr(e),
        p.exprs_closed(),
        state.holds(p, properties),
        state.expr_holds(p, e, d),
        p.expr(e) is PureCall || p.expr(e) is MakeStruct || p.expr(e) is MakeEnum,
        first <= p.expr(e).parts().len(),
    ensures
        crate::meaning::linear_run::linear_values(m, state.lin, vars, d, first)
            == crate::meaning::core_values::core_parts(m, p, vars, e, first),
    decreases p.expr_rank(e), 0nat, first,
{
    if first > 0 {
        crate::passes::linearize::analysis::lemma_expr_ranks(p, e);
        crate::meaning::core_values::lemma_parts(p.expr(e), first - 1);
        lemma_linear_parts(m, p, properties, state, vars, e, d, (first - 1) as nat);
        let part = p.expr(e).parts()[first - 1];
        let to = crate::meaning::linear_run::linear_parts(state.lin.expr(d))[first - 1];
        assert(state.expr_at(part, to));
        lemma_linear_value(m, p, properties, state, vars, part, to);
    }
}

/// Linear expressions in a row have the values of core expressions in a row.
proof fn lemma_linear_all(
    m: Arithmetic,
    p: CoreModel,
    properties: Map<usize, EffectProperties>,
    state: LinearState,
    vars: Map<usize, Value>,
    s: StmtId,
    es: Seq<ExprId>,
    ds: Seq<LinearExprId>,
)
    requires
        p.acyclic(),
        p.closed(),
        p.has_stmt(s),
        p.stmt(s).expr_parts() == es,
        p.stmt(s) is Call || p.stmt(s) is Perform,
        state.holds(p, properties),
        state.exprs_at(es, ds),
    ensures
        crate::meaning::linear_run::linear_all(m, state.lin, vars, ds)
            == crate::meaning::core_values::core_all(m, p, vars, es),
{
    let left = crate::meaning::linear_run::linear_all(m, state.lin, vars, ds);
    let right = crate::meaning::core_values::core_all(m, p, vars, es);
    assert forall|i: int| 0 <= i < es.len() implies left[i] == right[i] by {
        assert(es.contains(es[i]));
        assert(p.stmt(s).has_expr(es[i]));
        assert(state.expr_at(es[i], ds[i]));
        lemma_linear_value(m, p, properties, state, vars, es[i], ds[i]);
    }
    assert(left =~= right);
}

/// The first clause for an operation is the one that answers it.
proof fn lemma_clause(handler: HandlerModel, operation: SymbolId)
    ensures
        match crate::passes::linearize::lowering::clause_for(handler, operation) {
            Some(clause) => {
                let names = crate::meaning::core_run::operations(handler);
                &&& exists|i: int| crate::meaning::worlds::is_first(names, operation, i)
                &&& handler.clauses[choose|i: int|
                    crate::meaning::worlds::is_first(names, operation, i)] == clause
            },
            None => !exists|i: int|
                crate::meaning::worlds::is_first(
                    crate::meaning::core_run::operations(handler),
                    operation,
                    i,
                ),
        },
{
    let names = crate::meaning::core_run::operations(handler);
    assert forall|i: int|
        crate::passes::linearize::lowering::is_clause(handler, operation, i)
            == #[trigger] crate::meaning::worlds::is_first(names, operation, i) by {
        if crate::meaning::worlds::is_first(names, operation, i) {
            assert forall|j: int| 0 <= j < i implies (#[trigger] handler.clauses[j]).operation
                != operation by {
                assert(names[j] != operation);
            }
        }
    }
    if exists|i: int| crate::passes::linearize::lowering::is_clause(handler, operation, i) {
        let i = choose|i: int| crate::passes::linearize::lowering::is_clause(handler, operation, i);
        assert(crate::meaning::worlds::is_first(names, operation, i));
        let k = choose|k: int| crate::meaning::worlds::is_first(names, operation, k);
        assert(crate::meaning::worlds::is_first(names, operation, k));
        if i < k {
            assert(names[i] != operation);
        }
        if k < i {
            assert(names[k] != operation);
        }
    } else {
        if exists|i: int| crate::meaning::worlds::is_first(names, operation, i) {
            let k = choose|k: int| crate::meaning::worlds::is_first(names, operation, k);
            assert(crate::passes::linearize::lowering::is_clause(handler, operation, k));
        }
    }
}

/// The statements that bind parameters bind them to the arguments.
proof fn lemma_bindings(
    w: World,
    p: CoreModel,
    properties: Map<usize, EffectProperties>,
    state: LinearState,
    vars: Map<usize, Value>,
    seen: Seq<Event>,
    s: StmtId,
    params: Seq<VarId>,
    from: nat,
    d: LinearStmtId,
)
    requires
        p.acyclic(),
        p.closed(),
        p.has_stmt(s),
        p.stmt(s) is Perform,
        state.holds(p, properties),
        from <= params.len(),
        state.past_bindings(params, p.stmt(s)->Perform_args, from as int, d) is Some,
    ensures
        ({
            let args = p.stmt(s)->Perform_args;
            crate::meaning::linear_run::linear_run(w, state.lin, vars, seen, d)
                == crate::meaning::linear_run::linear_run(
                w,
                state.lin,
                crate::meaning::core_run::with_args(w, p, vars, params, args, from),
                seen,
                state.past_bindings(params, args, from as int, d)->0,
            )
        }),
    decreases params.len() - from,
{
    let args = p.stmt(s)->Perform_args;
    if from < params.len() && from < args.len() {
        let value = state.lin.stmt(d)->Let_value;
        let next = state.lin.stmt(d)->Let_next;
        let arg = args[from as int];
        assert(args.contains(arg));
        assert(p.stmt(s).has_expr(arg));
        lemma_linear_value(w.arithmetic, p, properties, state, vars, arg, value);
        lemma_bindings(
            w,
            p,
            properties,
            state,
            vars.insert(
                params[from as int].0,
                crate::meaning::core_values::core_value(w.arithmetic, p, vars, arg),
            ),
            seen,
            s,
            params,
            from + 1,
            next,
        );
    }
}

/// What a core statement comes to, the linear statement made from it comes to,
/// with the world seeing the same.
#[verifier::rlimit(100)]
#[verifier::spinoff_prover]
pub proof fn lemma_does_the_same(
    w: World,
    p: CoreModel,
    properties: Map<usize, EffectProperties>,
    state: LinearState,
    steps: nat,
    vars: Map<usize, Value>,
    seen: Seq<Event>,
    task: Task,
    place: Place,
    d: LinearStmtId,
)
    requires
        p.acyclic(),
        p.closed(),
        state.holds(p, properties),
        crate::passes::linearize::lowering::fits(p, task),
        crate::passes::linearize::lowering::ends(p, task),
        state.at(p, properties, task, d),
        place_is(task.mode, place),
        crate::meaning::core_run::core_run(w, p, steps, vars, seen, place, task.stmt) is Some,
    ensures
        Some(crate::meaning::linear_run::linear_run(w, state.lin, vars, seen, d))
            == crate::meaning::core_run::core_run(w, p, steps, vars, seen, place, task.stmt),
    decreases steps, 2nat,
{
    crate::passes::linearize::lowering::lemma_needs(p, task);
    let s = task.stmt;
    assert forall|part: StmtId| #[trigger] p.stmt(s).has_part(part) implies p.has_stmt(part) by {}
    match task.mode {
        Mode::Plain => {
            if let StmtModel::Resume { next, .. } = p.stmt(s) {
                let sub = Task { stmt: next, mode: Mode::Plain };
                assert(p.stmt(s).has_part(next));
                assert(crate::passes::linearize::lowering::needs(p, task, sub));
                lemma_does_the_same(
                    w,
                    p,
                    properties,
                    state,
                    (steps - 1) as nat,
                    vars,
                    seen,
                    sub,
                    place,
                    d,
                );
            } else {
                assert(state.stmts[s.0 as int] == Some(d));
                assert(state.plain_holds(p, properties, s, d));
                let woven = match p.stmt(s) {
                    StmtModel::Handle { handler, body, next } => p.has_handler(handler)
                        && next is None,
                    _ => false,
                };
                if woven {
                    let handler = p.stmt(s)->handler;
                    let body = p.stmt(s)->Handle_body;
                    let sub = Task { stmt: body, mode: Mode::Under(handler, None) };
                    assert(p.stmt(s).has_part(body));
                    assert(crate::passes::linearize::lowering::needs(p, task, sub));
                    lemma_does_the_same(
                        w,
                        p,
                        properties,
                        state,
                        (steps - 1) as nat,
                        vars,
                        seen,
                        sub,
                        Place::Under(handler, None),
                        d,
                    );
                } else {
                    lemma_plain_same(w, p, properties, state, steps, vars, seen, s, d);
                }
            }
        },
        Mode::Under(h, context) => {
            match p.stmt(s) {
                StmtModel::Return(_) | StmtModel::Resume { .. } | StmtModel::Handle { .. } => {
                    lemma_special_same(
                        w,
                        p,
                        properties,
                        state,
                        steps,
                        vars,
                        seen,
                        s,
                        h,
                        context,
                        place,
                        d,
                    );
                },
                StmtModel::Perform { effect, .. } if effect == p.handler(h).effect => {
                    lemma_special_same(
                        w,
                        p,
                        properties,
                        state,
                        steps,
                        vars,
                        seen,
                        s,
                        h,
                        context,
                        place,
                        d,
                    );
                },
                _ => {
                    lemma_under_same(
                        w,
                        p,
                        properties,
                        state,
                        steps,
                        vars,
                        seen,
                        s,
                        h,
                        context,
                        place,
                        d,
                    );
                },
            }
        },
    }
}

/// The same of a statement that is lowered on its own and not woven.
#[verifier::rlimit(100)]
#[verifier::spinoff_prover]
proof fn lemma_plain_same(
    w: World,
    p: CoreModel,
    properties: Map<usize, EffectProperties>,
    state: LinearState,
    steps: nat,
    vars: Map<usize, Value>,
    seen: Seq<Event>,
    s: StmtId,
    d: LinearStmtId,
)
    requires
        p.acyclic(),
        p.closed(),
        state.holds(p, properties),
        p.has_stmt(s),
        crate::passes::linearize::lowering::ends(p, Task { stmt: s, mode: Mode::Plain }),
        !(p.stmt(s) is Resume),
        p.stmt(s) matches StmtModel::Handle { handler, next, .. } ==> !(p.has_handler(handler)
            && next is None),
        state.fresh(d),
        state.plain_says(p, properties, s, state.lin.stmt(d)),
        crate::meaning::core_run::core_run(w, p, steps, vars, seen, Place::Alone, s) is Some,
    ensures
        Some(crate::meaning::linear_run::linear_run(w, state.lin, vars, seen, d))
            == crate::meaning::core_run::core_run(w, p, steps, vars, seen, Place::Alone, s),
    decreases steps, 1nat,
{
    let task = Task { stmt: s, mode: Mode::Plain };
    crate::passes::linearize::lowering::lemma_needs(p, task);
    let m = w.arithmetic;
    let n = (steps - 1) as nat;
    let kind = state.lin.stmt(d);
    match p.stmt(s) {
        StmtModel::Return(e) => {
            assert(p.stmt(s).has_expr(e));
            lemma_linear_value(m, p, properties, state, vars, e, kind->Return_0);
        },
        StmtModel::Let { binding, value, next } => {
            assert(p.stmt(s).has_part(next));
            assert(p.stmt(s).has_expr(value));
            lemma_linear_value(m, p, properties, state, vars, value, kind->Let_value);
            let v = crate::meaning::core_values::core_value(m, p, vars, value);
            assert(crate::passes::linearize::lowering::needs(
                p,
                task,
                Task { stmt: next, mode: Mode::Plain },
            ));
            lemma_does_the_same(
                w,
                p,
                properties,
                state,
                (steps - 1) as nat,
                vars.insert(binding.0, v),
                seen,
                Task { stmt: next, mode: Mode::Plain },
                Place::Alone,
                kind->Let_next,
            );
        },
        StmtModel::Val { binding, value, next } => {
            assert(p.stmt(s).has_part(value));
            assert(p.stmt(s).has_part(next));
            assert(crate::passes::linearize::lowering::needs(
                p,
                task,
                Task { stmt: value, mode: Mode::Plain },
            ));
            lemma_does_the_same(
                w,
                p,
                properties,
                state,
                (steps - 1) as nat,
                vars,
                seen,
                Task { stmt: value, mode: Mode::Plain },
                Place::Alone,
                kind->Val_value,
            );
            let o = crate::meaning::core_run::core_run(w, p, n, vars, seen, Place::Alone, value)->0;
            assert(crate::passes::linearize::lowering::needs(
                p,
                task,
                Task { stmt: next, mode: Mode::Plain },
            ));
            lemma_does_the_same(
                w,
                p,
                properties,
                state,
                (steps - 1) as nat,
                vars.insert(binding.0, o.value),
                o.seen,
                Task { stmt: next, mode: Mode::Plain },
                Place::Alone,
                kind->Val_next,
            );
        },
        StmtModel::Call { result, callee, args, next, .. } => {
            assert(p.stmt(s).has_part(next));
            lemma_linear_all(m, p, properties, state, vars, s, args, kind->Call_args);
            let more = seen.push(
                Event::Call {
                    callee: crate::meaning::core_values::name_of(p, callee),
                    args: crate::meaning::core_values::core_all(m, p, vars, args),
                },
            );
            assert(crate::passes::linearize::lowering::needs(
                p,
                task,
                Task { stmt: next, mode: Mode::Plain },
            ));
            lemma_does_the_same(
                w,
                p,
                properties,
                state,
                (steps - 1) as nat,
                vars.insert(result.0, (w.answer)(more)),
                more,
                Task { stmt: next, mode: Mode::Plain },
                Place::Alone,
                kind->Call_next,
            );
        },
        StmtModel::If { cond, then_branch, else_branch } => {
            assert(p.stmt(s).has_part(then_branch));
            assert(p.stmt(s).has_part(else_branch));
            assert(p.stmt(s).has_expr(cond));
            lemma_linear_value(m, p, properties, state, vars, cond, kind->cond);
            if let Value::Bool(taken) = crate::meaning::core_values::core_value(m, p, vars, cond) {
                if taken {
                    assert(crate::passes::linearize::lowering::needs(
                        p,
                        task,
                        Task { stmt: then_branch, mode: Mode::Plain },
                    ));
                    lemma_does_the_same(
                        w,
                        p,
                        properties,
                        state,
                        (steps - 1) as nat,
                        vars,
                        seen,
                        Task { stmt: then_branch, mode: Mode::Plain },
                        Place::Alone,
                        kind->then_branch,
                    );
                } else {
                    assert(crate::passes::linearize::lowering::needs(
                        p,
                        task,
                        Task { stmt: else_branch, mode: Mode::Plain },
                    ));
                    lemma_does_the_same(
                        w,
                        p,
                        properties,
                        state,
                        (steps - 1) as nat,
                        vars,
                        seen,
                        Task { stmt: else_branch, mode: Mode::Plain },
                        Place::Alone,
                        kind->else_branch,
                    );
                }
            }
        },
        StmtModel::Match { scrutinee, arms, default } => {
            assert(p.stmt(s).has_expr(scrutinee));
            lemma_linear_value(m, p, properties, state, vars, scrutinee, kind->scrutinee);
            let value = crate::meaning::core_values::core_value(m, p, vars, scrutinee);
            let tags = crate::meaning::core_run::core_tags(arms);
            let ds = kind->Match_arms;
            assert(crate::meaning::linear_run::linear_tags(ds) =~= tags) by {
                assert forall|i: int| 0 <= i < arms.len() implies #[trigger] ds[i].tag
                    == arms[i].tag by {}
            }
            crate::meaning::worlds::lemma_arm_of(tags, value);
            match crate::meaning::worlds::arm_of(tags, value) {
                Some(i) => {
                    crate::ir::core_ir::lemma_arm_is_part(p.stmt(s), i);
                    assert(ds[i].binders == arms[i].binders);
                    assert(crate::passes::linearize::lowering::needs(
                        p,
                        task,
                        Task { stmt: arms[i].body, mode: Mode::Plain },
                    ));
                    lemma_does_the_same(
                        w,
                        p,
                        properties,
                        state,
                        (steps - 1) as nat,
                        crate::meaning::worlds::with_fields(
                            vars,
                            arms[i].binders,
                            value,
                            arms[i].binders.len(),
                        ),
                        seen,
                        Task { stmt: arms[i].body, mode: Mode::Plain },
                        Place::Alone,
                        ds[i].body,
                    );
                },
                None => {
                    if let Some(default) = default {
                        assert(p.stmt(s).has_part(default));
                        assert(crate::passes::linearize::lowering::needs(
                            p,
                            task,
                            Task { stmt: default, mode: Mode::Plain },
                        ));
                        lemma_does_the_same(
                            w,
                            p,
                            properties,
                            state,
                            (steps - 1) as nat,
                            vars,
                            seen,
                            Task { stmt: default, mode: Mode::Plain },
                            Place::Alone,
                            kind->default->0,
                        );
                    }
                },
            }
        },
        StmtModel::Perform { result, effect, operation, args, next } => {
            assert(p.stmt(s).has_part(next));
            lemma_linear_all(m, p, properties, state, vars, s, args, kind->Perform_args);
            let more = seen.push(
                Event::Perform {
                    effect,
                    operation,
                    args: crate::meaning::core_values::core_all(m, p, vars, args),
                },
            );
            assert(crate::passes::linearize::lowering::needs(
                p,
                task,
                Task { stmt: next, mode: Mode::Plain },
            ));
            lemma_does_the_same(
                w,
                p,
                properties,
                state,
                (steps - 1) as nat,
                crate::meaning::worlds::bind_option(vars, result, (w.answer)(more)),
                more,
                Task { stmt: next, mode: Mode::Plain },
                Place::Alone,
                kind->Perform_next,
            );
        },
        StmtModel::Handle { handler, body, next } => {
            let effect = crate::passes::linearize::lowering::handled_effect(p, handler);
            let entered = seen.push(Event::Enter(effect));
            assert(p.stmt(s).has_part(body));
            assert(crate::passes::linearize::lowering::needs(
                p,
                task,
                Task { stmt: body, mode: Mode::Plain },
            ));
            lemma_does_the_same(
                w,
                p,
                properties,
                state,
                (steps - 1) as nat,
                vars,
                entered,
                Task { stmt: body, mode: Mode::Plain },
                Place::Alone,
                kind->Handle_body,
            );
            let o = crate::meaning::core_run::core_run(
                w,
                p,
                n,
                vars,
                entered,
                Place::Alone,
                body,
            )->0;
            if let Some(next) = next {
                assert(p.stmt(s).has_part(next));
                assert(crate::passes::linearize::lowering::needs(
                    p,
                    task,
                    Task { stmt: next, mode: Mode::Plain },
                ));
                lemma_does_the_same(
                    w,
                    p,
                    properties,
                    state,
                    (steps - 1) as nat,
                    vars,
                    o.seen.push(Event::Leave(effect)),
                    Task { stmt: next, mode: Mode::Plain },
                    Place::Alone,
                    kind->Handle_next->0,
                );
            }
        },
        StmtModel::Stage { stage, body, next } => {
            let entered = seen.push(Event::Stage(stage));
            assert(p.stmt(s).has_part(body));
            assert(crate::passes::linearize::lowering::needs(
                p,
                task,
                Task { stmt: body, mode: Mode::Plain },
            ));
            lemma_does_the_same(
                w,
                p,
                properties,
                state,
                (steps - 1) as nat,
                vars,
                entered,
                Task { stmt: body, mode: Mode::Plain },
                Place::Alone,
                kind->Stage_body,
            );
            let o = crate::meaning::core_run::core_run(
                w,
                p,
                n,
                vars,
                entered,
                Place::Alone,
                body,
            )->0;
            if let Some(next) = next {
                assert(p.stmt(s).has_part(next));
                assert(crate::passes::linearize::lowering::needs(
                    p,
                    task,
                    Task { stmt: next, mode: Mode::Plain },
                ));
                lemma_does_the_same(
                    w,
                    p,
                    properties,
                    state,
                    (steps - 1) as nat,
                    vars,
                    o.seen,
                    Task { stmt: next, mode: Mode::Plain },
                    Place::Alone,
                    kind->Stage_next->0,
                );
            }
        },
        _ => {},
    }
}

/// The same of a statement under a handler that does not touch it.
#[verifier::rlimit(100)]
#[verifier::spinoff_prover]
proof fn lemma_under_same(
    w: World,
    p: CoreModel,
    properties: Map<usize, EffectProperties>,
    state: LinearState,
    steps: nat,
    vars: Map<usize, Value>,
    seen: Seq<Event>,
    s: StmtId,
    h: HandlerId,
    context: Option<ResumeContext>,
    place: Place,
    d: LinearStmtId,
)
    requires
        p.acyclic(),
        p.closed(),
        state.holds(p, properties),
        crate::passes::linearize::lowering::fits(
            p,
            Task { stmt: s, mode: Mode::Under(h, context) },
        ),
        crate::passes::linearize::lowering::ends(
            p,
            Task { stmt: s, mode: Mode::Under(h, context) },
        ),
        !(p.stmt(s) is Return),
        !(p.stmt(s) is Resume),
        !(p.stmt(s) is Handle),
        p.stmt(s) matches StmtModel::Perform { effect, .. } ==> effect != p.handler(h).effect,
        state.under(p, properties, s, h, context, d),
        place_is(Mode::Under(h, context), place),
        crate::meaning::core_run::core_run(w, p, steps, vars, seen, place, s) is Some,
    ensures
        Some(crate::meaning::linear_run::linear_run(w, state.lin, vars, seen, d))
            == crate::meaning::core_run::core_run(w, p, steps, vars, seen, place, s),
    decreases steps, 1nat,
{
    let mode = Mode::Under(h, context);
    let task = Task { stmt: s, mode };
    crate::passes::linearize::lowering::lemma_needs(p, task);
    let m = w.arithmetic;
    let n = (steps - 1) as nat;
    let kind = state.lin.stmt(d);
    match p.stmt(s) {
        StmtModel::Let { binding, value, next } => {
            assert(p.stmt(s).has_part(next));
            assert(p.stmt(s).has_expr(value));
            lemma_linear_value(m, p, properties, state, vars, value, kind->Let_value);
            let v = crate::meaning::core_values::core_value(m, p, vars, value);
            assert(crate::passes::linearize::lowering::needs(
                p,
                task,
                Task { stmt: next, mode: mode },
            ));
            lemma_does_the_same(
                w,
                p,
                properties,
                state,
                (steps - 1) as nat,
                vars.insert(binding.0, v),
                seen,
                Task { stmt: next, mode: mode },
                place,
                kind->Let_next,
            );
        },
        StmtModel::Val { binding, value, next } => {
            assert(p.stmt(s).has_part(value));
            assert(p.stmt(s).has_part(next));
            assert(crate::passes::linearize::lowering::needs(
                p,
                task,
                Task { stmt: value, mode: mode },
            ));
            lemma_does_the_same(
                w,
                p,
                properties,
                state,
                (steps - 1) as nat,
                vars,
                seen,
                Task { stmt: value, mode: mode },
                place,
                kind->Val_value,
            );
            let o = crate::meaning::core_run::core_run(w, p, n, vars, seen, place, value)->0;
            assert(crate::passes::linearize::lowering::needs(
                p,
                task,
                Task { stmt: next, mode: mode },
            ));
            lemma_does_the_same(
                w,
                p,
                properties,
                state,
                (steps - 1) as nat,
                vars.insert(binding.0, o.value),
                o.seen,
                Task { stmt: next, mode: mode },
                place,
                kind->Val_next,
            );
        },
        StmtModel::Call { result, callee, args, next, .. } => {
            assert(p.stmt(s).has_part(next));
            lemma_linear_all(m, p, properties, state, vars, s, args, kind->Call_args);
            let more = seen.push(
                Event::Call {
                    callee: crate::meaning::core_values::name_of(p, callee),
                    args: crate::meaning::core_values::core_all(m, p, vars, args),
                },
            );
            assert(crate::passes::linearize::lowering::needs(
                p,
                task,
                Task { stmt: next, mode: mode },
            ));
            lemma_does_the_same(
                w,
                p,
                properties,
                state,
                (steps - 1) as nat,
                vars.insert(result.0, (w.answer)(more)),
                more,
                Task { stmt: next, mode: mode },
                place,
                kind->Call_next,
            );
        },
        StmtModel::If { cond, then_branch, else_branch } => {
            assert(p.stmt(s).has_part(then_branch));
            assert(p.stmt(s).has_part(else_branch));
            assert(p.stmt(s).has_expr(cond));
            lemma_linear_value(m, p, properties, state, vars, cond, kind->cond);
            if let Value::Bool(taken) = crate::meaning::core_values::core_value(m, p, vars, cond) {
                if taken {
                    assert(crate::passes::linearize::lowering::needs(
                        p,
                        task,
                        Task { stmt: then_branch, mode: mode },
                    ));
                    lemma_does_the_same(
                        w,
                        p,
                        properties,
                        state,
                        (steps - 1) as nat,
                        vars,
                        seen,
                        Task { stmt: then_branch, mode: mode },
                        place,
                        kind->then_branch,
                    );
                } else {
                    assert(crate::passes::linearize::lowering::needs(
                        p,
                        task,
                        Task { stmt: else_branch, mode: mode },
                    ));
                    lemma_does_the_same(
                        w,
                        p,
                        properties,
                        state,
                        (steps - 1) as nat,
                        vars,
                        seen,
                        Task { stmt: else_branch, mode: mode },
                        place,
                        kind->else_branch,
                    );
                }
            }
        },
        StmtModel::Match { scrutinee, arms, default } => {
            assert(p.stmt(s).has_expr(scrutinee));
            lemma_linear_value(m, p, properties, state, vars, scrutinee, kind->scrutinee);
            let value = crate::meaning::core_values::core_value(m, p, vars, scrutinee);
            let tags = crate::meaning::core_run::core_tags(arms);
            let ds = kind->Match_arms;
            assert(crate::meaning::linear_run::linear_tags(ds) =~= tags) by {
                assert forall|i: int| 0 <= i < arms.len() implies #[trigger] ds[i].tag
                    == arms[i].tag by {}
            }
            crate::meaning::worlds::lemma_arm_of(tags, value);
            match crate::meaning::worlds::arm_of(tags, value) {
                Some(i) => {
                    crate::ir::core_ir::lemma_arm_is_part(p.stmt(s), i);
                    assert(ds[i].binders == arms[i].binders);
                    assert(crate::passes::linearize::lowering::needs(
                        p,
                        task,
                        Task { stmt: arms[i].body, mode: mode },
                    ));
                    lemma_does_the_same(
                        w,
                        p,
                        properties,
                        state,
                        (steps - 1) as nat,
                        crate::meaning::worlds::with_fields(
                            vars,
                            arms[i].binders,
                            value,
                            arms[i].binders.len(),
                        ),
                        seen,
                        Task { stmt: arms[i].body, mode: mode },
                        place,
                        ds[i].body,
                    );
                },
                None => {
                    if let Some(default) = default {
                        assert(p.stmt(s).has_part(default));
                        assert(crate::passes::linearize::lowering::needs(
                            p,
                            task,
                            Task { stmt: default, mode: mode },
                        ));
                        lemma_does_the_same(
                            w,
                            p,
                            properties,
                            state,
                            (steps - 1) as nat,
                            vars,
                            seen,
                            Task { stmt: default, mode: mode },
                            place,
                            kind->default->0,
                        );
                    }
                },
            }
        },
        StmtModel::Perform { result, effect, operation, args, next } => {
            assert(p.stmt(s).has_part(next));
            lemma_linear_all(m, p, properties, state, vars, s, args, kind->Perform_args);
            let more = seen.push(
                Event::Perform {
                    effect,
                    operation,
                    args: crate::meaning::core_values::core_all(m, p, vars, args),
                },
            );
            assert(crate::passes::linearize::lowering::needs(
                p,
                task,
                Task { stmt: next, mode: mode },
            ));
            lemma_does_the_same(
                w,
                p,
                properties,
                state,
                (steps - 1) as nat,
                crate::meaning::worlds::bind_option(vars, result, (w.answer)(more)),
                more,
                Task { stmt: next, mode: mode },
                place,
                kind->Perform_next,
            );
        },
        StmtModel::Stage { stage, body, next } => {
            let entered = seen.push(Event::Stage(stage));
            assert(p.stmt(s).has_part(body));
            assert(crate::passes::linearize::lowering::needs(
                p,
                task,
                Task { stmt: body, mode: mode },
            ));
            lemma_does_the_same(
                w,
                p,
                properties,
                state,
                (steps - 1) as nat,
                vars,
                entered,
                Task { stmt: body, mode: mode },
                place,
                kind->Stage_body,
            );
            let o = crate::meaning::core_run::core_run(w, p, n, vars, entered, place, body)->0;
            if let Some(next) = next {
                assert(p.stmt(s).has_part(next));
                assert(crate::passes::linearize::lowering::needs(
                    p,
                    task,
                    Task { stmt: next, mode: mode },
                ));
                lemma_does_the_same(
                    w,
                    p,
                    properties,
                    state,
                    (steps - 1) as nat,
                    vars,
                    o.seen,
                    Task { stmt: next, mode: mode },
                    place,
                    kind->Stage_next->0,
                );
            }
        },
        _ => {},
    }
}

/// The same of what a handler does: the operations that it handles, resumes,
/// what is returned, and inner handlers.
#[verifier::rlimit(100)]
#[verifier::spinoff_prover]
proof fn lemma_special_same(
    w: World,
    p: CoreModel,
    properties: Map<usize, EffectProperties>,
    state: LinearState,
    steps: nat,
    vars: Map<usize, Value>,
    seen: Seq<Event>,
    s: StmtId,
    h: HandlerId,
    context: Option<ResumeContext>,
    place: Place,
    d: LinearStmtId,
)
    requires
        p.acyclic(),
        p.closed(),
        state.holds(p, properties),
        crate::passes::linearize::lowering::fits(
            p,
            Task { stmt: s, mode: Mode::Under(h, context) },
        ),
        crate::passes::linearize::lowering::ends(
            p,
            Task { stmt: s, mode: Mode::Under(h, context) },
        ),
        match p.stmt(s) {
            StmtModel::Return(_) => true,
            StmtModel::Resume { .. } => true,
            StmtModel::Handle { .. } => true,
            StmtModel::Perform { effect, .. } => effect == p.handler(h).effect,
            _ => false,
        },
        state.under(p, properties, s, h, context, d),
        place_is(Mode::Under(h, context), place),
        crate::meaning::core_run::core_run(w, p, steps, vars, seen, place, s) is Some,
    ensures
        Some(crate::meaning::linear_run::linear_run(w, state.lin, vars, seen, d))
            == crate::meaning::core_run::core_run(w, p, steps, vars, seen, place, s),
    decreases steps, 1nat,
{
    let mode = Mode::Under(h, context);
    let task = Task { stmt: s, mode };
    crate::passes::linearize::lowering::lemma_needs(p, task);
    let m = w.arithmetic;
    let n = (steps - 1) as nat;
    let kind = state.lin.stmt(d);
    let handler = p.handler(h);
    let none = Mode::Under(h, None);
    match p.stmt(s) {
        StmtModel::Return(e) => {
            assert(p.stmt(s).has_expr(e));
            assert(p.has_stmt(p.handler(h).return_body));
            lemma_linear_value(m, p, properties, state, vars, e, kind->Let_value);
            let v = crate::meaning::core_values::core_value(m, p, vars, e);
            assert(crate::passes::linearize::lowering::needs(
                p,
                task,
                Task { stmt: handler.return_body, mode: Mode::Plain },
            ));
            lemma_does_the_same(
                w,
                p,
                properties,
                state,
                (steps - 1) as nat,
                vars.insert(handler.return_param.0, v),
                seen,
                Task { stmt: handler.return_body, mode: Mode::Plain },
                Place::Alone,
                kind->Let_next,
            );
        },
        StmtModel::Handle { .. } => {
            assert(crate::passes::linearize::lowering::needs(
                p,
                task,
                Task { stmt: s, mode: Mode::Plain },
            ));
            lemma_does_the_same(
                w,
                p,
                properties,
                state,
                (steps - 1) as nat,
                vars,
                seen,
                Task { stmt: s, mode: Mode::Plain },
                Place::Alone,
                d,
            );
        },
        StmtModel::Perform { result, effect, operation, args, next } => {
            assert(p.stmt(s).has_part(next));
            lemma_clause(handler, operation);
            match crate::passes::linearize::lowering::clause_for(handler, operation) {
                Some(clause) => {
                    let inner = crate::passes::linearize::lowering::clause_context(
                        p,
                        clause,
                        result,
                        next,
                    );
                    let to = crate::meaning::core_run::answering(p, clause, result, next);
                    assert(place_is(Mode::Under(h, inner), Place::Under(h, to)));
                    let i = choose|i: int|
                        crate::meaning::worlds::is_first(
                            crate::meaning::core_run::operations(handler),
                            operation,
                            i,
                        );
                    assert(crate::meaning::worlds::is_first(
                        crate::meaning::core_run::operations(handler),
                        operation,
                        i,
                    ));
                    assert(p.has_stmt(p.handler(h).clauses[i].body));
                    lemma_bindings(
                        w,
                        p,
                        properties,
                        state,
                        vars,
                        seen,
                        s,
                        clause.params,
                        0,
                        d,
                    );
                    let bound = crate::meaning::core_run::with_args(
                        w,
                        p,
                        vars,
                        clause.params,
                        args,
                        0,
                    );
                    let body = state.past_bindings(clause.params, args, 0, d)->0;
                    assert(crate::passes::linearize::lowering::needs(
                        p,
                        task,
                        Task { stmt: clause.body, mode: Mode::Under(h, inner) },
                    ));
                    lemma_does_the_same(
                        w,
                        p,
                        properties,
                        state,
                        (steps - 1) as nat,
                        bound,
                        seen,
                        Task { stmt: clause.body, mode: Mode::Under(h, inner) },
                        Place::Under(h, to),
                        body,
                    );
                },
                None => {
                    assert(crate::passes::linearize::lowering::needs(
                        p,
                        task,
                        Task { stmt: next, mode: mode },
                    ));
                    lemma_does_the_same(
                        w,
                        p,
                        properties,
                        state,
                        (steps - 1) as nat,
                        vars,
                        seen,
                        Task { stmt: next, mode: mode },
                        place,
                        d,
                    );
                },
            }
        },
        StmtModel::Resume { result, resume, arg, next } => {
            assert(p.stmt(s).has_part(next));
            assert(p.stmt(s).has_expr(arg));
            if !crate::passes::linearize::lowering::resumes(context, resume) {
                assert(crate::passes::linearize::lowering::needs(
                    p,
                    task,
                    Task { stmt: next, mode: mode },
                ));
                lemma_does_the_same(
                    w,
                    p,
                    properties,
                    state,
                    (steps - 1) as nat,
                    vars,
                    seen,
                    Task { stmt: next, mode: mode },
                    place,
                    d,
                );
            } else {
                let c = context->0;
                let rest = c.continuation;
                let over = crate::passes::linearize::lowering::hands_over(p, c, result, next);
                let from = if over {
                    d
                } else {
                    kind->Val_value
                };
                let resumed = state.past_result(c, arg, from)->0;
                let v = crate::meaning::core_values::core_value(m, p, vars, arg);
                let inner = crate::meaning::worlds::bind_option(vars, c.perform_result, v);
                if c.perform_result is Some {
                    lemma_linear_value(
                        m,
                        p,
                        properties,
                        state,
                        vars,
                        arg,
                        state.lin.stmt(from)->Let_value,
                    );
                }
                assert(crate::meaning::linear_run::linear_run(w, state.lin, vars, seen, from)
                    == crate::meaning::linear_run::linear_run(
                    w,
                    state.lin,
                    inner,
                    seen,
                    resumed,
                ));
                assert(crate::passes::linearize::lowering::needs(
                    p,
                    task,
                    Task { stmt: rest, mode: none },
                ));
                lemma_does_the_same(
                    w,
                    p,
                    properties,
                    state,
                    (steps - 1) as nat,
                    inner,
                    seen,
                    Task { stmt: rest, mode: none },
                    Place::Under(h, None),
                    resumed,
                );
                let o = crate::meaning::core_run::core_run(
                    w,
                    p,
                    n,
                    inner,
                    seen,
                    Place::Under(h, None),
                    rest,
                )->0;
                assert(over == (c.clause_convention is Direct
                    && crate::meaning::core_run::only_returns(p, next, result)));
                if !over {
                    assert(crate::passes::linearize::lowering::needs(
                        p,
                        task,
                        Task { stmt: next, mode: none },
                    ));
                    lemma_does_the_same(
                        w,
                        p,
                        properties,
                        state,
                        (steps - 1) as nat,
                        vars.insert(result.0, o.value),
                        o.seen,
                        Task { stmt: next, mode: none },
                        Place::Under(h, None),
                        kind->Val_next,
                    );
                }
            }
        },
        _ => {},
    }
}

/// Where the lowering of a statement comes to an end within some depth, the
/// statement comes to something within as many steps: what the law above speaks
/// of is there for every statement that is lowered.
pub proof fn lemma_comes_to_something(
    w: World,
    p: CoreModel,
    steps: nat,
    vars: Map<usize, Value>,
    seen: Seq<Event>,
    task: Task,
    place: Place,
)
    requires
        p.closed(),
        crate::passes::linearize::lowering::fits(p, task),
        crate::passes::linearize::lowering::settles(p, task, steps),
        place_is(task.mode, place),
    ensures
        crate::meaning::core_run::core_run(w, p, steps, vars, seen, place, task.stmt) is Some,
    decreases steps, 1nat,
{
    if task.mode is Plain {
        lemma_plain_comes(w, p, steps, vars, seen, task, place);
    } else {
        lemma_under_comes(w, p, steps, vars, seen, task, place);
    }
}

proof fn lemma_needed_comes(
    w: World,
    p: CoreModel,
    n: nat,
    vars: Map<usize, Value>,
    seen: Seq<Event>,
    task: Task,
    other: Task,
    place: Place,
)
    requires
        p.closed(),
        crate::passes::linearize::lowering::fits(p, task),
        crate::passes::linearize::lowering::settles(p, task, n + 1),
        crate::passes::linearize::lowering::needs(p, task, other),
        place_is(other.mode, place),
    ensures
        crate::meaning::core_run::core_run(w, p, n, vars, seen, place, other.stmt) is Some,
    decreases n, 2nat,
{
    crate::passes::linearize::ending::lemma_needed_fits(p, task, other);
    assert(crate::passes::linearize::lowering::settles(p, other, n));
    lemma_comes_to_something(w, p, n, vars, seen, other, place);
}

#[verifier::rlimit(100)]
#[verifier::spinoff_prover]
proof fn lemma_plain_comes(
    w: World,
    p: CoreModel,
    steps: nat,
    vars: Map<usize, Value>,
    seen: Seq<Event>,
    task: Task,
    place: Place,
)
    requires
        p.closed(),
        crate::passes::linearize::lowering::fits(p, task),
        crate::passes::linearize::lowering::settles(p, task, steps),
        place_is(task.mode, place),
        task.mode is Plain,
    ensures
        crate::meaning::core_run::core_run(w, p, steps, vars, seen, place, task.stmt) is Some,
    decreases steps, 0nat,
{
    let m = w.arithmetic;
    let n = (steps - 1) as nat;
    let kind = p.stmt(task.stmt);
    match kind {
        StmtModel::Let { binding, value, next } => {
            assert(kind.has_part(next));
            let v = crate::meaning::core_values::core_value(m, p, vars, value);
            lemma_needed_comes(
                w,
                p,
                n,
                vars.insert(binding.0, v),
                seen,
                task,
                Task { stmt: next, mode: Mode::Plain },
                Place::Alone,
            );
        },
        StmtModel::Val { binding, value, next } => {
            assert(kind.has_part(value));
            assert(kind.has_part(next));
            lemma_needed_comes(
                w,
                p,
                n,
                vars,
                seen,
                task,
                Task { stmt: value, mode: Mode::Plain },
                Place::Alone,
            );
            let o = crate::meaning::core_run::core_run(w, p, n, vars, seen, Place::Alone, value)->0;
            lemma_needed_comes(
                w,
                p,
                n,
                vars.insert(binding.0, o.value),
                o.seen,
                task,
                Task { stmt: next, mode: Mode::Plain },
                Place::Alone,
            );
        },
        StmtModel::Call { result, callee, args, next, .. } => {
            assert(kind.has_part(next));
            let more = seen.push(
                Event::Call {
                    callee: crate::meaning::core_values::name_of(p, callee),
                    args: crate::meaning::core_values::core_all(m, p, vars, args),
                },
            );
            lemma_needed_comes(
                w,
                p,
                n,
                vars.insert(result.0, (w.answer)(more)),
                more,
                task,
                Task { stmt: next, mode: Mode::Plain },
                Place::Alone,
            );
        },
        StmtModel::If { cond, then_branch, else_branch } => {
            assert(kind.has_part(then_branch));
            assert(kind.has_part(else_branch));
            lemma_needed_comes(
                w,
                p,
                n,
                vars,
                seen,
                task,
                Task { stmt: then_branch, mode: Mode::Plain },
                Place::Alone,
            );
            lemma_needed_comes(
                w,
                p,
                n,
                vars,
                seen,
                task,
                Task { stmt: else_branch, mode: Mode::Plain },
                Place::Alone,
            );
        },
        StmtModel::Match { scrutinee, arms, default } => {
            let value = crate::meaning::core_values::core_value(m, p, vars, scrutinee);
            let tags = crate::meaning::core_run::core_tags(arms);
            crate::meaning::worlds::lemma_arm_of(tags, value);
            match crate::meaning::worlds::arm_of(tags, value) {
                Some(i) => {
                    crate::ir::core_ir::lemma_arm_is_part(kind, i);
                    lemma_needed_comes(
                        w,
                        p,
                        n,
                        crate::meaning::worlds::with_fields(
                            vars,
                            arms[i].binders,
                            value,
                            arms[i].binders.len(),
                        ),
                        seen,
                        task,
                        Task { stmt: arms[i].body, mode: Mode::Plain },
                        Place::Alone,
                    );
                },
                None => {
                    if let Some(default) = default {
                        assert(kind.has_part(default));
                        lemma_needed_comes(
                            w,
                            p,
                            n,
                            vars,
                            seen,
                            task,
                            Task { stmt: default, mode: Mode::Plain },
                            Place::Alone,
                        );
                    }
                },
            }
        },
        StmtModel::Perform { result, effect, operation, args, next } => {
            assert(kind.has_part(next));
            let more = seen.push(
                Event::Perform {
                    effect,
                    operation,
                    args: crate::meaning::core_values::core_all(m, p, vars, args),
                },
            );
            lemma_needed_comes(
                w,
                p,
                n,
                crate::meaning::worlds::bind_option(vars, result, (w.answer)(more)),
                more,
                task,
                Task { stmt: next, mode: Mode::Plain },
                Place::Alone,
            );
        },
        StmtModel::Resume { next, .. } => {
            assert(kind.has_part(next));
            lemma_needed_comes(
                w,
                p,
                n,
                vars,
                seen,
                task,
                Task { stmt: next, mode: Mode::Plain },
                Place::Alone,
            );
        },
        StmtModel::Handle { handler, body, next } => {
            assert(kind.has_part(body));
            if p.has_handler(handler) && next is None {
                lemma_needed_comes(
                    w,
                    p,
                    n,
                    vars,
                    seen,
                    task,
                    Task { stmt: body, mode: Mode::Under(handler, None) },
                    Place::Under(handler, None),
                );
            } else {
                let effect = crate::passes::linearize::lowering::handled_effect(p, handler);
                let entered = seen.push(Event::Enter(effect));
                lemma_needed_comes(
                    w,
                    p,
                    n,
                    vars,
                    entered,
                    task,
                    Task { stmt: body, mode: Mode::Plain },
                    Place::Alone,
                );
                let o = crate::meaning::core_run::core_run(
                    w,
                    p,
                    n,
                    vars,
                    entered,
                    Place::Alone,
                    body,
                )->0;
                if let Some(next) = next {
                    assert(kind.has_part(next));
                    lemma_needed_comes(
                        w,
                        p,
                        n,
                        vars,
                        o.seen.push(Event::Leave(effect)),
                        task,
                        Task { stmt: next, mode: Mode::Plain },
                        Place::Alone,
                    );
                }
            }
        },
        StmtModel::Stage { stage, body, next } => {
            let entered = seen.push(Event::Stage(stage));
            assert(kind.has_part(body));
            lemma_needed_comes(
                w,
                p,
                n,
                vars,
                entered,
                task,
                Task { stmt: body, mode: Mode::Plain },
                Place::Alone,
            );
            let o = crate::meaning::core_run::core_run(
                w,
                p,
                n,
                vars,
                entered,
                Place::Alone,
                body,
            )->0;
            if let Some(next) = next {
                assert(kind.has_part(next));
                lemma_needed_comes(
                    w,
                    p,
                    n,
                    vars,
                    o.seen,
                    task,
                    Task { stmt: next, mode: Mode::Plain },
                    Place::Alone,
                );
            }
        },
        _ => {},
    }
}

#[verifier::rlimit(100)]
#[verifier::spinoff_prover]
proof fn lemma_under_comes(
    w: World,
    p: CoreModel,
    steps: nat,
    vars: Map<usize, Value>,
    seen: Seq<Event>,
    task: Task,
    place: Place,
)
    requires
        p.closed(),
        crate::passes::linearize::lowering::fits(p, task),
        crate::passes::linearize::lowering::settles(p, task, steps),
        place_is(task.mode, place),
        task.mode is Under,
    ensures
        crate::meaning::core_run::core_run(w, p, steps, vars, seen, place, task.stmt) is Some,
    decreases steps, 0nat,
{
    let m = w.arithmetic;
    let n = (steps - 1) as nat;
    let s = task.stmt;
    let kind = p.stmt(s);
    let mode = task.mode;
    let h = mode->Under_0;
    let context = mode->Under_1;
    let handler = p.handler(h);
    match kind {
        StmtModel::Return(e) => {
            let v = crate::meaning::core_values::core_value(m, p, vars, e);
            lemma_needed_comes(
                w,
                p,
                n,
                vars.insert(handler.return_param.0, v),
                seen,
                task,
                Task { stmt: handler.return_body, mode: Mode::Plain },
                Place::Alone,
            );
        },
        StmtModel::Handle { .. } => {
            lemma_needed_comes(
                w,
                p,
                n,
                vars,
                seen,
                task,
                Task { stmt: s, mode: Mode::Plain },
                Place::Alone,
            );
        },
        StmtModel::Perform { result, effect, operation, args, next } if effect
            == handler.effect => {
            lemma_clause(handler, operation);
            match crate::passes::linearize::lowering::clause_for(handler, operation) {
                Some(clause) => {
                    let inner = crate::passes::linearize::lowering::clause_context(
                        p,
                        clause,
                        result,
                        next,
                    );
                    let to = crate::meaning::core_run::answering(p, clause, result, next);
                    lemma_needed_comes(
                        w,
                        p,
                        n,
                        crate::meaning::core_run::with_args(w, p, vars, clause.params, args, 0),
                        seen,
                        task,
                        Task { stmt: clause.body, mode: Mode::Under(h, inner) },
                        Place::Under(h, to),
                    );
                },
                None => {
                    lemma_needed_comes(
                        w,
                        p,
                        n,
                        vars,
                        seen,
                        task,
                        Task { stmt: next, mode: mode },
                        place,
                    );
                },
            }
        },
        StmtModel::Resume { result, resume, arg, next } => {
            if crate::passes::linearize::lowering::resumes(context, resume) {
                let c = context->0;
                let none = Mode::Under(h, None);
                let v = crate::meaning::core_values::core_value(m, p, vars, arg);
                let inner = crate::meaning::worlds::bind_option(vars, c.perform_result, v);
                lemma_needed_comes(
                    w,
                    p,
                    n,
                    inner,
                    seen,
                    task,
                    Task { stmt: c.continuation, mode: none },
                    Place::Under(h, None),
                );
                let o = crate::meaning::core_run::core_run(
                    w,
                    p,
                    n,
                    inner,
                    seen,
                    Place::Under(h, None),
                    c.continuation,
                )->0;
                if !crate::passes::linearize::lowering::hands_over(p, c, result, next) {
                    lemma_needed_comes(
                        w,
                        p,
                        n,
                        vars.insert(result.0, o.value),
                        o.seen,
                        task,
                        Task { stmt: next, mode: none },
                        Place::Under(h, None),
                    );
                }
            } else {
                lemma_needed_comes(
                    w,
                    p,
                    n,
                    vars,
                    seen,
                    task,
                    Task { stmt: next, mode: mode },
                    place,
                );
            }
        },
        StmtModel::Let { binding, value, next } => {
            assert(kind.has_part(next));
            let v = crate::meaning::core_values::core_value(m, p, vars, value);
            lemma_needed_comes(
                w,
                p,
                n,
                vars.insert(binding.0, v),
                seen,
                task,
                Task { stmt: next, mode: mode },
                place,
            );
        },
        StmtModel::Val { binding, value, next } => {
            assert(kind.has_part(value));
            assert(kind.has_part(next));
            lemma_needed_comes(
                w,
                p,
                n,
                vars,
                seen,
                task,
                Task { stmt: value, mode: mode },
                place,
            );
            let o = crate::meaning::core_run::core_run(w, p, n, vars, seen, place, value)->0;
            lemma_needed_comes(
                w,
                p,
                n,
                vars.insert(binding.0, o.value),
                o.seen,
                task,
                Task { stmt: next, mode: mode },
                place,
            );
        },
        StmtModel::Call { result, callee, args, next, .. } => {
            assert(kind.has_part(next));
            let more = seen.push(
                Event::Call {
                    callee: crate::meaning::core_values::name_of(p, callee),
                    args: crate::meaning::core_values::core_all(m, p, vars, args),
                },
            );
            lemma_needed_comes(
                w,
                p,
                n,
                vars.insert(result.0, (w.answer)(more)),
                more,
                task,
                Task { stmt: next, mode: mode },
                place,
            );
        },
        StmtModel::If { cond, then_branch, else_branch } => {
            assert(kind.has_part(then_branch));
            assert(kind.has_part(else_branch));
            lemma_needed_comes(
                w,
                p,
                n,
                vars,
                seen,
                task,
                Task { stmt: then_branch, mode: mode },
                place,
            );
            lemma_needed_comes(
                w,
                p,
                n,
                vars,
                seen,
                task,
                Task { stmt: else_branch, mode: mode },
                place,
            );
        },
        StmtModel::Match { scrutinee, arms, default } => {
            let value = crate::meaning::core_values::core_value(m, p, vars, scrutinee);
            let tags = crate::meaning::core_run::core_tags(arms);
            crate::meaning::worlds::lemma_arm_of(tags, value);
            match crate::meaning::worlds::arm_of(tags, value) {
                Some(i) => {
                    crate::ir::core_ir::lemma_arm_is_part(kind, i);
                    lemma_needed_comes(
                        w,
                        p,
                        n,
                        crate::meaning::worlds::with_fields(
                            vars,
                            arms[i].binders,
                            value,
                            arms[i].binders.len(),
                        ),
                        seen,
                        task,
                        Task { stmt: arms[i].body, mode: mode },
                        place,
                    );
                },
                None => {
                    if let Some(default) = default {
                        assert(kind.has_part(default));
                        lemma_needed_comes(
                            w,
                            p,
                            n,
                            vars,
                            seen,
                            task,
                            Task { stmt: default, mode: mode },
                            place,
                        );
                    }
                },
            }
        },
        StmtModel::Perform { result, effect, operation, args, next } => {
            assert(kind.has_part(next));
            let more = seen.push(
                Event::Perform {
                    effect,
                    operation,
                    args: crate::meaning::core_values::core_all(m, p, vars, args),
                },
            );
            lemma_needed_comes(
                w,
                p,
                n,
                crate::meaning::worlds::bind_option(vars, result, (w.answer)(more)),
                more,
                task,
                Task { stmt: next, mode: mode },
                place,
            );
        },
        StmtModel::Stage { stage, body, next } => {
            let entered = seen.push(Event::Stage(stage));
            assert(kind.has_part(body));
            lemma_needed_comes(
                w,
                p,
                n,
                vars,
                entered,
                task,
                Task { stmt: body, mode: mode },
                place,
            );
            let o = crate::meaning::core_run::core_run(w, p, n, vars, entered, place, body)->0;
            if let Some(next) = next {
                assert(kind.has_part(next));
                lemma_needed_comes(
                    w,
                    p,
                    n,
                    vars,
                    o.seen,
                    task,
                    Task { stmt: next, mode: mode },
                    place,
                );
            }
        },
        _ => {},
    }
}

/// A linear function does what the core function does that it was made from:
/// both come to the same, with the world seeing the same.
pub proof fn lemma_function_woven(
    w: World,
    p: CoreModel,
    properties: Map<usize, EffectProperties>,
    state: LinearState,
    found: Seq<FuncId>,
    i: int,
    vars: Map<usize, Value>,
    seen: Seq<Event>,
) -> (steps: nat)
    requires
        p.acyclic(),
        p.closed(),
        crate::passes::linearize::lowering::program_ends(p),
        crate::passes::linearize::lowering::is_reachable_list(p, found),
        state.holds(p, properties),
        state.program_at(p, found),
        0 <= i < state.lin.functions.len(),
    ensures
        state.lin.functions[i].name == p.function(found[i]).name,
        state.lin.functions[i].params == p.function(found[i]).params,
        crate::meaning::core_run::core_run(
            w,
            p,
            steps,
            vars,
            seen,
            Place::Alone,
            p.function(found[i]).body,
        ) == Some(
            crate::meaning::linear_run::linear_run(
                w,
                state.lin,
                vars,
                seen,
                state.lin.functions[i].body,
            ),
        ),
{
    let body = p.function(found[i]).body;
    let task = Task { stmt: body, mode: Mode::Plain };
    assert(state.function_at(p, found, i, state.lin.functions[i]));
    assert(p.has_function(found[i]));
    assert(found.contains(found[i]));
    assert(crate::passes::linearize::lowering::ends(p, task));
    let steps = choose|depth: nat| crate::passes::linearize::lowering::settles(p, task, depth);
    lemma_comes_to_something(w, p, steps, vars, seen, task, Place::Alone);
    lemma_does_the_same(
        w,
        p,
        properties,
        state,
        steps,
        vars,
        seen,
        task,
        Place::Alone,
        state.lin.functions[i].body,
    );
    steps
}

} // verus!
