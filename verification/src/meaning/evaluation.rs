//! What is evaluated at compile time is what running the program comes to.
use crate::common::ids::{ExprId, FuncId, StmtId, VarId};
use crate::ir::core_ir::{CoreModel, ExprModel, LiteralModel, StmtModel};
use crate::meaning::values::Value;
use crate::passes::ct_eval::{Folding, Run, MAX_CALL_EVAL_DEPTH};
use crate::passes::ct_propagate::{Machine, Progress};
use vstd::prelude::*;

verus! {

/// Running an expression comes to a value.
pub open spec fn comes_to(
    machine: Machine,
    p: CoreModel,
    vars: Map<usize, Value>,
    e: ExprId,
    value: Value,
) -> bool {
    exists|depth: nat| #[trigger]
        crate::meaning::running::run_expr(
            crate::meaning::machine::arithmetic_of(machine),
            p,
            depth,
            vars,
            e,
        ) == Some(value)
}

/// Every literal is what its expression comes to, whatever the variables stand
/// for.
pub open spec fn sound(machine: Machine, p: CoreModel, cache: Map<usize, LiteralModel>) -> bool {
    &&& forall|e: usize, vars: Map<usize, Value>|
        cache.contains_key(e) ==> #[trigger] comes_to(
            machine,
            p,
            vars,
            ExprId(e),
            crate::meaning::machine::exactly(cache[e]),
        )
    &&& forall|e: usize|
        cache.contains_key(e) ==> crate::meaning::machine::is_held(
            machine.bits,
            #[trigger] cache[e],
        )
}

/// What variables stand for under bindings.
pub open spec fn stands(env: Seq<(VarId, LiteralModel)>) -> Map<usize, Value> {
    Map::new(
        |var: usize|
            crate::passes::ct_eval::bound_to(env, env.len() as int, VarId(var)) is Some,
        |var: usize|
            crate::meaning::machine::exactly(
                crate::passes::ct_eval::bound_to(env, env.len() as int, VarId(var))->0,
            ),
    )
}

/// All that is bound is held by the machine.
pub open spec fn all_held(bits: nat, env: Seq<(VarId, LiteralModel)>) -> bool {
    forall|i: int|
        0 <= i < env.len() ==> crate::meaning::machine::is_held(bits, (#[trigger] env[i]).1)
}

pub open spec fn values_of(args: Seq<LiteralModel>) -> Seq<Value> {
    args.map_values(|literal: LiteralModel| crate::meaning::machine::exactly(literal))
}

proof fn lemma_bound_prefix(
    env: Seq<(VarId, LiteralModel)>,
    longer: Seq<(VarId, LiteralModel)>,
    first: int,
    var: VarId,
)
    requires
        first <= env.len() <= longer.len(),
        forall|i: int| 0 <= i < env.len() ==> #[trigger] longer[i] == env[i],
    ensures
        crate::passes::ct_eval::bound_to(longer, first, var)
            == crate::passes::ct_eval::bound_to(env, first, var),
    decreases first,
{
    if first > 0 {
        lemma_bound_prefix(env, longer, first - 1, var);
        assert(longer[first - 1] == env[first - 1]);
    }
}

proof fn lemma_stands_push(env: Seq<(VarId, LiteralModel)>, var: VarId, value: LiteralModel)
    ensures
        stands(env.push((var, value))) == stands(env).insert(
            var.0,
            crate::meaning::machine::exactly(value),
        ),
{
    let longer = env.push((var, value));
    assert forall|x: usize| #![trigger stands(longer).contains_key(x)]
        crate::passes::ct_eval::bound_to(longer, longer.len() as int, VarId(x)) == if x == var.0 {
            Some(value)
        } else {
            crate::passes::ct_eval::bound_to(env, env.len() as int, VarId(x))
        } by {
        lemma_bound_prefix(env, longer, env.len() as int, VarId(x));
        assert(longer[env.len() as int] == (var, value));
    }
    assert(stands(longer) =~= stands(env).insert(
        var.0,
        crate::meaning::machine::exactly(value),
    ));
}

proof fn lemma_bound_held(bits: nat, env: Seq<(VarId, LiteralModel)>, first: int, var: VarId)
    requires
        all_held(bits, env),
        first <= env.len(),
    ensures
        crate::passes::ct_eval::bound_to(env, first, var) matches Some(v)
            ==> crate::meaning::machine::is_held(bits, v),
    decreases first,
{
    if first > 0 {
        lemma_bound_held(bits, env, first - 1, var);
        assert(crate::meaning::machine::is_held(bits, env[first - 1].1));
    }
}

proof fn lemma_bound_last(params: Seq<VarId>, args: Seq<LiteralModel>, first: int, var: usize)
    requires
        params.len() == args.len(),
        0 <= first <= params.len(),
    ensures
        match crate::passes::ct_eval::bound_to(
            crate::passes::ct_eval::bindings(params, args),
            first,
            VarId(var),
        ) {
            Some(v) => exists|i: int|
                0 <= i < first && #[trigger] params[i] == VarId(var) && v == args[i] && forall|j: int|
                    i < j < first ==> #[trigger] params[j] != VarId(var),
            None => forall|i: int| 0 <= i < first ==> #[trigger] params[i] != VarId(var),
        },
    decreases first,
{
    if first > 0 {
        lemma_bound_last(params, args, first - 1, var);
        if params[first - 1] == VarId(var) {
            assert(params[first - 1] == VarId(var) && args[first - 1] == args[first - 1]);
        }
    }
}

/// The bindings of a call: each parameter stands for the argument in its place.
pub proof fn lemma_called_with(params: Seq<VarId>, args: Seq<LiteralModel>)
    requires
        params.len() == args.len(),
    ensures
        stands(crate::passes::ct_eval::bindings(params, args))
            == crate::meaning::running::called_with(params, values_of(args)),
{
    let env = crate::passes::ct_eval::bindings(params, args);
    let left = stands(env);
    let right = crate::meaning::running::called_with(params, values_of(args));
    assert forall|x: usize| left.contains_key(x) <==> #[trigger] right.contains_key(x) by {
        lemma_bound_last(params, args, params.len() as int, x);
        if left.contains_key(x) {
            let i = choose|i: int|
                0 <= i < params.len() && #[trigger] params[i] == VarId(x) && forall|j: int|
                    i < j < params.len() ==> #[trigger] params[j] != VarId(x);
            assert(crate::meaning::running::is_last(params, x, i));
        }
        if right.contains_key(x) {
            let i = choose|i: int| crate::meaning::running::is_last(params, x, i);
            assert(params[i] == VarId(x));
        }
    }
    assert forall|x: usize| left.contains_key(x) implies #[trigger] left[x] == right[x] by {
        lemma_bound_last(params, args, params.len() as int, x);
        assert(right.contains_key(x));
        let i = choose|i: int| crate::meaning::running::is_last(params, x, i);
        let v = crate::passes::ct_eval::bound_to(env, params.len() as int, VarId(x))->0;
        let k = choose|k: int|
            0 <= k < params.len() && #[trigger] params[k] == VarId(x) && v == args[k] && forall|
                j: int,
            |
                k < j < params.len() ==> #[trigger] params[j] != VarId(x);
        assert(crate::meaning::running::is_last(params, x, k));
        assert(params[i].0 == x && params[k].0 == x);
        if i < k {
            assert(params[k].0 != x);
        }
        if k < i {
            assert(params[i] != VarId(x));
        }
        assert(values_of(args)[k] == crate::meaning::machine::exactly(args[k]));
    }
    assert(left =~= right);
}

pub open spec fn larger(a: nat, b: nat) -> nat {
    if a >= b {
        a
    } else {
        b
    }
}

/// What a run finds of an expression is what running it comes to.
pub proof fn lemma_expr_right(
    run: Run,
    stack: Seq<FuncId>,
    e: ExprId,
    env: Seq<(VarId, LiteralModel)>,
) -> (depth: nat)
    requires
        run.p.acyclic(),
        1 <= run.machine.bits <= 64,
        stack.len() <= MAX_CALL_EVAL_DEPTH,
        sound(run.machine, run.p, run.cache),
        all_held(run.machine.bits, env),
        run.expr(stack, e, env) is Some,
    ensures
        crate::meaning::running::run_expr(
            crate::meaning::machine::arithmetic_of(run.machine),
            run.p,
            depth,
            stands(env),
            e,
        ) == Some(crate::meaning::machine::exactly(run.expr(stack, e, env)->0)),
        crate::meaning::machine::is_held(run.machine.bits, run.expr(stack, e, env)->0),
    decreases (33 - stack.len()) as nat, 0nat, run.p.expr_rank(e) + 1, 0nat,
{
    let m = crate::meaning::machine::arithmetic_of(run.machine);
    let p = run.p;
    let vars = stands(env);
    crate::passes::linearize::analysis::lemma_expr_ranks(p, e);
    if run.cache.contains_key(e.0) {
        assert(comes_to(
            run.machine,
            p,
            vars,
            ExprId(e.0),
            crate::meaning::machine::exactly(run.cache[e.0]),
        ));
        choose|depth: nat| #[trigger]
            crate::meaning::running::run_expr(m, p, depth, vars, e) == Some(
                crate::meaning::machine::exactly(run.cache[e.0]),
            )
    } else {
        match p.expr(e) {
            ExprModel::Literal(value) => {
                crate::meaning::machine::lemma_normal(run.machine, value);
                0
            },
            ExprModel::Var(var) => {
                lemma_bound_held(run.machine.bits, env, env.len() as int, var);
                assert(VarId(var.0) == var);
                assert(vars.contains_key(var.0));
                0
            },
            ExprModel::Unary { op, expr } => {
                let d = lemma_expr_right(run, stack, expr, env);
                crate::meaning::machine::lemma_fold_unary(
                    run.machine,
                    op,
                    run.expr(stack, expr, env)->0,
                );
                d
            },
            ExprModel::Binary { op, lhs, rhs } => {
                let d1 = lemma_expr_right(run, stack, lhs, env);
                let d2 = lemma_expr_right(run, stack, rhs, env);
                let d = larger(d1, d2);
                crate::meaning::running::lemma_deeper_expr(m, p, d1, d, vars, lhs);
                crate::meaning::running::lemma_deeper_expr(m, p, d2, d, vars, rhs);
                crate::meaning::machine::lemma_fold_binary(
                    run.machine,
                    op,
                    run.expr(stack, lhs, env)->0,
                    run.expr(stack, rhs, env)->0,
                );
                d
            },
            ExprModel::PureCall { callee, args } => {
                let d1 = lemma_args_right(run, stack, e, args.len(), env);
                let values = run.args(stack, e, args.len(), env)->0;
                let d2 = lemma_call_right(run, stack, callee, values);
                let d = larger(d1, d2 + 1);
                crate::meaning::running::lemma_deeper_parts(m, p, d1, d, vars, e, args.len());
                crate::meaning::running::lemma_deeper_call(
                    m,
                    p,
                    d2,
                    (d - 1) as nat,
                    callee,
                    values_of(values),
                );
                d
            },
            _ => 0,
        }
    }
}

proof fn lemma_args_right(
    run: Run,
    stack: Seq<FuncId>,
    e: ExprId,
    first: nat,
    env: Seq<(VarId, LiteralModel)>,
) -> (depth: nat)
    requires
        run.p.acyclic(),
        1 <= run.machine.bits <= 64,
        stack.len() <= MAX_CALL_EVAL_DEPTH,
        sound(run.machine, run.p, run.cache),
        all_held(run.machine.bits, env),
        run.p.has_expr(e),
        run.p.expr(e) is PureCall,
        first <= run.p.expr(e)->args.len(),
        run.args(stack, e, first, env) is Some,
    ensures
        crate::meaning::running::run_parts(
            crate::meaning::machine::arithmetic_of(run.machine),
            run.p,
            depth,
            stands(env),
            e,
            first,
        ) == Some(values_of(run.args(stack, e, first, env)->0)),
        forall|i: int|
            0 <= i < run.args(stack, e, first, env)->0.len() ==> crate::meaning::machine::is_held(
                run.machine.bits,
                #[trigger] run.args(stack, e, first, env)->0[i],
            ),
    decreases (33 - stack.len()) as nat, 0nat, run.p.expr_rank(e), first,
{
    let m = crate::meaning::machine::arithmetic_of(run.machine);
    let p = run.p;
    let vars = stands(env);
    if first == 0 {
        assert(values_of(Seq::empty()) =~= Seq::<Value>::empty());
        0
    } else {
        crate::passes::linearize::analysis::lemma_expr_ranks(p, e);
        let part = p.expr(e)->args[first - 1];
        crate::meaning::core_values::lemma_parts(p.expr(e), first - 1);
        let d1 = lemma_args_right(run, stack, e, (first - 1) as nat, env);
        let d2 = lemma_expr_right(run, stack, part, env);
        let d = larger(d1, d2);
        crate::meaning::running::lemma_deeper_parts(m, p, d1, d, vars, e, (first - 1) as nat);
        crate::meaning::running::lemma_deeper_expr(m, p, d2, d, vars, part);
        let before = run.args(stack, e, (first - 1) as nat, env)->0;
        let value = run.expr(stack, part, env)->0;
        assert(values_of(before.push(value)) =~= values_of(before).push(
            crate::meaning::machine::exactly(value),
        ));
        d
    }
}

/// What a run finds of a call is what running the function comes to.
pub proof fn lemma_call_right(
    run: Run,
    stack: Seq<FuncId>,
    callee: FuncId,
    args: Seq<LiteralModel>,
) -> (depth: nat)
    requires
        run.p.acyclic(),
        1 <= run.machine.bits <= 64,
        stack.len() <= MAX_CALL_EVAL_DEPTH,
        sound(run.machine, run.p, run.cache),
        forall|i: int|
            0 <= i < args.len() ==> crate::meaning::machine::is_held(
                run.machine.bits,
                #[trigger] args[i],
            ),
        run.call(stack, callee, args) is Some,
    ensures
        crate::meaning::running::run_call(
            crate::meaning::machine::arithmetic_of(run.machine),
            run.p,
            depth,
            callee,
            values_of(args),
        ) == Some(crate::meaning::machine::exactly(run.call(stack, callee, args)->0)),
        crate::meaning::machine::is_held(run.machine.bits, run.call(stack, callee, args)->0),
    decreases (33 - stack.len()) as nat, 0nat, 0nat, 0nat,
{
    let params = run.p.function(callee).params;
    let env = crate::passes::ct_eval::bindings(params, args);
    lemma_called_with(params, args);
    assert forall|i: int| 0 <= i < env.len() implies crate::meaning::machine::is_held(
        run.machine.bits,
        (#[trigger] env[i]).1,
    ) by {
        assert(crate::meaning::machine::is_held(run.machine.bits, args[i]));
    }
    lemma_stmt_right(run, stack.push(callee), run.p.function(callee).body, env)
}

/// What a run finds of a statement is what running it comes to.
pub proof fn lemma_stmt_right(
    run: Run,
    stack: Seq<FuncId>,
    s: StmtId,
    env: Seq<(VarId, LiteralModel)>,
) -> (depth: nat)
    requires
        run.p.acyclic(),
        1 <= run.machine.bits <= 64,
        stack.len() <= MAX_CALL_EVAL_DEPTH,
        sound(run.machine, run.p, run.cache),
        all_held(run.machine.bits, env),
        run.stmt(stack, s, env) is Some,
    ensures
        ({
            let (value, left) = run.stmt(stack, s, env)->0;
            &&& crate::meaning::running::run_stmt(
                crate::meaning::machine::arithmetic_of(run.machine),
                run.p,
                depth,
                stands(env),
                s,
            ) == Some((crate::meaning::machine::exactly(value), stands(left)))
            &&& crate::meaning::machine::is_held(run.machine.bits, value)
            &&& all_held(run.machine.bits, left)
        }),
    decreases (33 - stack.len()) as nat, 1nat, run.p.stmt_rank(s), 0nat,
{
    let m = crate::meaning::machine::arithmetic_of(run.machine);
    let p = run.p;
    let vars = stands(env);
    crate::passes::linearize::analysis::lemma_stmt_ranks(p, s);
    match p.stmt(s) {
        StmtModel::Return(e) => lemma_expr_right(run, stack, e, env),
        StmtModel::Let { binding, value, next } => {
            let d1 = lemma_expr_right(run, stack, value, env);
            let v = run.expr(stack, value, env)->0;
            let inner = env.push((binding, v));
            lemma_stands_push(env, binding, v);
            let d2 = lemma_stmt_right(run, stack, next, inner);
            let d = larger(d1, d2);
            crate::meaning::running::lemma_deeper_expr(m, p, d1, d, vars, value);
            crate::meaning::running::lemma_deeper_stmt(m, p, d2, d, stands(inner), next);
            d
        },
        StmtModel::Val { binding, value, next } => {
            let d1 = lemma_stmt_right(run, stack, value, env);
            let (v, left) = run.stmt(stack, value, env)->0;
            let inner = left.push((binding, v));
            lemma_stands_push(left, binding, v);
            let d2 = lemma_stmt_right(run, stack, next, inner);
            let d = larger(d1, d2);
            crate::meaning::running::lemma_deeper_stmt(m, p, d1, d, vars, value);
            crate::meaning::running::lemma_deeper_stmt(m, p, d2, d, stands(inner), next);
            d
        },
        StmtModel::If { cond, then_branch, else_branch } => {
            let d1 = lemma_expr_right(run, stack, cond, env);
            let taken = run.expr(stack, cond, env)->0->Bool_0;
            let branch = if taken {
                then_branch
            } else {
                else_branch
            };
            let d2 = lemma_stmt_right(run, stack, branch, env);
            let d = larger(d1, d2);
            crate::meaning::running::lemma_deeper_expr(m, p, d1, d, vars, cond);
            crate::meaning::running::lemma_deeper_stmt(m, p, d2, d, vars, branch);
            d
        },
        StmtModel::Stage { body, next, .. } => {
            let d1 = lemma_stmt_right(run, stack, body, env);
            match next {
                Some(next) => {
                    let d2 = lemma_stmt_right(run, stack, next, env);
                    let d = larger(d1, d2);
                    crate::meaning::running::lemma_deeper_stmt(m, p, d1, d, vars, body);
                    crate::meaning::running::lemma_deeper_stmt(m, p, d2, d, vars, next);
                    d
                },
                None => d1,
            }
        },
        _ => 0,
    }
}

// ---------------------------------------------------------------------------
// The whole evaluation
// ---------------------------------------------------------------------------

proof fn lemma_sound_insert(
    machine: Machine,
    p: CoreModel,
    cache: Map<usize, LiteralModel>,
    e: usize,
    value: LiteralModel,
)
    requires
        sound(machine, p, cache),
        crate::meaning::machine::is_held(machine.bits, value),
        forall|vars: Map<usize, Value>| #[trigger]
            comes_to(machine, p, vars, ExprId(e), crate::meaning::machine::exactly(value)),
    ensures
        sound(machine, p, cache.insert(e, value)),
{
    let more = cache.insert(e, value);
    assert forall|x: usize, vars: Map<usize, Value>| more.contains_key(x) implies #[trigger] comes_to(
        machine,
        p,
        vars,
        ExprId(x),
        crate::meaning::machine::exactly(more[x]),
    ) by {
        if x != e {
            assert(comes_to(
                machine,
                p,
                vars,
                ExprId(x),
                crate::meaning::machine::exactly(cache[x]),
            ));
        }
    }
    assert forall|x: usize| more.contains_key(x) implies crate::meaning::machine::is_held(
        machine.bits,
        #[trigger] more[x],
    ) by {
        if x != e {
            assert(crate::meaning::machine::is_held(machine.bits, cache[x]));
        }
    }
}

proof fn lemma_visited_sound(machine: Machine, p: CoreModel, at: Progress, i: usize)
    requires
        p.acyclic(),
        1 <= machine.bits <= 64,
        i < p.exprs.len(),
        sound(machine, p, at.cache),
    ensures
        sound(machine, p, crate::passes::ct_propagate::visited(machine, p, at, i).cache),
{
    let kind = p.exprs[i as int].kind;
    let found = crate::passes::ct_propagate::value_of(
        crate::passes::ct_propagate::outcome(machine, at.cache, kind),
    );
    if !at.cache.contains_key(i) && found is Some {
        let value = found->0;
        let m = crate::meaning::machine::arithmetic_of(machine);
        let e = ExprId(i);
        assert(p.expr(e) == kind);
        match kind {
            ExprModel::Literal(literal) => {
                crate::meaning::machine::lemma_normal(machine, literal);
            },
            ExprModel::Unary { op, expr } => {
                crate::meaning::machine::lemma_fold_unary(machine, op, at.cache[expr.0]);
            },
            ExprModel::Binary { op, lhs, rhs } => {
                crate::meaning::machine::lemma_fold_binary(
                    machine,
                    op,
                    at.cache[lhs.0],
                    at.cache[rhs.0],
                );
            },
            _ => {},
        }
        assert forall|vars: Map<usize, Value>| #[trigger]
            comes_to(machine, p, vars, e, crate::meaning::machine::exactly(value)) by {
            match kind {
                ExprModel::Literal(literal) => {
                    assert(crate::meaning::running::run_expr(m, p, 0, vars, e) == Some(
                        crate::meaning::machine::exactly(value),
                    ));
                },
                ExprModel::Unary { op, expr } => {
                    let a = crate::meaning::machine::exactly(at.cache[expr.0]);
                    assert(ExprId(expr.0) == expr);
                    assert(comes_to(machine, p, vars, expr, a));
                    let d = choose|d: nat| #[trigger]
                        crate::meaning::running::run_expr(m, p, d, vars, expr) == Some(a);
                    assert(crate::meaning::running::run_expr(m, p, d, vars, e) == Some(
                        crate::meaning::machine::exactly(value),
                    ));
                },
                ExprModel::Binary { op, lhs, rhs } => {
                    let a = crate::meaning::machine::exactly(at.cache[lhs.0]);
                    let b = crate::meaning::machine::exactly(at.cache[rhs.0]);
                    assert(ExprId(lhs.0) == lhs);
                    assert(ExprId(rhs.0) == rhs);
                    assert(comes_to(machine, p, vars, lhs, a));
                    assert(comes_to(machine, p, vars, rhs, b));
                    let d1 = choose|d: nat| #[trigger]
                        crate::meaning::running::run_expr(m, p, d, vars, lhs) == Some(a);
                    let d2 = choose|d: nat| #[trigger]
                        crate::meaning::running::run_expr(m, p, d, vars, rhs) == Some(b);
                    let d = larger(d1, d2);
                    crate::meaning::running::lemma_deeper_expr(m, p, d1, d, vars, lhs);
                    crate::meaning::running::lemma_deeper_expr(m, p, d2, d, vars, rhs);
                    assert(crate::meaning::running::run_expr(m, p, d, vars, e) == Some(
                        crate::meaning::machine::exactly(value),
                    ));
                },
                _ => {},
            }
        }
        lemma_sound_insert(machine, p, at.cache, i, value);
    }
}

proof fn lemma_swept_sound(machine: Machine, p: CoreModel, at: Progress, first: nat)
    requires
        p.acyclic(),
        1 <= machine.bits <= 64,
        first <= p.exprs.len() <= usize::MAX,
        sound(machine, p, at.cache),
    ensures
        sound(machine, p, crate::passes::ct_propagate::swept(machine, p, at, first).cache),
    decreases first,
{
    if first > 0 {
        lemma_swept_sound(machine, p, at, (first - 1) as nat);
        lemma_visited_sound(
            machine,
            p,
            crate::passes::ct_propagate::swept(machine, p, at, (first - 1) as nat),
            (first - 1) as usize,
        );
    }
}

proof fn lemma_passes_sound(machine: Machine, p: CoreModel, at: Progress, limit: nat)
    requires
        p.acyclic(),
        1 <= machine.bits <= 64,
        p.exprs.len() <= usize::MAX,
        sound(machine, p, at.cache),
    ensures
        sound(machine, p, crate::passes::ct_propagate::passes(machine, p, at, limit).cache),
    decreases limit,
{
    if limit > 0 {
        let begun = Progress {
            stats: crate::pipeline::tables::CtEvalStats {
                iterations: crate::passes::ct_propagate::more(at.stats.iterations),
                ..at.stats
            },
            ..at
        };
        lemma_swept_sound(machine, p, begun, p.exprs.len());
        let next = crate::passes::ct_propagate::passed(machine, p, at);
        if next.cache != at.cache {
            lemma_passes_sound(machine, p, next, (limit - 1) as nat);
        }
    }
}

/// Every value that is propagated is what its expression comes to.
pub proof fn lemma_propagated_right(machine: Machine, p: CoreModel)
    requires
        p.acyclic(),
        1 <= machine.bits <= 64,
        p.exprs.len() <= usize::MAX,
    ensures
        sound(machine, p, crate::passes::ct_propagate::propagated(machine, p).cache),
{
    lemma_passes_sound(
        machine,
        p,
        Progress { cache: Map::empty(), stats: crate::passes::ct_propagate::zero_stats() },
        crate::passes::ct_propagate::pass_limit(p),
    );
}

proof fn lemma_known_right(
    machine: Machine,
    p: CoreModel,
    cache: Map<usize, LiteralModel>,
    vars: Map<usize, Value>,
    e: ExprId,
    first: nat,
) -> (depth: nat)
    requires
        p.acyclic(),
        sound(machine, p, cache),
        p.has_expr(e),
        p.expr(e) is PureCall,
        first <= p.expr(e)->args.len(),
        crate::passes::ct_eval::known_values(cache, p.expr(e)->args, first) is Some,
    ensures
        crate::meaning::running::run_parts(
            crate::meaning::machine::arithmetic_of(machine),
            p,
            depth,
            vars,
            e,
            first,
        ) == Some(
            values_of(crate::passes::ct_eval::known_values(cache, p.expr(e)->args, first)->0),
        ),
        forall|i: int|
            0 <= i < crate::passes::ct_eval::known_values(
                cache,
                p.expr(e)->args,
                first,
            )->0.len() ==> crate::meaning::machine::is_held(
                machine.bits,
                #[trigger] crate::passes::ct_eval::known_values(
                    cache,
                    p.expr(e)->args,
                    first,
                )->0[i],
            ),
    decreases first,
{
    let m = crate::meaning::machine::arithmetic_of(machine);
    let args = p.expr(e)->args;
    if first == 0 {
        assert(values_of(Seq::empty()) =~= Seq::<Value>::empty());
        0
    } else {
        let d1 = lemma_known_right(machine, p, cache, vars, e, (first - 1) as nat);
        let part = args[first - 1];
        let value = cache[part.0];
        let before = crate::passes::ct_eval::known_values(cache, args, (first - 1) as nat)->0;
        assert(ExprId(part.0) == part);
        assert(comes_to(machine, p, vars, part, crate::meaning::machine::exactly(value)));
        let d2 = choose|d: nat| #[trigger]
            crate::meaning::running::run_expr(m, p, d, vars, part) == Some(
                crate::meaning::machine::exactly(value),
            );
        let d = larger(d1, d2);
        crate::meaning::running::lemma_deeper_parts(m, p, d1, d, vars, e, (first - 1) as nat);
        crate::meaning::running::lemma_deeper_expr(m, p, d2, d, vars, part);
        assert(values_of(before.push(value)) =~= values_of(before).push(
            crate::meaning::machine::exactly(value),
        ));
        d
    }
}

proof fn lemma_tried_sound(machine: Machine, p: CoreModel, at: Folding, i: usize)
    requires
        p.acyclic(),
        1 <= machine.bits <= 64,
        i < p.exprs.len(),
        sound(machine, p, at.cache),
    ensures
        sound(machine, p, crate::passes::ct_eval::tried(machine, p, at, i).cache),
{
    let kind = p.exprs[i as int].kind;
    let found = crate::passes::ct_eval::call_value(machine, p, at.cache, kind);
    if !at.cache.contains_key(i) && kind is PureCall && found is Some {
        let e = ExprId(i);
        let m = crate::meaning::machine::arithmetic_of(machine);
        assert(p.expr(e) == kind);
        let callee = kind->PureCall_callee;
        let args = kind->args;
        let values = crate::passes::ct_eval::known_values(at.cache, args, args.len())->0;
        let run = Run { p, machine, cache: at.cache };
        let d0 = lemma_known_right(machine, p, at.cache, Map::empty(), e, args.len());
        let d2 = lemma_call_right(run, Seq::empty(), callee, values);
        assert forall|vars: Map<usize, Value>| #[trigger]
            comes_to(machine, p, vars, e, crate::meaning::machine::exactly(found->0)) by {
            let d1 = lemma_known_right(machine, p, at.cache, vars, e, args.len());
            let d = larger(d1, d2 + 1);
            crate::meaning::running::lemma_deeper_parts(m, p, d1, d, vars, e, args.len());
            crate::meaning::running::lemma_deeper_call(
                m,
                p,
                d2,
                (d - 1) as nat,
                callee,
                values_of(values),
            );
            assert(crate::meaning::running::run_expr(m, p, d, vars, e) == Some(
                crate::meaning::machine::exactly(found->0),
            ));
        }
        lemma_sound_insert(machine, p, at.cache, i, found->0);
    }
}

proof fn lemma_all_tried_sound(machine: Machine, p: CoreModel, at: Folding, first: nat)
    requires
        p.acyclic(),
        1 <= machine.bits <= 64,
        first <= p.exprs.len() <= usize::MAX,
        sound(machine, p, at.cache),
    ensures
        sound(machine, p, crate::passes::ct_eval::all_tried(machine, p, at, first).cache),
    decreases first,
{
    if first > 0 {
        lemma_all_tried_sound(machine, p, at, (first - 1) as nat);
        lemma_tried_sound(
            machine,
            p,
            crate::passes::ct_eval::all_tried(machine, p, at, (first - 1) as nat),
            (first - 1) as usize,
        );
    }
}

proof fn lemma_call_passes_sound(machine: Machine, p: CoreModel, at: Folding, limit: nat)
    requires
        p.acyclic(),
        1 <= machine.bits <= 64,
        p.exprs.len() <= usize::MAX,
        sound(machine, p, at.cache),
    ensures
        sound(machine, p, crate::passes::ct_eval::call_passes(machine, p, at, limit).cache),
    decreases limit,
{
    if limit > 0 {
        let begun = Folding {
            iterations: crate::passes::ct_propagate::more(at.iterations),
            ..at
        };
        lemma_all_tried_sound(machine, p, begun, p.exprs.len());
        let next = crate::passes::ct_eval::call_pass(machine, p, at);
        if next.cache != at.cache {
            lemma_call_passes_sound(machine, p, next, (limit - 1) as nat);
        }
    }
}

/// Every value that is known after calls have been run is what its expression
/// comes to.
pub proof fn lemma_calls_right(machine: Machine, p: CoreModel, cache: Map<usize, LiteralModel>)
    requires
        p.acyclic(),
        1 <= machine.bits <= 64,
        p.exprs.len() <= usize::MAX,
        sound(machine, p, cache),
    ensures
        sound(machine, p, crate::passes::ct_eval::calls_folded(machine, p, cache).cache),
{
    lemma_call_passes_sound(
        machine,
        p,
        Folding { cache, iterations: 0, attempts: 0, inserts: 0 },
        crate::passes::ct_propagate::pass_limit(p),
    );
}

/// Evaluation at compile time is right: every literal of its table is what
/// running the expression comes to, whatever the variables stand for, and every
/// decided branch goes the way that its condition comes to.
pub proof fn lemma_evaluated_right(
    machine: Machine,
    p: CoreModel,
    target: crate::pipeline::compiler::TargetSpec,
    deps: Seq<crate::pipeline::tables::FileDepModel>,
    e: usize,
    vars: Map<usize, Value>,
)
    requires
        p.acyclic(),
        1 <= machine.bits <= 64,
        p.exprs.len() <= usize::MAX,
    ensures
        ({
            let ct = crate::passes::ct_eval::with_calls(
                machine,
                p,
                crate::passes::ct_propagate::found(machine, p, target, deps, None),
            );
            &&& ct.cache.contains_key(e) ==> comes_to(
                machine,
                p,
                vars,
                ExprId(e),
                crate::meaning::machine::exactly(ct.cache[e]),
            )
            &&& ct.decisions.contains_key(e) ==> comes_to(
                machine,
                p,
                vars,
                ExprId(e),
                Value::Bool(ct.decisions[e] is LiveTrue),
            )
        }),
{
    lemma_propagated_right(machine, p);
    lemma_calls_right(machine, p, crate::passes::ct_propagate::propagated(machine, p).cache);
}

/// A function that returns one of its parameters gives back the argument in
/// that place.
pub proof fn lemma_parameter_gives_argument(
    run: Run,
    stack: Seq<FuncId>,
    f: FuncId,
    args: Seq<LiteralModel>,
    i: int,
    e: ExprId,
)
    requires
        run.p.acyclic(),
        stack.len() < MAX_CALL_EVAL_DEPTH,
        !stack.contains(f),
        run.p.has_function(f),
        run.p.function(f).declared_effects.len() == 0,
        run.p.function(f).params.no_duplicates(),
        run.p.function(f).params.len() == args.len(),
        0 <= i < args.len(),
        run.p.has_stmt(run.p.function(f).body),
        run.p.stmt(run.p.function(f).body) == StmtModel::Return(e),
        run.p.has_expr(e),
        run.p.expr(e) == ExprModel::Var(run.p.function(f).params[i]),
        !run.cache.contains_key(e.0),
    ensures
        run.call(stack, f, args) == Some(args[i]),
{
    let params = run.p.function(f).params;
    let env = crate::passes::ct_eval::bindings(params, args);
    lemma_bound_last(params, args, params.len() as int, params[i].0);
    assert(VarId(params[i].0) == params[i]);
    let inner = stack.push(f);
    assert(run.expr(inner, e, env) == crate::passes::ct_eval::bound_to(
        env,
        env.len() as int,
        params[i],
    ));
    assert(run.stmt(inner, run.p.function(f).body, env) is Some);
}

} // verus!
