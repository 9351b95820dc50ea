//! Blocks and jumps do what the linear code does that they were made from.
use crate::common::ids::{CfgBlockId, CfgExprId, CfgValueId, LinearExprId, LinearStmtId, VarId};
use crate::ir::cfg::{CfgInstruction, CfgModel};
use crate::ir::linear::{LinearExprModel, LinearModel, LinearStmtModel};
use crate::meaning::cfg_run::{At, Progress};
use crate::meaning::values::{Arithmetic, Value};
use crate::meaning::worlds::{Event, Outcome, World};
use crate::passes::cfg_lower::{CfgState, Exit};
use vstd::prelude::*;

verus! {

/// Each register holds what its variable holds.
pub open spec fn agree(state: CfgState, vars: Map<usize, Value>, env: Map<usize, Value>) -> bool {
    forall|x: usize| #[trigger]
        state.values.contains_key(x) ==> crate::meaning::cfg_run::held_in(env, state.values[x])
            == crate::meaning::core_values::value_of(vars, VarId(x))
}

/// Where a run is that has sent a value to an exit.
pub open spec fn sent(
    exit: Exit,
    env: Map<usize,
    Value>,
    value: Value,
    seen: Seq<Event>,
) -> Progress {
    match exit {
        Exit::Return => Progress::Done(Outcome { value, seen }),
        Exit::Yield(block) => Progress::On(At { env, seen, block, args: seq![value] }),
        Exit::Discard(block) => Progress::On(At { env, seen, block, args: Seq::empty() }),
    }
}

proof fn lemma_set(
    lin: LinearModel,
    state: CfgState,
    vars: Map<usize, Value>,
    env: Map<usize, Value>,
    var: VarId,
    to: CfgValueId,
    v: Value,
)
    requires
        state.holds(lin),
        state.value_at(var, to),
        agree(state, vars, env),
    ensures
        agree(state, vars.insert(var.0, v), env.insert(to.0, v)),
{
    assert forall|x: usize| #[trigger]
        state.values.contains_key(x) implies crate::meaning::cfg_run::held_in(
        env.insert(to.0, v),
        state.values[x],
    ) == crate::meaning::core_values::value_of(vars.insert(var.0, v), VarId(x)) by {
        assert(state.value_at(VarId(x), state.values[x]));
        if state.values[x].0 == to.0 {
            assert(state.cfg.values[to.0 as int] == Some(VarId(x)));
            assert(state.cfg.values[to.0 as int] == Some(var));
        }
    }
}

/// A register that no variable has can hold anything.
proof fn lemma_set_unnamed(
    lin: LinearModel,
    state: CfgState,
    vars: Map<usize, Value>,
    env: Map<usize, Value>,
    to: CfgValueId,
    v: Value,
)
    requires
        state.holds(lin),
        state.unnamed(to),
        agree(state, vars, env),
    ensures
        agree(state, vars, env.insert(to.0, v)),
{
    assert forall|x: usize| #[trigger]
        state.values.contains_key(x) implies crate::meaning::cfg_run::held_in(
        env.insert(to.0, v),
        state.values[x],
    ) == crate::meaning::core_values::value_of(vars, VarId(x)) by {
        assert(state.value_at(VarId(x), state.values[x]));
    }
}

proof fn lemma_set_fields(
    lin: LinearModel,
    state: CfgState,
    vars: Map<usize, Value>,
    env: Map<usize, Value>,
    binders: Seq<VarId>,
    to: Seq<CfgValueId>,
    value: Value,
    first: nat,
)
    requires
        state.holds(lin),
        state.values_at(binders, to),
        agree(state, vars, env),
        first <= binders.len(),
    ensures
        agree(
            state,
            crate::meaning::worlds::with_fields(vars, binders, value, first),
            crate::meaning::cfg_run::set_all(
                env,
                to,
                crate::meaning::cfg_run::fields_of(value, to.len()),
                first,
            ),
        ),
    decreases first,
{
    if first > 0 {
        let n = (first - 1) as nat;
        lemma_set_fields(lin, state, vars, env, binders, to, value, n);
        let fields = crate::meaning::cfg_run::fields_of(value, to.len());
        assert(state.value_at(binders[first - 1], to[first - 1]));
        lemma_set(
            lin,
            state,
            crate::meaning::worlds::with_fields(vars, binders, value, n),
            crate::meaning::cfg_run::set_all(env, to, fields, n),
            binders[first - 1],
            to[first - 1],
            fields[first - 1],
        );
    }
}

/// To set the same registers again leaves what they hold.
proof fn lemma_set_again(
    env: Map<usize, Value>,
    to: Seq<CfgValueId>,
    args: Seq<Value>,
    first: nat,
    x: usize,
)
    requires
        first <= to.len(),
    ensures
        ({
            let once = crate::meaning::cfg_run::set_all(env, to, args, to.len());
            let twice = crate::meaning::cfg_run::set_all(once, to, args, first);
            let set = crate::meaning::cfg_run::set_all(env, to, args, first);
            if exists|i: int| 0 <= i < first && (#[trigger] to[i]).0 == x {
                twice.contains_key(x) && set.contains_key(x) && twice[x] == set[x]
            } else {
                twice.contains_key(x) == once.contains_key(x) && twice[x] == once[x]
                    && set.contains_key(x) == env.contains_key(x) && set[x] == env[x]
            }
        }),
    decreases first,
{
    if first > 0 {
        lemma_set_again(env, to, args, (first - 1) as nat, x);
        assert(to[first - 1] == to[first - 1]);
    }
}

proof fn lemma_set_twice(env: Map<usize, Value>, to: Seq<CfgValueId>, args: Seq<Value>)
    ensures
        ({
            let once = crate::meaning::cfg_run::set_all(env, to, args, to.len());
            crate::meaning::cfg_run::set_all(once, to, args, to.len()) == once
        }),
{
    let once = crate::meaning::cfg_run::set_all(env, to, args, to.len());
    let twice = crate::meaning::cfg_run::set_all(once, to, args, to.len());
    assert forall|x: usize| #[trigger] twice.contains_key(x) == once.contains_key(x) by {
        lemma_set_again(env, to, args, to.len(), x);
    }
    assert forall|x: usize| #[trigger] twice[x] == once[x] by {
        lemma_set_again(env, to, args, to.len(), x);
    }
    assert(twice.dom() =~= once.dom());
    assert(twice =~= once);
}

/// An expression of the graph has the value of the linear expression that it was
/// made from.
pub proof fn lemma_graph_value(
    m: Arithmetic,
    lin: LinearModel,
    state: CfgState,
    vars: Map<usize, Value>,
    env: Map<usize, Value>,
    deep: nat,
    e: LinearExprId,
    d: CfgExprId,
)
    requires
        lin.bottom_up(),
        state.holds(lin),
        agree(state, vars, env),
        state.expr_at(e, d),
        deep > 0,
        lin.has_expr(e) ==> deep > e.0,
    ensures
        crate::meaning::cfg_run::graph_value(m, state.cfg, env, deep, d)
            == crate::meaning::linear_run::linear_value(m, lin, vars, e),
    decreases deep, 0nat,
{
    assert(state.expr_says(lin, e, state.cfg.expr(d)));
    let n = (deep - 1) as nat;
    let kind = state.cfg.expr(d);
    if lin.has_expr(e) {
        assert forall|part: LinearExprId| #[trigger] lin.expr(e).has_part(part) implies part.0
            < e.0 by {}
        match lin.expr(e) {
            LinearExprModel::Var(var) => {
                assert(state.value_at(var, kind->Value_0));
                assert(VarId(var.0) == var);
            },
            LinearExprModel::Unary { op, expr } => {
                assert(lin.expr(e).has_part(expr));
                lemma_graph_value(m, lin, state, vars, env, n, expr, kind->Unary_expr);
            },
            LinearExprModel::Binary { op, lhs, rhs } => {
                assert(lin.expr(e).has_part(lhs));
                assert(lin.expr(e).has_part(rhs));
                lemma_graph_value(m, lin, state, vars, env, n, lhs, kind->lhs);
                lemma_graph_value(m, lin, state, vars, env, n, rhs, kind->rhs);
            },
            LinearExprModel::PureCall { args, .. } => {
                lemma_graph_values(m, lin, state, vars, env, n, e, kind->args, args.len());
                assert(crate::meaning::cfg_run::graph_all(
                    m,
                    state.cfg,
                    env,
                    n,
                    kind->args,
                ) =~= crate::meaning::linear_run::linear_values(m, lin, vars, e, args.len()));
            },
            LinearExprModel::MakeStruct { fields, .. } => {
                let to = kind->MakeStruct_fields;
                lemma_graph_values(m, lin, state, vars, env, n, e, to, fields.len());
                assert(crate::meaning::cfg_run::graph_all(m, state.cfg, env, n, to)
                    =~= crate::meaning::linear_run::linear_values(
                    m,
                    lin,
                    vars,
                    e,
                    fields.len(),
                ));
            },
            LinearExprModel::MakeEnum { fields, .. } => {
                let to = kind->MakeEnum_fields;
                lemma_graph_values(m, lin, state, vars, env, n, e, to, fields.len());
                assert(crate::meaning::cfg_run::graph_all(m, state.cfg, env, n, to)
                    =~= crate::meaning::linear_run::linear_values(
                    m,
                    lin,
                    vars,
                    e,
                    fields.len(),
                ));
            },
            _ => {},
        }
    }
}

proof fn lemma_graph_values(
    m: Arithmetic,
    lin: LinearModel,
    state: CfgState,
    vars: Map<usize, Value>,
    env: Map<usize, Value>,
    deep: nat,
    e: LinearExprId,
    to: Seq<CfgExprId>,
    first: nat,
)
    requires
        lin.bottom_up(),
        state.holds(lin),
        agree(state, vars, env),
        lin.has_expr(e),
        deep >= e.0,
        state.exprs_at(crate::meaning::linear_run::linear_parts(lin.expr(e)), to),
        first <= to.len(),
    ensures
        ({
            let all = crate::meaning::linear_run::linear_values(m, lin, vars, e, first);
            &&& all.len() == first
            &&& forall|i: int|
                0 <= i < first ==> #[trigger] all[i] == crate::meaning::cfg_run::graph_value(
                    m,
                    state.cfg,
                    env,
                    deep,
                    to[i],
                )
        }),
    decreases deep, first,
{
    if first > 0 {
        let parts = crate::meaning::linear_run::linear_parts(lin.expr(e));
        lemma_graph_values(m, lin, state, vars, env, deep, e, to, (first - 1) as nat);
        crate::meaning::linear_run::lemma_linear_part(lin.expr(e), first - 1);
        assert(lin.expr(e).has_part(parts[first - 1]));
        assert(state.expr_at(parts[first - 1], to[first - 1]));
        lemma_graph_value(m, lin, state, vars, env, deep, parts[first - 1], to[first - 1]);
    }
}

proof fn lemma_graph_all(
    m: Arithmetic,
    lin: LinearModel,
    state: CfgState,
    vars: Map<usize, Value>,
    env: Map<usize, Value>,
    deep: nat,
    es: Seq<LinearExprId>,
    ds: Seq<CfgExprId>,
)
    requires
        lin.bottom_up(),
        state.holds(lin),
        agree(state, vars, env),
        deep > lin.exprs.len(),
        state.exprs_at(es, ds),
    ensures
        crate::meaning::cfg_run::graph_all(m, state.cfg, env, deep, ds)
            == crate::meaning::linear_run::linear_all(m, lin, vars, es),
{
    let left = crate::meaning::cfg_run::graph_all(m, state.cfg, env, deep, ds);
    let right = crate::meaning::linear_run::linear_all(m, lin, vars, es);
    assert forall|i: int| 0 <= i < es.len() implies left[i] == right[i] by {
        assert(state.expr_at(es[i], ds[i]));
        lemma_graph_value(m, lin, state, vars, env, deep, es[i], ds[i]);
    }
    assert(left =~= right);
}

proof fn lemma_kinds(
    state: CfgState,
    b: CfgBlockId,
    params: Seq<CfgValueId>,
    kinds: Seq<CfgInstruction>,
    source: LinearStmtId,
)
    requires
        state.block_has(b, params, kinds, source),
    ensures
        crate::meaning::cfg_run::kinds_in(state.cfg, state.cfg.block(b)) == kinds,
        state.cfg.block(b).params == params,
        state.cfg.has_block(b),
{
    let block = state.cfg.block(b);
    let all = crate::meaning::cfg_run::kinds_in(state.cfg, block);
    assert forall|i: int| 0 <= i < kinds.len() implies all[i] == kinds[i] by {
        assert(state.cfg.has_instruction(block.instructions[i]));
    }
    assert(all =~= kinds);
}

/// A run is put together of two.
proof fn lemma_chain(
    w: World,
    cfg: CfgModel,
    deep: nat,
    from: Progress,
    a: nat,
    mid: Progress,
    b: nat,
    end: Progress,
)
    requires
        crate::meaning::cfg_run::blocks_run(w, cfg, deep, from, a) == mid,
        crate::meaning::cfg_run::blocks_run(w, cfg, deep, mid, b) == end,
    ensures
        crate::meaning::cfg_run::blocks_run(w, cfg, deep, from, a + b) == end,
{
    crate::meaning::cfg_run::lemma_runs_on(w, cfg, deep, from, a, b);
}

/// One block first, then the rest.
proof fn lemma_first(
    w: World,
    cfg: CfgModel,
    deep: nat,
    at: At,
    mid: Progress,
    b: nat,
    end: Progress,
)
    requires
        crate::meaning::cfg_run::one_block(w, cfg, deep, at) == mid,
        crate::meaning::cfg_run::blocks_run(w, cfg, deep, mid, b) == end,
    ensures
        crate::meaning::cfg_run::blocks_run(w, cfg, deep, Progress::On(at), b + 1) == end,
{
}

/// A block that sends a value to an exit does so.
proof fn lemma_exit(
    w: World,
    lin: LinearModel,
    state: CfgState,
    deep: nat,
    vars: Map<usize, Value>,
    at: At,
    params: Seq<CfgValueId>,
    kinds: Seq<CfgInstruction>,
    value: CfgExprId,
    exit: Exit,
    source: LinearStmtId,
) -> (out: Map<usize, Value>)
    requires
        state.holds(lin),
        state.exits(at.block, params, kinds, value, exit, source),
        params.len() == at.args.len(),
        agree(
            state,
            vars,
            crate::meaning::cfg_run::after_kinds(
                w.arithmetic,
                state.cfg,
                crate::meaning::cfg_run::set_all(at.env, params, at.args, params.len()),
                at.seen,
                deep,
                kinds,
                kinds.len(),
            ).0,
        ),
    ensures
        agree(state, vars, out),
        ({
            let m = w.arithmetic;
            let (env, seen) = crate::meaning::cfg_run::after_kinds(
                m,
                state.cfg,
                crate::meaning::cfg_run::set_all(at.env, params, at.args, params.len()),
                at.seen,
                deep,
                kinds,
                kinds.len(),
            );
            crate::meaning::cfg_run::blocks_run(w, state.cfg, deep, Progress::On(at), 1) == sent(
                exit,
                out,
                crate::meaning::cfg_run::graph_value(m, state.cfg, env, deep, value),
                seen,
            )
        }),
{
    let m = w.arithmetic;
    let start = crate::meaning::cfg_run::set_all(at.env, params, at.args, params.len());
    let (env, seen) = crate::meaning::cfg_run::after_kinds(
        m,
        state.cfg,
        start,
        at.seen,
        deep,
        kinds,
        kinds.len(),
    );
    reveal_with_fuel(crate::meaning::cfg_run::blocks_run, 2);
    let v = crate::meaning::cfg_run::graph_value(m, state.cfg, env, deep, value);
    match exit {
        Exit::Return => {
            lemma_kinds(state, at.block, params, kinds, source);
            env
        },
        Exit::Yield(target) => {
            lemma_kinds(state, at.block, params, kinds, source);
            assert(crate::meaning::cfg_run::graph_all(m, state.cfg, env, deep, seq![value])
                =~= seq![v]);
            env
        },
        Exit::Discard(target) => {
            let result = choose|result: CfgValueId|
                {
                    &&& #[trigger] state.unnamed(result)
                    &&& state.block_has(
                        at.block,
                        params,
                        kinds.push(CfgInstruction::Eval { result, value }),
                        source,
                    )
                    &&& state.goes_on(at.block)
                    &&& state.onward(at.block) == target
                };
            let more = kinds.push(CfgInstruction::Eval { result, value });
            lemma_kinds(state, at.block, params, more, source);
            lemma_kinds_prefix(
                m,
                state.cfg,
                start,
                at.seen,
                deep,
                kinds,
                CfgInstruction::Eval { result, value },
                kinds.len(),
            );
            lemma_set_unnamed(lin, state, vars, env, result, v);
            let args = state.cfg.block(at.block).terminator->Goto_args;
            assert(crate::meaning::cfg_run::graph_all(
                m,
                state.cfg,
                env.insert(result.0, v),
                deep,
                args,
            ) =~= Seq::empty());
            env.insert(result.0, v)
        },
    }
}

proof fn lemma_kinds_prefix(
    m: Arithmetic,
    cfg: CfgModel,
    env: Map<usize, Value>,
    seen: Seq<Event>,
    deep: nat,
    kinds: Seq<CfgInstruction>,
    last: CfgInstruction,
    first: nat,
)
    requires
        first <= kinds.len(),
    ensures
        crate::meaning::cfg_run::after_kinds(m, cfg, env, seen, deep, kinds.push(last), first)
            == crate::meaning::cfg_run::after_kinds(m, cfg, env, seen, deep, kinds, first),
    decreases first,
{
    if first > 0 {
        lemma_kinds_prefix(m, cfg, env, seen, deep, kinds, last, (first - 1) as nat);
    }
}

/// A block that goes on does so.
proof fn lemma_goes_on(
    w: World,
    state: CfgState,
    deep: nat,
    at: At,
    params: Seq<CfgValueId>,
    kinds: Seq<CfgInstruction>,
    source: LinearStmtId,
)
    requires
        state.block_has(at.block, params, kinds, source),
        state.goes_on(at.block),
        params.len() == at.args.len(),
    ensures
        ({
            let (env, seen) = crate::meaning::cfg_run::after_kinds(
                w.arithmetic,
                state.cfg,
                crate::meaning::cfg_run::set_all(at.env, params, at.args, params.len()),
                at.seen,
                deep,
                kinds,
                kinds.len(),
            );
            crate::meaning::cfg_run::one_block(w, state.cfg, deep, at) == Progress::On(
                At { env, seen, block: state.onward(at.block), args: Seq::empty() },
            )
        }),
{
    let m = w.arithmetic;
    lemma_kinds(state, at.block, params, kinds, source);
    let (env, seen) = crate::meaning::cfg_run::after_kinds(
        m,
        state.cfg,
        crate::meaning::cfg_run::set_all(at.env, params, at.args, params.len()),
        at.seen,
        deep,
        kinds,
        kinds.len(),
    );
    let args = state.cfg.block(at.block).terminator->Goto_args;
    assert(crate::meaning::cfg_run::graph_all(m, state.cfg, env, deep, args) =~= Seq::empty());
}

/// A block that takes the value of a variable does so.
proof fn lemma_received(
    w: World,
    lin: LinearModel,
    state: CfgState,
    deep: nat,
    vars: Map<usize, Value>,
    at: At,
    var: VarId,
    source: LinearStmtId,
)
    requires
        state.holds(lin),
        agree(state, vars, at.env),
        state.receives(at.block, var, source),
        at.args.len() == 1,
    ensures
        ({
            let env = at.env.insert(state.values[var.0].0, at.args[0]);
            &&& agree(state, vars.insert(var.0, at.args[0]), env)
            &&& crate::meaning::cfg_run::one_block(w, state.cfg, deep, at) == Progress::On(
                At { env, seen: at.seen, block: state.onward(at.block), args: Seq::empty() },
            )
        }),
{
    let to = state.values[var.0];
    assert(state.value_at(var, to));
    lemma_set(lin, state, vars, at.env, var, to, at.args[0]);
    lemma_goes_on(w, state, deep, at, seq![to], Seq::empty(), source);
    reveal_with_fuel(crate::meaning::cfg_run::set_all, 2);
}

/// Where linear code comes to something, the blocks made from it come to the same
/// and send it to the exit, with the world seeing the same.
#[verifier::rlimit(100)]
#[verifier::spinoff_prover]
pub proof fn lemma_jumps(
    w: World,
    lin: LinearModel,
    state: CfgState,
    deep: nat,
    vars: Map<usize, Value>,
    env: Map<usize, Value>,
    seen: Seq<Event>,
    s: LinearStmtId,
    exit: Exit,
    b: CfgBlockId,
) -> (out: (nat, Map<usize, Value>))
    requires
        lin.acyclic(),
        lin.bottom_up(),
        state.holds(lin),
        deep > lin.exprs.len(),
        state.runs(lin, s, exit, b),
        agree(state, vars, env),
        crate::meaning::register_run::register_run(w, lin, vars, seen, s) is Some,
    ensures
        ({
            let r = crate::meaning::register_run::register_run(w, lin, vars, seen, s)->0;
            &&& agree(state, r.vars, out.1)
            &&& crate::meaning::cfg_run::blocks_run(
                w,
                state.cfg,
                deep,
                Progress::On(At { env, seen, block: b, args: Seq::empty() }),
                out.0,
            ) == sent(exit, out.1, r.value, r.seen)
        }),
    decreases s.0, 1nat,
{
    let m = w.arithmetic;
    let cfg = state.cfg;
    let at = At { env, seen, block: b, args: Seq::empty() };
    let r = crate::meaning::register_run::register_run(w, lin, vars, seen, s)->0;
    reveal_with_fuel(crate::meaning::cfg_run::after_kinds, 2);
    assert(crate::meaning::cfg_run::set_all(env, Seq::empty(), at.args, 0) == env);
    if !lin.has_stmt(s) {
        lemma_unit(w, lin, state, deep, vars, at, CfgInstruction::Error, exit, s)
    } else {
        assert forall|part: LinearStmtId| #[trigger] lin.stmt(s).has_part(part) implies part.0
            < s.0 by {}
        match lin.stmt(s) {
            LinearStmtModel::Return(e) => {
                let d = state.exprs[e.0];
                assert(state.expr_at(e, d));
                lemma_graph_value(m, lin, state, vars, env, deep, e, d);
                let out = lemma_exit(
                    w,
                    lin,
                    state,
                    deep,
                    vars,
                    at,
                    Seq::empty(),
                    Seq::empty(),
                    d,
                    exit,
                    s,
                );
                (1nat, out)
            },
            LinearStmtModel::Let { binding, value, next } => {
                assert(lin.stmt(s).has_part(next));
                let to = state.values[binding.0];
                let d = state.exprs[value.0];
                let kinds = seq![CfgInstruction::Let { result: to, value: d }];
                assert(state.expr_at(value, d));
                assert(state.value_at(binding, to));
                lemma_graph_value(m, lin, state, vars, env, deep, value, d);
                let v = crate::meaning::linear_run::linear_value(m, lin, vars, value);
                lemma_goes_on(w, state, deep, at, Seq::empty(), kinds, s);
                lemma_set(lin, state, vars, env, binding, to, v);
                let inner = env.insert(to.0, v);
                let on = state.onward(b);
                let out = lemma_jumps(
                    w,
                    lin,
                    state,
                    deep,
                    vars.insert(binding.0, v),
                    inner,
                    seen,
                    next,
                    exit,
                    on,
                );
                let mid = Progress::On(At { env: inner, seen, block: on, args: Seq::empty() });
                lemma_first(w, cfg, deep, at, mid, out.0, sent(exit, out.1, r.value, r.seen));
                (out.0 + 1, out.1)
            },
            LinearStmtModel::Val { binding, value, next } => {
                assert(lin.stmt(s).has_part(value));
                assert(lin.stmt(s).has_part(next));
                let k = choose|k: CfgBlockId|
                    {
                        &&& #[trigger] state.receives(k, binding, s)
                        &&& state.runs(lin, next, exit, state.onward(k))
                        &&& state.runs(lin, value, Exit::Yield(k), b)
                    };
                let one = crate::meaning::register_run::register_run(w, lin, vars, seen, value)->0;
                let first = lemma_jumps(
                    w,
                    lin,
                    state,
                    deep,
                    vars,
                    env,
                    seen,
                    value,
                    Exit::Yield(k),
                    b,
                );
                let here = At { env: first.1, seen: one.seen, block: k, args: seq![one.value] };
                lemma_received(w, lin, state, deep, one.vars, here, binding, s);
                let inner = first.1.insert(state.values[binding.0].0, one.value);
                let on = state.onward(k);
                let out = lemma_jumps(
                    w,
                    lin,
                    state,
                    deep,
                    one.vars.insert(binding.0, one.value),
                    inner,
                    one.seen,
                    next,
                    exit,
                    on,
                );
                let end = sent(exit, out.1, r.value, r.seen);
                let mid = Progress::On(
                    At { env: inner, seen: one.seen, block: on, args: Seq::empty() },
                );
                lemma_first(w, cfg, deep, here, mid, out.0, end);
                lemma_chain(
                    w,
                    cfg,
                    deep,
                    Progress::On(at),
                    first.0,
                    Progress::On(here),
                    out.0 + 1,
                    end,
                );
                (first.0 + (out.0 + 1), out.1)
            },
            LinearStmtModel::Handle { effect, body, next } => {
                assert(lin.stmt(s).has_part(body));
                if let Some(n) = next {
                    assert(lin.stmt(s).has_part(n));
                }
                let handler = state.region(b);
                lemma_region(
                    w,
                    lin,
                    state,
                    deep,
                    vars,
                    at,
                    s,
                    CfgInstruction::HandlerEnter { handler, effect },
                    CfgInstruction::HandlerExit { handler, effect },
                    seen.push(Event::Enter(effect)),
                    body,
                    next,
                    exit,
                )
            },
            LinearStmtModel::Stage { stage, body, next } => {
                assert(lin.stmt(s).has_part(body));
                if let Some(n) = next {
                    assert(lin.stmt(s).has_part(n));
                }
                lemma_region(
                    w,
                    lin,
                    state,
                    deep,
                    vars,
                    at,
                    s,
                    CfgInstruction::StageEnter { stage },
                    CfgInstruction::StageExit { stage },
                    seen.push(Event::Stage(stage)),
                    body,
                    next,
                    exit,
                )
            },
            LinearStmtModel::Hole => {
                lemma_unit(w, lin, state, deep, vars, at, CfgInstruction::Hole, exit, s)
            },
            LinearStmtModel::Error => {
                lemma_unit(w, lin, state, deep, vars, at, CfgInstruction::Error, exit, s)
            },
            _ => { lemma_ends(w, lin, state, deep, vars, at, s, exit) },
        }
    }
}

/// The same of the statements that end a block.
#[verifier::rlimit(100)]
#[verifier::spinoff_prover]
proof fn lemma_ends(
    w: World,
    lin: LinearModel,
    state: CfgState,
    deep: nat,
    vars: Map<usize, Value>,
    at: At,
    s: LinearStmtId,
    exit: Exit,
) -> (out: (nat, Map<usize, Value>))
    requires
        lin.acyclic(),
        lin.bottom_up(),
        state.holds(lin),
        deep > lin.exprs.len(),
        lin.has_stmt(s),
        lin.stmt(s) is Call || lin.stmt(s) is If || lin.stmt(s) is Match || lin.stmt(s) is Perform,
        state.runs(lin, s, exit, at.block),
        at.args.len() == 0,
        agree(state, vars, at.env),
        crate::meaning::register_run::register_run(w, lin, vars, at.seen, s) is Some,
    ensures
        ({
            let r = crate::meaning::register_run::register_run(w, lin, vars, at.seen, s)->0;
            &&& agree(state, r.vars, out.1)
            &&& crate::meaning::cfg_run::blocks_run(
                w,
                state.cfg,
                deep,
                Progress::On(at),
                out.0,
            ) == sent(exit, out.1, r.value, r.seen)
        }),
    decreases s.0, 0nat,
{
    let m = w.arithmetic;
    let cfg = state.cfg;
    let env = at.env;
    let seen = at.seen;
    let r = crate::meaning::register_run::register_run(w, lin, vars, seen, s)->0;
    assert forall|part: LinearStmtId| #[trigger] lin.stmt(s).has_part(part) implies part.0
        < s.0 by {}
    lemma_kinds(state, at.block, Seq::empty(), Seq::empty(), s);
    assert(at.args =~= Seq::empty());
    match lin.stmt(s) {
        LinearStmtModel::Call { result, callee, args, next, .. } => {
            assert(lin.stmt(s).has_part(next));
            let kind = cfg.block(at.block).terminator;
            lemma_graph_all(m, lin, state, vars, env, deep, args, kind->Call_args);
            let more = seen.push(
                Event::Call {
                    callee,
                    args: crate::meaning::linear_run::linear_all(m, lin, vars, args),
                },
            );
            let answer = (w.answer)(more);
            let to = kind->Call_result;
            let k = kind->Call_target;
            lemma_set(lin, state, vars, env, result, to, answer);
            let here = At {
                env: env.insert(to.0, answer),
                seen: more,
                block: k,
                args: seq![answer],
            };
            lemma_received(w, lin, state, deep, vars.insert(result.0, answer), here, result, s);
            assert(vars.insert(result.0, answer).insert(result.0, answer) =~= vars.insert(
                result.0,
                answer,
            ));
            let inner = here.env.insert(to.0, answer);
            let on = state.onward(k);
            let out = lemma_jumps(
                w,
                lin,
                state,
                deep,
                vars.insert(result.0, answer),
                inner,
                more,
                next,
                exit,
                on,
            );
            let end = sent(exit, out.1, r.value, r.seen);
            let mid = Progress::On(At { env: inner, seen: more, block: on, args: Seq::empty() });
            lemma_first(w, cfg, deep, here, mid, out.0, end);
            lemma_first(w, cfg, deep, at, Progress::On(here), out.0 + 1, end);
            (out.0 + 1 + 1, out.1)
        },
        LinearStmtModel::Perform { result, effect, operation, args, next } => {
            assert(lin.stmt(s).has_part(next));
            let kind = cfg.block(at.block).terminator;
            lemma_graph_all(m, lin, state, vars, env, deep, args, kind->Perform_args);
            let more = seen.push(
                Event::Perform {
                    effect,
                    operation,
                    args: crate::meaning::linear_run::linear_all(m, lin, vars, args),
                },
            );
            let answer = (w.answer)(more);
            let k = kind->Perform_target;
            let on = state.onward(k);
            match result {
                Some(var) => {
                    let to = kind->Perform_result->0;
                    lemma_set(lin, state, vars, env, var, to, answer);
                    let here = At {
                        env: env.insert(to.0, answer),
                        seen: more,
                        block: k,
                        args: seq![answer],
                    };
                    lemma_received(
                        w,
                        lin,
                        state,
                        deep,
                        vars.insert(var.0, answer),
                        here,
                        var,
                        s,
                    );
                    assert(vars.insert(var.0, answer).insert(var.0, answer) =~= vars.insert(
                        var.0,
                        answer,
                    ));
                    let inner = here.env.insert(to.0, answer);
                    let out = lemma_jumps(
                        w,
                        lin,
                        state,
                        deep,
                        vars.insert(var.0, answer),
                        inner,
                        more,
                        next,
                        exit,
                        on,
                    );
                    let end = sent(exit, out.1, r.value, r.seen);
                    let mid = Progress::On(
                        At { env: inner, seen: more, block: on, args: Seq::empty() },
                    );
                    lemma_first(w, cfg, deep, here, mid, out.0, end);
                    lemma_first(w, cfg, deep, at, Progress::On(here), out.0 + 1, end);
                    (out.0 + 1 + 1, out.1)
                },
                None => {
                    let here = At { env, seen: more, block: k, args: Seq::empty() };
                    lemma_goes_on(w, state, deep, here, Seq::empty(), Seq::empty(), s);
                    let out = lemma_jumps(
                        w,
                        lin,
                        state,
                        deep,
                        vars,
                        env,
                        more,
                        next,
                        exit,
                        on,
                    );
                    let end = sent(exit, out.1, r.value, r.seen);
                    let mid = Progress::On(
                        At { env, seen: more, block: on, args: Seq::empty() },
                    );
                    lemma_first(w, cfg, deep, here, mid, out.0, end);
                    lemma_first(w, cfg, deep, at, Progress::On(here), out.0 + 1, end);
                    (out.0 + 1 + 1, out.1)
                },
            }
        },
        LinearStmtModel::If { cond, then_branch, else_branch } => {
            assert(lin.stmt(s).has_part(then_branch));
            assert(lin.stmt(s).has_part(else_branch));
            let kind = cfg.block(at.block).terminator;
            lemma_graph_value(m, lin, state, vars, env, deep, cond, kind->cond);
            let taken = crate::meaning::linear_run::linear_value(m, lin, vars, cond)->Bool_0;
            let part = if taken {
                then_branch
            } else {
                else_branch
            };
            let on = if taken {
                kind->then_target
            } else {
                kind->else_target
            };
            let out = lemma_jumps(w, lin, state, deep, vars, env, seen, part, exit, on);
            let mid = Progress::On(At { env, seen, block: on, args: Seq::empty() });
            lemma_first(w, cfg, deep, at, mid, out.0, sent(exit, out.1, r.value, r.seen));
            (out.0 + 1, out.1)
        },
        LinearStmtModel::Match { scrutinee, arms, default } => {
            let kind = cfg.block(at.block).terminator;
            lemma_graph_value(m, lin, state, vars, env, deep, scrutinee, kind->scrutinee);
            let value = crate::meaning::linear_run::linear_value(m, lin, vars, scrutinee);
            let to = kind->Match_arms;
            let tags = crate::meaning::linear_run::linear_tags(arms);
            assert forall|i: int| 0 <= i < arms.len() implies #[trigger] to[i].tag
                == arms[i].tag by {
                assert(state.arm_at(arms[i], to[i], s));
            }
            assert(crate::meaning::cfg_run::graph_tags(to) =~= tags);
            crate::meaning::worlds::lemma_arm_of(tags, value);
            match crate::meaning::worlds::arm_of(tags, value) {
                Some(i) => {
                    crate::meaning::linear_run::lemma_linear_arm(lin.stmt(s), i);
                    assert(lin.stmt(s).has_part(arms[i].body));
                    assert(state.arm_at(arms[i], to[i], s));
                    let binders = arms[i].binders;
                    let regs = to[i].binders;
                    let fields = crate::meaning::cfg_run::fields_of(value, regs.len());
                    lemma_set_fields(
                        lin,
                        state,
                        vars,
                        env,
                        binders,
                        regs,
                        value,
                        binders.len(),
                    );
                    let inner = crate::meaning::cfg_run::set_all(env, regs, fields, regs.len());
                    lemma_set_twice(env, regs, fields);
                    let k = to[i].target;
                    let on = state.onward(k);
                    let here = At { env: inner, seen, block: k, args: fields };
                    lemma_goes_on(w, state, deep, here, regs, Seq::empty(), s);
                    let out = lemma_jumps(
                        w,
                        lin,
                        state,
                        deep,
                        crate::meaning::worlds::with_fields(vars, binders, value, binders.len()),
                        inner,
                        seen,
                        arms[i].body,
                        exit,
                        on,
                    );
                    let end = sent(exit, out.1, r.value, r.seen);
                    let mid = Progress::On(
                        At { env: inner, seen, block: on, args: Seq::empty() },
                    );
                    lemma_first(w, cfg, deep, here, mid, out.0, end);
                    lemma_first(w, cfg, deep, at, Progress::On(here), out.0 + 1, end);
                    (out.0 + 1 + 1, out.1)
                },
                None => {
                    let on = kind->Match_default;
                    let here = At { env, seen, block: on, args: Seq::empty() };
                    match default {
                        Some(part) => {
                            assert(lin.stmt(s).has_part(part));
                            let out = lemma_jumps(
                                w,
                                lin,
                                state,
                                deep,
                                vars,
                                env,
                                seen,
                                part,
                                exit,
                                on,
                            );
                            let end = sent(exit, out.1, r.value, r.seen);
                            lemma_first(w, cfg, deep, at, Progress::On(here), out.0, end);
                            (out.0 + 1, out.1)
                        },
                        None => {
                            let out = lemma_exit(
                                w,
                                lin,
                                state,
                                deep,
                                vars,
                                here,
                                Seq::empty(),
                                Seq::empty(),
                                state.unit->0,
                                exit,
                                s,
                            );
                            let end = sent(exit, out, r.value, r.seen);
                            lemma_first(w, cfg, deep, at, Progress::On(here), 1, end);
                            (2nat, out)
                        },
                    }
                },
            }
        },
        _ => (0nat, env),
    }
}

/// A block that has nothing to run sends the unit value.
proof fn lemma_unit(
    w: World,
    lin: LinearModel,
    state: CfgState,
    deep: nat,
    vars: Map<usize, Value>,
    at: At,
    kind: CfgInstruction,
    exit: Exit,
    s: LinearStmtId,
) -> (out: (nat, Map<usize, Value>))
    requires
        state.holds(lin),
        deep > 0,
        kind is Hole || kind is Error,
        state.exits_unit(at.block, seq![kind], exit, s),
        at.args.len() == 0,
        agree(state, vars, at.env),
    ensures
        agree(state, vars, out.1),
        crate::meaning::cfg_run::blocks_run(w, state.cfg, deep, Progress::On(at), out.0) == sent(
            exit,
            out.1,
            Value::Unit,
            at.seen.push(
                if kind is Hole {
                    Event::Hole
                } else {
                    Event::Error
                },
            ),
        ),
{
    reveal_with_fuel(crate::meaning::cfg_run::after_kinds, 2);
    let unit = state.unit->0;
    let out = lemma_exit(
        w,
        lin,
        state,
        deep,
        vars,
        at,
        Seq::empty(),
        seq![kind],
        unit,
        exit,
        s,
    );
    (1nat, out)
}

/// The same of code of a handler or a stage.
#[verifier::rlimit(100)]
#[verifier::spinoff_prover]
proof fn lemma_region(
    w: World,
    lin: LinearModel,
    state: CfgState,
    deep: nat,
    vars: Map<usize, Value>,
    at: At,
    s: LinearStmtId,
    enter: CfgInstruction,
    leave: CfgInstruction,
    entered: Seq<Event>,
    body: LinearStmtId,
    next: Option<LinearStmtId>,
    exit: Exit,
) -> (out: (nat, Map<usize, Value>))
    requires
        lin.acyclic(),
        lin.bottom_up(),
        state.holds(lin),
        deep > lin.exprs.len(),
        lin.has_stmt(s),
        match lin.stmt(s) {
            LinearStmtModel::Handle { effect, body: b2, next: n2 } => {
                &&& b2 == body
                &&& n2 == next
                &&& enter matches CfgInstruction::HandlerEnter { effect: e2, .. }
                &&& e2 == effect
                &&& leave matches CfgInstruction::HandlerExit { effect: e3, .. }
                &&& e3 == effect
                &&& entered == at.seen.push(Event::Enter(effect))
            },
            LinearStmtModel::Stage { stage, body: b2, next: n2 } => {
                &&& b2 == body
                &&& n2 == next
                &&& enter == CfgInstruction::StageEnter { stage }
                &&& leave is StageExit
                &&& entered == at.seen.push(Event::Stage(stage))
            },
            _ => false,
        },
        body.0 < s.0,
        next matches Some(n) ==> n.0 < s.0,
        state.enters(at.block, enter, s),
        state.region_runs(lin, s, leave, body, next, exit, at.block),
        at.args.len() == 0,
        agree(state, vars, at.env),
        crate::meaning::register_run::register_run(w, lin, vars, at.seen, s) is Some,
    ensures
        ({
            let r = crate::meaning::register_run::register_run(w, lin, vars, at.seen, s)->0;
            &&& agree(state, r.vars, out.1)
            &&& crate::meaning::cfg_run::blocks_run(
                w,
                state.cfg,
                deep,
                Progress::On(at),
                out.0,
            ) == sent(exit, out.1, r.value, r.seen)
        }),
    decreases s.0, 0nat,
{
    let m = w.arithmetic;
    let cfg = state.cfg;
    let env = at.env;
    let r = crate::meaning::register_run::register_run(w, lin, vars, at.seen, s)->0;
    reveal_with_fuel(crate::meaning::cfg_run::after_kinds, 2);
    reveal_with_fuel(crate::meaning::cfg_run::set_all, 2);
    lemma_goes_on(w, state, deep, at, Seq::empty(), seq![enter], s);
    let inside = At { env, seen: entered, block: state.onward(at.block), args: Seq::empty() };
    let one = crate::meaning::register_run::register_run(w, lin, vars, entered, body)->0;
    let left = if leave is HandlerExit {
        one.seen.push(Event::Leave(leave->HandlerExit_effect))
    } else {
        one.seen
    };
    match next {
        Some(n) => {
            let after = choose|after: CfgBlockId|
                {
                    &&& #[trigger] state.leaves(after, leave, s)
                    &&& state.runs(lin, n, exit, state.onward(after))
                    &&& state.runs(lin, body, Exit::Discard(after), state.onward(at.block))
                };
            let first = lemma_jumps(
                w,
                lin,
                state,
                deep,
                vars,
                env,
                entered,
                body,
                Exit::Discard(after),
                inside.block,
            );
            let here = At { env: first.1, seen: one.seen, block: after, args: Seq::empty() };
            lemma_goes_on(w, state, deep, here, Seq::empty(), seq![leave], s);
            let on = state.onward(after);
            let out = lemma_jumps(w, lin, state, deep, one.vars, first.1, left, n, exit, on);
            let end = sent(exit, out.1, r.value, r.seen);
            let mid = Progress::On(At { env: first.1, seen: left, block: on, args: Seq::empty() });
            lemma_first(w, cfg, deep, here, mid, out.0, end);
            lemma_chain(
                w,
                cfg,
                deep,
                Progress::On(inside),
                first.0,
                Progress::On(here),
                out.0 + 1,
                end,
            );
            lemma_first(w, cfg, deep, at, Progress::On(inside), first.0 + (out.0 + 1), end);
            (first.0 + (out.0 + 1) + 1, out.1)
        },
        None => {
            let after = choose|after: CfgBlockId|
                {
                    &&& #[trigger] state.forwards(after, leave, exit, s)
                    &&& state.runs(lin, body, Exit::Yield(after), state.onward(at.block))
                };
            let (taken, value) = choose|taken: CfgValueId, value: CfgExprId|
                {
                    &&& #[trigger] state.is_plain_value(value, taken)
                    &&& state.exits(after, seq![taken], seq![leave], value, exit, s)
                };
            let first = lemma_jumps(
                w,
                lin,
                state,
                deep,
                vars,
                env,
                entered,
                body,
                Exit::Yield(after),
                inside.block,
            );
            let here = At { env: first.1, seen: one.seen, block: after, args: seq![one.value] };
            lemma_set_unnamed(lin, state, one.vars, first.1, taken, one.value);
            let out = lemma_exit(
                w,
                lin,
                state,
                deep,
                one.vars,
                here,
                seq![taken],
                seq![leave],
                value,
                exit,
                s,
            );
            let end = sent(exit, out, r.value, r.seen);
            lemma_chain(w, cfg, deep, Progress::On(inside), first.0, Progress::On(here), 1, end);
            lemma_first(w, cfg, deep, at, Progress::On(inside), first.0 + 1, end);
            (first.0 + 1 + 1, out)
        },
    }
}

/// The variables that parameters are, bound to arguments.
pub open spec fn bound(params: Seq<VarId>, args: Seq<Value>, first: nat) -> Map<usize, Value>
    decreases first,
{
    if first == 0 {
        Map::empty()
    } else {
        bound(params, args, (first - 1) as nat).insert(params[first - 1].0, args[first - 1])
    }
}

proof fn lemma_set_params(
    lin: LinearModel,
    state: CfgState,
    params: Seq<VarId>,
    to: Seq<CfgValueId>,
    args: Seq<Value>,
    first: nat,
)
    requires
        state.holds(lin),
        state.values_at(params, to),
        first <= params.len(),
    ensures
        agree(
            state,
            bound(params, args, first),
            crate::meaning::cfg_run::set_all(Map::empty(), to, args, first),
        ),
    decreases first,
{
    if first > 0 {
        let n = (first - 1) as nat;
        lemma_set_params(lin, state, params, to, args, n);
        assert(state.value_at(params[first - 1], to[first - 1]));
        lemma_set(
            lin,
            state,
            bound(params, args, n),
            crate::meaning::cfg_run::set_all(Map::empty(), to, args, n),
            params[first - 1],
            to[first - 1],
            args[first - 1],
        );
    }
}

/// Where a linear function, called with some arguments, comes to something, the
/// function of the graph comes to the same, with the world seeing the same.
pub proof fn lemma_function_jumps(
    w: World,
    lin: LinearModel,
    state: CfgState,
    deep: nat,
    i: int,
    args: Seq<Value>,
    seen: Seq<Event>,
) -> (steps: nat)
    requires
        lin.acyclic(),
        lin.bottom_up(),
        state.holds(lin),
        state.program_at(lin),
        deep > lin.exprs.len(),
        0 <= i < lin.functions.len(),
        args.len() == lin.functions[i].params.len(),
        crate::meaning::register_run::register_run(
            w,
            lin,
            bound(lin.functions[i].params, args, args.len()),
            seen,
            lin.functions[i].body,
        ) is Some,
    ensures
        ({
            let r = crate::meaning::register_run::register_run(
                w,
                lin,
                bound(lin.functions[i].params, args, args.len()),
                seen,
                lin.functions[i].body,
            )->0;
            crate::meaning::cfg_run::blocks_run(
                w,
                state.cfg,
                deep,
                Progress::On(
                    At { env: Map::empty(), seen, block: state.cfg.functions[i].entry, args },
                ),
                steps,
            ) == Progress::Done(Outcome { value: r.value, seen: r.seen })
        }),
{
    let source = lin.functions[i];
    let function = state.cfg.functions[i];
    assert(state.function_at(lin, i, function));
    let at = At { env: Map::empty(), seen, block: function.entry, args };
    let vars = bound(source.params, args, args.len());
    let env = crate::meaning::cfg_run::set_all(Map::empty(), function.params, args, args.len());
    lemma_set_params(lin, state, source.params, function.params, args, args.len());
    lemma_goes_on(w, state, deep, at, function.params, Seq::empty(), source.body);
    let on = state.onward(function.entry);
    let out = lemma_jumps(w, lin, state, deep, vars, env, seen, source.body, Exit::Return, on);
    let r = crate::meaning::register_run::register_run(w, lin, vars, seen, source.body)->0;
    let mid = Progress::On(At { env, seen, block: on, args: Seq::empty() });
    lemma_first(w, state.cfg, deep, at, mid, out.0, sent(Exit::Return, out.1, r.value, r.seen));
    out.0 + 1
}

} // verus!
