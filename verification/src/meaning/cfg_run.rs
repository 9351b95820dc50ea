//! What blocks and jumps do.
use crate::common::ids::{CfgBlockId, CfgExprId, CfgInstrId, CfgValueId, SymbolId};
use crate::ir::cfg::{
    CfgBlockModel, CfgExprModel, CfgInstruction, CfgMatchArmModel, CfgModel, CfgTerminatorModel,
};
use crate::meaning::values::{Arithmetic, Value};
use crate::meaning::worlds::{Event, Outcome, World};
use vstd::prelude::*;

verus! {

/// What a register of the graph holds.
pub open spec fn held_in(env: Map<usize, Value>, value: CfgValueId) -> Value {
    if env.contains_key(value.0) {
        env[value.0]
    } else {
        Value::Wrong
    }
}

/// The value of an expression of the graph, as far down as some depth.
pub open spec fn graph_value(
    m: Arithmetic,
    cfg: CfgModel,
    env: Map<usize, Value>,
    deep: nat,
    d: CfgExprId,
) -> Value
    decreases deep, 0nat,
{
    if deep == 0 || !cfg.has_expr(d) {
        Value::Wrong
    } else {
        let n = (deep - 1) as nat;
        match cfg.expr(d) {
            CfgExprModel::Value(value) => held_in(env, value),
            CfgExprModel::Literal(literal) => crate::meaning::core_values::literal_value(
                m,
                literal,
            ),
            CfgExprModel::Unary { op, expr } => crate::meaning::core_values::core_unary(
                m,
                op,
                graph_value(m, cfg, env, n, expr),
            ),
            CfgExprModel::Binary { op, lhs, rhs } => crate::meaning::core_values::core_binary(
                m,
                op,
                graph_value(m, cfg, env, n, lhs),
                graph_value(m, cfg, env, n, rhs),
            ),
            CfgExprModel::PureCall { callee, args } => m.applied(
                callee,
                graph_all(m, cfg, env, n, args),
            ),
            CfgExprModel::MakeStruct { ty, fields } => Value::Made {
                ty,
                variant: None,
                fields: graph_all(m, cfg, env, n, fields),
            },
            CfgExprModel::MakeEnum { ty, variant, fields } => Value::Made {
                ty,
                variant: Some(variant),
                fields: graph_all(m, cfg, env, n, fields),
            },
            CfgExprModel::Error => Value::Wrong,
        }
    }
}

pub open spec fn graph_all(
    m: Arithmetic,
    cfg: CfgModel,
    env: Map<usize, Value>,
    deep: nat,
    ds: Seq<CfgExprId>,
) -> Seq<Value>
    decreases deep, 1nat,
{
    ds.map_values(|d: CfgExprId| graph_value(m, cfg, env, deep, d))
}

/// Registers set to values, in order.
pub open spec fn set_all(
    env: Map<usize, Value>,
    params: Seq<CfgValueId>,
    args: Seq<Value>,
    first: nat,
) -> Map<usize, Value>
    decreases first,
{
    if first == 0 {
        env
    } else {
        set_all(env, params, args, (first - 1) as nat).insert(params[first - 1].0, args[first - 1])
    }
}

/// The instructions of a block, in order.
pub open spec fn kinds_in(cfg: CfgModel, block: CfgBlockModel) -> Seq<CfgInstruction> {
    block.instructions.map_values(|id: CfgInstrId| cfg.instructions[id.0 as int].kind)
}

/// What the first instructions of a block do to the registers and the world.
pub open spec fn after_kinds(
    m: Arithmetic,
    cfg: CfgModel,
    env: Map<usize, Value>,
    seen: Seq<Event>,
    deep: nat,
    kinds: Seq<CfgInstruction>,
    first: nat,
) -> (Map<usize, Value>, Seq<Event>)
    decreases first,
{
    if first == 0 {
        (env, seen)
    } else {
        let (env, seen) = after_kinds(m, cfg, env, seen, deep, kinds, (first - 1) as nat);
        match kinds[first - 1] {
            CfgInstruction::Let { result, value } => (
                env.insert(result.0, graph_value(m, cfg, env, deep, value)),
                seen,
            ),
            CfgInstruction::Eval { result, value } => (
                env.insert(result.0, graph_value(m, cfg, env, deep, value)),
                seen,
            ),
            CfgInstruction::HandlerEnter { effect, .. } => (env, seen.push(Event::Enter(effect))),
            CfgInstruction::HandlerExit { effect, .. } => (env, seen.push(Event::Leave(effect))),
            CfgInstruction::StageEnter { stage } => (env, seen.push(Event::Stage(stage))),
            CfgInstruction::StageExit { .. } => (env, seen),
            CfgInstruction::Hole => (env, seen.push(Event::Hole)),
            CfgInstruction::Error => (env, seen.push(Event::Error)),
        }
    }
}

pub open spec fn graph_tags(arms: Seq<CfgMatchArmModel>) -> Seq<SymbolId> {
    arms.map_values(|arm: CfgMatchArmModel| arm.tag)
}

/// The first fields of a value.
pub open spec fn fields_of(value: Value, count: nat) -> Seq<Value> {
    Seq::new(
        count,
        |i: int|
            match value {
                Value::Made { fields, .. } => if i < fields.len() {
                    fields[i]
                } else {
                    Value::Wrong
                },
                _ => Value::Wrong,
            },
    )
}

/// Where a run is: at a block, which is handed some values.
#[verifier::ext_equal]
pub struct At {
    pub env: Map<usize, Value>,
    pub seen: Seq<Event>,
    pub block: CfgBlockId,
    pub args: Seq<Value>,
}

/// How far a run has come.
pub enum Progress {
    On(At),
    Done(Outcome),
    Stuck,
}

/// One block runs. It is stuck where it is not handed as many values as it
/// takes, and where a condition is no truth value.
pub open spec fn one_block(w: World, cfg: CfgModel, deep: nat, at: At) -> Progress {
    let m = w.arithmetic;
    let block = cfg.block(at.block);
    if !cfg.has_block(at.block) || block.params.len() != at.args.len() {
        Progress::Stuck
    } else {
        let kinds = kinds_in(cfg, block);
        let (env, seen) = after_kinds(
            m,
            cfg,
            set_all(at.env, block.params, at.args, block.params.len()),
            at.seen,
            deep,
            kinds,
            kinds.len(),
        );
        match block.terminator {
            CfgTerminatorModel::Return(value) => Progress::Done(
                Outcome { value: graph_value(m, cfg, env, deep, value), seen },
            ),
            CfgTerminatorModel::Goto { target, args } => Progress::On(
                At { env, seen, block: target, args: graph_all(m, cfg, env, deep, args) },
            ),
            CfgTerminatorModel::Branch { cond, then_target, else_target } => match graph_value(
                m,
                cfg,
                env,
                deep,
                cond,
            ) {
                Value::Bool(taken) => Progress::On(
                    At {
                        env,
                        seen,
                        block: if taken {
                            then_target
                        } else {
                            else_target
                        },
                        args: Seq::empty(),
                    },
                ),
                _ => Progress::Stuck,
            },
            CfgTerminatorModel::Match { scrutinee, arms, default } => {
                let value = graph_value(m, cfg, env, deep, scrutinee);
                match crate::meaning::worlds::arm_of(graph_tags(arms), value) {
                    Some(i) => Progress::On(
                        At {
                            env: set_all(
                                env,
                                arms[i].binders,
                                fields_of(value, arms[i].binders.len()),
                                arms[i].binders.len(),
                            ),
                            seen,
                            block: arms[i].target,
                            args: fields_of(value, arms[i].binders.len()),
                        },
                    ),
                    None => Progress::On(At { env, seen, block: default, args: Seq::empty() }),
                }
            },
            CfgTerminatorModel::Call { callee, args, result, target, .. } => {
                let more = seen.push(
                    Event::Call { callee, args: graph_all(m, cfg, env, deep, args) },
                );
                let answer = (w.answer)(more);
                Progress::On(
                    At {
                        env: env.insert(result.0, answer),
                        seen: more,
                        block: target,
                        args: seq![answer],
                    },
                )
            },
            CfgTerminatorModel::Perform { effect, operation, args, result, target } => {
                let more = seen.push(
                    Event::Perform {
                        effect,
                        operation,
                        args: graph_all(m, cfg, env, deep, args),
                    },
                );
                let answer = (w.answer)(more);
                match result {
                    Some(result) => Progress::On(
                        At {
                            env: env.insert(result.0, answer),
                            seen: more,
                            block: target,
                            args: seq![answer],
                        },
                    ),
                    None => Progress::On(
                        At { env, seen: more, block: target, args: Seq::empty() },
                    ),
                }
            },
        }
    }
}

/// Some blocks run, one after the other.
pub open spec fn blocks_run(
    w: World,
    cfg: CfgModel,
    deep: nat,
    from: Progress,
    steps: nat,
) -> Progress
    decreases steps,
{
    if steps == 0 {
        from
    } else {
        match from {
            Progress::On(at) => blocks_run(
                w,
                cfg,
                deep,
                one_block(w, cfg, deep, at),
                (steps - 1) as nat,
            ),
            _ => from,
        }
    }
}

/// To run some blocks and then more is to run them all.
pub proof fn lemma_runs_on(w: World, cfg: CfgModel, deep: nat, from: Progress, a: nat, b: nat)
    ensures
        blocks_run(w, cfg, deep, blocks_run(w, cfg, deep, from, a), b) == blocks_run(
            w,
            cfg,
            deep,
            from,
            a + b,
        ),
    decreases a,
{
    if a > 0 {
        if let Progress::On(at) = from {
            lemma_runs_on(w, cfg, deep, one_block(w, cfg, deep, at), (a - 1) as nat, b);
        } else {
            lemma_over(w, cfg, deep, from, b);
        }
    }
}

proof fn lemma_over(w: World, cfg: CfgModel, deep: nat, from: Progress, b: nat)
    requires
        !(from is On),
    ensures
        blocks_run(w, cfg, deep, from, b) == from,
{
}

} // verus!
