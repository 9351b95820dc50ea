//! What core code does where its handlers are left to the world.
use crate::common::ids::{EffectLabelId, HandlerId, StmtId, SymbolId};
use crate::ir::core_ir::{ClauseModel, CoreModel, StmtModel};
use crate::meaning::values::Value;
use crate::meaning::worlds::{Event, Outcome, World};
use vstd::prelude::*;

verus! {

/// The effect that a handler handles.
pub open spec fn effect_of(p: CoreModel, h: HandlerId) -> EffectLabelId {
    if p.has_handler(h) {
        p.handler(h).effect
    } else {
        EffectLabelId::invalid()
    }
}

/// The operations that a handler has clauses for, and how many values each takes.
pub open spec fn clauses_of(p: CoreModel, h: HandlerId) -> Seq<(SymbolId, nat)> {
    if p.has_handler(h) {
        p.handler(h).clauses.map_values(
            |clause: ClauseModel| (clause.operation, clause.params.len()),
        )
    } else {
        Seq::empty()
    }
}

/// What a statement comes to.
pub open spec fn open_run(
    w: World,
    p: CoreModel,
    vars: Map<usize, Value>,
    seen: Seq<Event>,
    s: StmtId,
) -> Outcome
    decreases p.stmt_rank(s),
    when p.acyclic()
{
    proof {
        crate::passes::linearize::analysis::lemma_stmt_ranks(p, s);
    }
    let m = w.arithmetic;
    if !p.has_stmt(s) {
        Outcome { value: Value::Wrong, seen }
    } else {
        match p.stmt(s) {
            StmtModel::Return(e) => Outcome {
                value: crate::meaning::core_values::core_value(m, p, vars, e),
                seen,
            },
            StmtModel::Let { binding, value, next } => {
                let v = crate::meaning::core_values::core_value(m, p, vars, value);
                open_run(w, p, vars.insert(binding.0, v), seen, next)
            },
            StmtModel::Val { binding, value, next } => {
                let o = open_run(w, p, vars, seen, value);
                open_run(w, p, vars.insert(binding.0, o.value), o.seen, next)
            },
            StmtModel::Call { result, callee, args, next, .. } => {
                let more = seen.push(
                    Event::Call {
                        callee: crate::meaning::core_values::name_of(p, callee),
                        args: crate::meaning::core_values::core_all(m, p, vars, args),
                    },
                );
                open_run(w, p, vars.insert(result.0, (w.answer)(more)), more, next)
            },
            StmtModel::If { cond, then_branch, else_branch } =>
                match crate::meaning::core_values::core_value(m, p, vars, cond) {
                Value::Bool(taken) => if taken {
                    open_run(w, p, vars, seen, then_branch)
                } else {
                    open_run(w, p, vars, seen, else_branch)
                },
                _ => Outcome { value: Value::Wrong, seen },
            },
            StmtModel::Match { scrutinee, arms, default } => {
                let value = crate::meaning::core_values::core_value(m, p, vars, scrutinee);
                let tags = crate::meaning::core_run::core_tags(arms);
                match crate::meaning::worlds::arm_of(tags, value) {
                    Some(i) => {
                        proof {
                            crate::meaning::worlds::lemma_arm_of(tags, value);
                            crate::ir::core_ir::lemma_arm_is_part(p.stmt(s), i);
                        }
                        open_run(
                            w,
                            p,
                            crate::meaning::worlds::with_fields(
                                vars,
                                arms[i].binders,
                                value,
                                arms[i].binders.len(),
                            ),
                            seen,
                            arms[i].body,
                        )
                    },
                    None => match default {
                        Some(default) => open_run(w, p, vars, seen, default),
                        None => Outcome { value: Value::Wrong, seen },
                    },
                }
            },
            StmtModel::Perform { result, effect, operation, args, next } => {
                let more = seen.push(
                    Event::Perform {
                        effect,
                        operation,
                        args: crate::meaning::core_values::core_all(m, p, vars, args),
                    },
                );
                open_run(
                    w,
                    p,
                    crate::meaning::worlds::bind_option(vars, result, (w.answer)(more)),
                    more,
                    next,
                )
            },
            StmtModel::Resume { result, resume, arg, next } => {
                let more = seen.push(
                    Event::Resume {
                        of: crate::meaning::core_values::value_of(vars, resume),
                        with: crate::meaning::core_values::core_value(m, p, vars, arg),
                    },
                );
                open_run(w, p, vars.insert(result.0, (w.answer)(more)), more, next)
            },
            StmtModel::Handle { handler, body, next } => {
                let effect = effect_of(p, handler);
                let operations = clauses_of(p, handler);
                let inside = seen.push(Event::Install { effect, operations });
                let o = open_run(w, p, vars, inside, body);
                let left = o.seen.push(Event::Remove { effect, operations });
                match next {
                    Some(next) => open_run(w, p, vars, left, next),
                    None => Outcome { value: o.value, seen: left },
                }
            },
            StmtModel::Stage { stage, body, next } => {
                let o = open_run(w, p, vars, seen.push(Event::Stage(stage)), body);
                match next {
                    Some(next) => open_run(w, p, vars, o.seen, next),
                    None => o,
                }
            },
            StmtModel::Hole { .. } | StmtModel::Error(_) => Outcome { value: Value::Wrong, seen },
        }
    }
}

} // verus!
