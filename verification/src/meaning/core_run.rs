//! What core code does, with its handlers.
use crate::common::ids::{ExprId, HandlerId, StmtId, SymbolId, VarId};
use crate::ir::core_ir::{
    ClauseModel, CoreModel, ExprModel, HandlerModel, MatchArmModel, StmtModel,
};
use crate::meaning::values::Value;
use crate::meaning::worlds::{Event, Outcome, World};
use vstd::prelude::*;

verus! {

/// What there is to know in a clause about the perform that it answers.
pub struct Answering {
    /// What the clause resumes by.
    pub resume: VarId,
    /// Where the perform wants its result.
    pub into: Option<VarId>,
    /// What follows the perform.
    pub rest: StmtId,
    /// Whether the clause resumes last of all.
    pub last: bool,
}

/// Whether code runs on its own or under a handler, and then whether it is part
/// of a clause.
pub enum Place {
    Alone,
    Under(HandlerId, Option<Answering>),
}

pub open spec fn core_tags(arms: Seq<MatchArmModel>) -> Seq<SymbolId> {
    arms.map_values(|arm: MatchArmModel| arm.tag)
}

pub open spec fn operations(handler: HandlerModel) -> Seq<SymbolId> {
    handler.clauses.map_values(|clause: ClauseModel| clause.operation)
}

/// Parameters bound to arguments, one after the other, from one of them on.
pub open spec fn with_args(
    w: World,
    p: CoreModel,
    vars: Map<usize, Value>,
    params: Seq<VarId>,
    args: Seq<ExprId>,
    from: nat,
) -> Map<usize, Value>
    decreases params.len() - from,
{
    if from >= params.len() || from >= args.len() {
        vars
    } else {
        with_args(
            w,
            p,
            vars.insert(
                params[from as int].0,
                crate::meaning::core_values::core_value(w.arithmetic, p, vars, args[from as int]),
            ),
            params,
            args,
            from + 1,
        )
    }
}

/// Whether a statement only returns a variable.
pub open spec fn only_returns(p: CoreModel, s: StmtId, var: VarId) -> bool {
    p.has_stmt(s) && match p.stmt(s) {
        StmtModel::Return(e) => p.has_expr(e) && p.expr(e) == ExprModel::Var(var),
        _ => false,
    }
}

/// What a clause that answers a perform knows about it.
pub open spec fn answering(
    p: CoreModel,
    clause: ClauseModel,
    result: Option<VarId>,
    rest: StmtId,
) -> Option<Answering> {
    match clause.resume_param {
        Some(resume) => Some(
            Answering {
                resume,
                into: result,
                rest,
                last: crate::passes::linearize::analysis::clause_convention(p, clause) is Direct,
            },
        ),
        None => None,
    }
}

/// What a statement comes to in some place, within so many steps. A handled
/// operation runs its clause. A clause that resumes hands a value to where the
/// perform wants it, runs what follows the perform, and goes on with what that
/// came to. What is returned under a handler goes through its return clause.
pub open spec fn core_run(
    w: World,
    p: CoreModel,
    steps: nat,
    vars: Map<usize, Value>,
    seen: Seq<Event>,
    place: Place,
    s: StmtId,
) -> Option<Outcome>
    decreases steps,
{
    if steps == 0 || !p.has_stmt(s) {
        None
    } else {
        let m = w.arithmetic;
        let n = (steps - 1) as nat;
        match (place, p.stmt(s)) {
            (Place::Under(h, _), StmtModel::Return(e)) => core_run(
                w,
                p,
                n,
                vars.insert(
                    p.handler(h).return_param.0,
                    crate::meaning::core_values::core_value(m, p, vars, e),
                ),
                seen,
                Place::Alone,
                p.handler(h).return_body,
            ),
            (Place::Under(h, _), StmtModel::Perform { result, effect, operation, args, next })
                if effect == p.handler(h).effect => if exists|i: int|
                crate::meaning::worlds::is_first(operations(p.handler(h)), operation, i) {
                let i = choose|i: int|
                    crate::meaning::worlds::is_first(operations(p.handler(h)), operation, i);
                let clause = p.handler(h).clauses[i];
                core_run(
                    w,
                    p,
                    n,
                    with_args(w, p, vars, clause.params, args, 0),
                    seen,
                    Place::Under(h, answering(p, clause, result, next)),
                    clause.body,
                )
            } else {
                core_run(w, p, n, vars, seen, place, next)
            },
            (Place::Under(h, Some(to)), StmtModel::Resume { result, resume, arg, next })
                if to.resume == resume => {
                let given = crate::meaning::core_values::core_value(m, p, vars, arg);
                match core_run(
                    w,
                    p,
                    n,
                    crate::meaning::worlds::bind_option(vars, to.into, given),
                    seen,
                    Place::Under(h, None),
                    to.rest,
                ) {
                    Some(o) => if to.last && only_returns(p, next, result) {
                        Some(o)
                    } else {
                        core_run(
                            w,
                            p,
                            n,
                            vars.insert(result.0, o.value),
                            o.seen,
                            Place::Under(h, None),
                            next,
                        )
                    },
                    None => None,
                }
            },
            (Place::Under(_, _), StmtModel::Handle { .. }) => core_run(
                w,
                p,
                n,
                vars,
                seen,
                Place::Alone,
                s,
            ),
            (_, StmtModel::Return(e)) => Some(
                Outcome { value: crate::meaning::core_values::core_value(m, p, vars, e), seen },
            ),
            (_, StmtModel::Let { binding, value, next }) => core_run(
                w,
                p,
                n,
                vars.insert(
                    binding.0,
                    crate::meaning::core_values::core_value(m, p, vars, value),
                ),
                seen,
                place,
                next,
            ),
            (_, StmtModel::Val { binding, value, next }) => match core_run(
                w,
                p,
                n,
                vars,
                seen,
                place,
                value,
            ) {
                Some(o) => core_run(
                    w,
                    p,
                    n,
                    vars.insert(binding.0, o.value),
                    o.seen,
                    place,
                    next,
                ),
                None => None,
            },
            (_, StmtModel::Call { result, callee, args, next, .. }) => {
                let more = seen.push(
                    Event::Call {
                        callee: crate::meaning::core_values::name_of(p, callee),
                        args: crate::meaning::core_values::core_all(m, p, vars, args),
                    },
                );
                core_run(w, p, n, vars.insert(result.0, (w.answer)(more)), more, place, next)
            },
            (_, StmtModel::If { cond, then_branch, else_branch }) =>
                match crate::meaning::core_values::core_value(m, p, vars, cond) {
                Value::Bool(taken) => core_run(
                    w,
                    p,
                    n,
                    vars,
                    seen,
                    place,
                    if taken {
                        then_branch
                    } else {
                        else_branch
                    },
                ),
                _ => Some(Outcome { value: Value::Wrong, seen }),
            },
            (_, StmtModel::Match { scrutinee, arms, default }) => {
                let value = crate::meaning::core_values::core_value(m, p, vars, scrutinee);
                match crate::meaning::worlds::arm_of(core_tags(arms), value) {
                    Some(i) => core_run(
                        w,
                        p,
                        n,
                        crate::meaning::worlds::with_fields(
                            vars,
                            arms[i].binders,
                            value,
                            arms[i].binders.len(),
                        ),
                        seen,
                        place,
                        arms[i].body,
                    ),
                    None => match default {
                        Some(default) => core_run(w, p, n, vars, seen, place, default),
                        None => Some(Outcome { value: Value::Wrong, seen }),
                    },
                }
            },
            (_, StmtModel::Perform { result, effect, operation, args, next }) => {
                let more = seen.push(
                    Event::Perform {
                        effect,
                        operation,
                        args: crate::meaning::core_values::core_all(m, p, vars, args),
                    },
                );
                core_run(
                    w,
                    p,
                    n,
                    crate::meaning::worlds::bind_option(vars, result, (w.answer)(more)),
                    more,
                    place,
                    next,
                )
            },
            // Nothing waits to be resumed.
            (_, StmtModel::Resume { next, .. }) => core_run(w, p, n, vars, seen, place, next),
            (Place::Alone, StmtModel::Handle { handler, body, next }) => {
                let effect = if p.has_handler(handler) {
                    p.handler(handler).effect
                } else {
                    crate::common::ids::EffectLabelId::invalid()
                };
                if p.has_handler(handler) && next is None {
                    core_run(w, p, n, vars, seen, Place::Under(handler, None), body)
                } else {
                    match core_run(w, p, n, vars, seen.push(Event::Enter(effect)), place, body) {
                        Some(o) => {
                            let left = o.seen.push(Event::Leave(effect));
                            match next {
                                Some(next) => core_run(w, p, n, vars, left, place, next),
                                None => Some(Outcome { value: o.value, seen: left }),
                            }
                        },
                        None => None,
                    }
                }
            },
            (_, StmtModel::Stage { stage, body, next }) => match core_run(
                w,
                p,
                n,
                vars,
                seen.push(Event::Stage(stage)),
                place,
                body,
            ) {
                Some(o) => match next {
                    Some(next) => core_run(w, p, n, vars, o.seen, place, next),
                    None => Some(o),
                },
                None => None,
            },
            (_, StmtModel::Hole { .. }) => Some(Outcome { value: Value::Wrong, seen }),
            (_, StmtModel::Error(_)) => Some(Outcome { value: Value::Wrong, seen }),
        }
    }
}

} // verus!
