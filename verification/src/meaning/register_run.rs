//! What linear code does on a machine that keeps one register for each variable.
use crate::common::ids::LinearStmtId;
use crate::ir::linear::{LinearModel, LinearStmtModel};
use crate::meaning::values::Value;
use crate::meaning::worlds::{Event, World};
use vstd::prelude::*;

verus! {

/// What code comes to, and the registers that it leaves.
#[verifier::ext_equal]
pub struct Rest {
    pub value: Value,
    pub seen: Seq<Event>,
    pub vars: Map<usize, Value>,
}

/// What a linear statement comes to. It does not go on where a condition is no
/// truth value. What is missing or wrong is seen, and its value is the unit
/// value; so is that of a match that no arm is for.
pub open spec fn register_run(
    w: World,
    lin: LinearModel,
    vars: Map<usize, Value>,
    seen: Seq<Event>,
    d: LinearStmtId,
) -> Option<Rest>
    decreases d.0,
    when lin.bottom_up()
{
    let m = w.arithmetic;
    if !lin.has_stmt(d) {
        Some(Rest { value: Value::Unit, seen: seen.push(Event::Error), vars })
    } else {
        proof {
            assert(forall|part: LinearStmtId| #[trigger]
                lin.stmt(d).has_part(part) ==> part.0 < d.0);
        }
        match lin.stmt(d) {
            LinearStmtModel::Return(e) => Some(
                Rest {
                    value: crate::meaning::linear_run::linear_value(m, lin, vars, e),
                    seen,
                    vars,
                },
            ),
            LinearStmtModel::Let { binding, value, next } => {
                proof {
                    assert(lin.stmt(d).has_part(next));
                }
                let v = crate::meaning::linear_run::linear_value(m, lin, vars, value);
                register_run(w, lin, vars.insert(binding.0, v), seen, next)
            },
            LinearStmtModel::Val { binding, value, next } => {
                proof {
                    assert(lin.stmt(d).has_part(value));
                    assert(lin.stmt(d).has_part(next));
                }
                match register_run(w, lin, vars, seen, value) {
                    Some(r) => register_run(
                        w,
                        lin,
                        r.vars.insert(binding.0, r.value),
                        r.seen,
                        next,
                    ),
                    None => None,
                }
            },
            LinearStmtModel::Call { result, callee, args, next, .. } => {
                proof {
                    assert(lin.stmt(d).has_part(next));
                }
                let more = seen.push(
                    Event::Call {
                        callee,
                        args: crate::meaning::linear_run::linear_all(m, lin, vars, args),
                    },
                );
                register_run(w, lin, vars.insert(result.0, (w.answer)(more)), more, next)
            },
            LinearStmtModel::If { cond, then_branch, else_branch } => {
                proof {
                    assert(lin.stmt(d).has_part(then_branch));
                    assert(lin.stmt(d).has_part(else_branch));
                }
                match crate::meaning::linear_run::linear_value(m, lin, vars, cond) {
                    Value::Bool(taken) => if taken {
                        register_run(w, lin, vars, seen, then_branch)
                    } else {
                        register_run(w, lin, vars, seen, else_branch)
                    },
                    _ => None,
                }
            },
            LinearStmtModel::Match { scrutinee, arms, default } => {
                let value = crate::meaning::linear_run::linear_value(m, lin, vars, scrutinee);
                let tags = crate::meaning::linear_run::linear_tags(arms);
                match crate::meaning::worlds::arm_of(tags, value) {
                    Some(i) => {
                        proof {
                            crate::meaning::worlds::lemma_arm_of(tags, value);
                            crate::meaning::linear_run::lemma_linear_arm(lin.stmt(d), i);
                            assert(lin.stmt(d).has_part(arms[i].body));
                        }
                        register_run(
                            w,
                            lin,
                            crate::meaning::worlds::with_fields(
                                vars,
                                arms[i].binders,
                                value,
                                arms[i].binders.len(),
                            ),
                            seen,
                            arms[i].body,
                        )
                    },
                    None => match default {
                        Some(default) => {
                            proof {
                                assert(lin.stmt(d).has_part(default));
                            }
                            register_run(w, lin, vars, seen, default)
                        },
                        None => Some(Rest { value: Value::Unit, seen, vars }),
                    },
                }
            },
            LinearStmtModel::Perform { result, effect, operation, args, next } => {
                proof {
                    assert(lin.stmt(d).has_part(next));
                }
                let more = seen.push(
                    Event::Perform {
                        effect,
                        operation,
                        args: crate::meaning::linear_run::linear_all(m, lin, vars, args),
                    },
                );
                register_run(
                    w,
                    lin,
                    crate::meaning::worlds::bind_option(vars, result, (w.answer)(more)),
                    more,
                    next,
                )
            },
            LinearStmtModel::Handle { effect, body, next } => {
                proof {
                    assert(lin.stmt(d).has_part(body));
                }
                match register_run(w, lin, vars, seen.push(Event::Enter(effect)), body) {
                    Some(r) => {
                        let left = r.seen.push(Event::Leave(effect));
                        match next {
                            Some(next) => {
                                proof {
                                    assert(lin.stmt(d).has_part(next));
                                }
                                register_run(w, lin, r.vars, left, next)
                            },
                            None => Some(Rest { value: r.value, seen: left, vars: r.vars }),
                        }
                    },
                    None => None,
                }
            },
            LinearStmtModel::Stage { stage, body, next } => {
                proof {
                    assert(lin.stmt(d).has_part(body));
                }
                match register_run(w, lin, vars, seen.push(Event::Stage(stage)), body) {
                    Some(r) => match next {
                        Some(next) => {
                            proof {
                                assert(lin.stmt(d).has_part(next));
                            }
                            register_run(w, lin, r.vars, r.seen, next)
                        },
                        None => Some(r),
                    },
                    None => None,
                }
            },
            LinearStmtModel::Hole => Some(
                Rest { value: Value::Unit, seen: seen.push(Event::Hole), vars },
            ),
            LinearStmtModel::Error => Some(
                Rest { value: Value::Unit, seen: seen.push(Event::Error), vars },
            ),
        }
    }
}

} // verus!
