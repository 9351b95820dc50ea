//! What linear code does.
use crate::common::ids::{LinearExprId, LinearStmtId, SymbolId};
use crate::ir::linear::{LinearExprModel, LinearMatchArmModel, LinearModel, LinearStmtModel};
use crate::meaning::values::{Arithmetic, Value};
use crate::meaning::worlds::{Event, Outcome, World};
use vstd::prelude::*;

verus! {

/// The parts of a linear expression, in order.
pub open spec fn linear_parts(e: LinearExprModel) -> Seq<LinearExprId> {
    match e {
        LinearExprModel::PureCall { args, .. } => args,
        LinearExprModel::MakeStruct { fields, .. } => fields,
        LinearExprModel::MakeEnum { fields, .. } => fields,
        _ => Seq::empty(),
    }
}

/// The value of a linear expression.
pub open spec fn linear_value(
    m: Arithmetic,
    lin: LinearModel,
    vars: Map<usize, Value>,
    d: LinearExprId,
) -> Value
    decreases d.0, 1nat, 0nat,
    when lin.bottom_up()
{
    if !lin.has_expr(d) {
        Value::Wrong
    } else {
        match lin.expr(d) {
            LinearExprModel::Var(var) => crate::meaning::core_values::value_of(vars, var),
            LinearExprModel::Literal(literal) => crate::meaning::core_values::literal_value(
                m,
                literal,
            ),
            LinearExprModel::Unary { op, expr } => {
                proof {
                    assert(lin.expr(d).has_part(expr));
                }
                crate::meaning::core_values::core_unary(m, op, linear_value(m, lin, vars, expr))
            },
            LinearExprModel::Binary { op, lhs, rhs } => {
                proof {
                    assert(lin.expr(d).has_part(lhs));
                    assert(lin.expr(d).has_part(rhs));
                }
                crate::meaning::core_values::core_binary(
                    m,
                    op,
                    linear_value(m, lin, vars, lhs),
                    linear_value(m, lin, vars, rhs),
                )
            },
            LinearExprModel::PureCall { callee, args } => m.applied(
                callee,
                linear_values(m, lin, vars, d, args.len()),
            ),
            LinearExprModel::MakeStruct { ty, fields } => Value::Made {
                ty,
                variant: None,
                fields: linear_values(m, lin, vars, d, fields.len()),
            },
            LinearExprModel::MakeEnum { ty, variant, fields } => Value::Made {
                ty,
                variant: Some(variant),
                fields: linear_values(m, lin, vars, d, fields.len()),
            },
            LinearExprModel::Error => Value::Wrong,
        }
    }
}

pub proof fn lemma_linear_part(e: LinearExprModel, i: int)
    requires
        0 <= i < linear_parts(e).len(),
    ensures
        e.has_part(linear_parts(e)[i]),
{
    assert(linear_parts(e).contains(linear_parts(e)[i]));
}

/// The values of the first arguments or fields of a linear expression.
pub open spec fn linear_values(
    m: Arithmetic,
    lin: LinearModel,
    vars: Map<usize, Value>,
    d: LinearExprId,
    first: nat,
) -> Seq<Value>
    decreases d.0, 0nat, first,
    when lin.bottom_up()
{
    let parts = linear_parts(lin.expr(d));
    if first == 0 || first > parts.len() || !lin.has_expr(d) {
        Seq::empty()
    } else {
        proof {
            lemma_linear_part(lin.expr(d), first - 1);
            assert(lin.expr(d).has_part(parts[first - 1]));
        }
        linear_values(m, lin, vars, d, (first - 1) as nat).push(
            linear_value(m, lin, vars, parts[first - 1]),
        )
    }
}

pub open spec fn linear_all(
    m: Arithmetic,
    lin: LinearModel,
    vars: Map<usize, Value>,
    ds: Seq<LinearExprId>,
) -> Seq<Value> {
    ds.map_values(|d: LinearExprId| linear_value(m, lin, vars, d))
}

pub open spec fn linear_tags(arms: Seq<LinearMatchArmModel>) -> Seq<SymbolId> {
    arms.map_values(|arm: LinearMatchArmModel| arm.tag)
}

pub proof fn lemma_linear_arm(s: LinearStmtModel, i: int)
    requires
        s is Match,
        0 <= i < s->Match_arms.len(),
    ensures
        s.has_part(s->Match_arms[i].body),
{
    let arms = s->Match_arms;
    assert(arms[i].body == arms[i].body);
}

/// What a linear statement comes to.
pub open spec fn linear_run(
    w: World,
    lin: LinearModel,
    vars: Map<usize, Value>,
    seen: Seq<Event>,
    d: LinearStmtId,
) -> Outcome
    decreases d.0,
    when lin.bottom_up()
{
    let m = w.arithmetic;
    if !lin.has_stmt(d) {
        Outcome { value: Value::Wrong, seen }
    } else {
        proof {
            assert(forall|part: LinearStmtId| #[trigger]
                lin.stmt(d).has_part(part) ==> part.0 < d.0);
        }
        match lin.stmt(d) {
            LinearStmtModel::Return(e) => Outcome { value: linear_value(m, lin, vars, e), seen },
            LinearStmtModel::Let { binding, value, next } => {
                proof {
                    assert(lin.stmt(d).has_part(next));
                }
                linear_run(
                    w,
                    lin,
                    vars.insert(binding.0, linear_value(m, lin, vars, value)),
                    seen,
                    next,
                )
            },
            LinearStmtModel::Val { binding, value, next } => {
                proof {
                    assert(lin.stmt(d).has_part(value));
                    assert(lin.stmt(d).has_part(next));
                }
                let inner = linear_run(w, lin, vars, seen, value);
                linear_run(w, lin, vars.insert(binding.0, inner.value), inner.seen, next)
            },
            LinearStmtModel::Call { result, callee, args, next, .. } => {
                proof {
                    assert(lin.stmt(d).has_part(next));
                }
                let more = seen.push(
                    Event::Call { callee, args: linear_all(m, lin, vars, args) },
                );
                linear_run(w, lin, vars.insert(result.0, (w.answer)(more)), more, next)
            },
            LinearStmtModel::If { cond, then_branch, else_branch } => {
                proof {
                    assert(lin.stmt(d).has_part(then_branch));
                    assert(lin.stmt(d).has_part(else_branch));
                }
                match linear_value(m, lin, vars, cond) {
                    Value::Bool(taken) => if taken {
                        linear_run(w, lin, vars, seen, then_branch)
                    } else {
                        linear_run(w, lin, vars, seen, else_branch)
                    },
                    _ => Outcome { value: Value::Wrong, seen },
                }
            },
            LinearStmtModel::Match { scrutinee, arms, default } => {
                let value = linear_value(m, lin, vars, scrutinee);
                match crate::meaning::worlds::arm_of(linear_tags(arms), value) {
                    Some(i) => {
                        proof {
                            crate::meaning::worlds::lemma_arm_of(linear_tags(arms), value);
                            lemma_linear_arm(lin.stmt(d), i);
                            assert(lin.stmt(d).has_part(arms[i].body));
                        }
                        linear_run(
                            w,
                            lin,
                            crate::meaning::worlds::with_fields(
                                vars,
                                arms[i].binders,
                                value,
                                arms[i].binders.len(),
                            ),
                            seen,
                            arms[i].body,
                        )
                    },
                    None => match default {
                        Some(default) => {
                            proof {
                                assert(lin.stmt(d).has_part(default));
                            }
                            linear_run(w, lin, vars, seen, default)
                        },
                        None => Outcome { value: Value::Wrong, seen },
                    },
                }
            },
            LinearStmtModel::Perform { result, effect, operation, args, next } => {
                proof {
                    assert(lin.stmt(d).has_part(next));
                }
                let more = seen.push(
                    Event::Perform { effect, operation, args: linear_all(m, lin, vars, args) },
                );
                linear_run(
                    w,
                    lin,
                    crate::meaning::worlds::bind_option(vars, result, (w.answer)(more)),
                    more,
                    next,
                )
            },
            LinearStmtModel::Handle { effect, body, next } => {
                proof {
                    assert(lin.stmt(d).has_part(body));
                }
                let inner = linear_run(w, lin, vars, seen.push(Event::Enter(effect)), body);
                let left = inner.seen.push(Event::Leave(effect));
                match next {
                    Some(next) => {
                        proof {
                            assert(lin.stmt(d).has_part(next));
                        }
                        linear_run(w, lin, vars, left, next)
                    },
                    None => Outcome { value: inner.value, seen: left },
                }
            },
            LinearStmtModel::Stage { stage, body, next } => {
                proof {
                    assert(lin.stmt(d).has_part(body));
                }
                let inner = linear_run(w, lin, vars, seen.push(Event::Stage(stage)), body);
                match next {
                    Some(next) => {
                        proof {
                            assert(lin.stmt(d).has_part(next));
                        }
                        linear_run(w, lin, vars, inner.seen, next)
                    },
                    None => inner,
                }
            },
            LinearStmtModel::Hole | LinearStmtModel::Error => Outcome {
                value: Value::Wrong,
                seen,
            },
        }
    }
}

} // verus!
