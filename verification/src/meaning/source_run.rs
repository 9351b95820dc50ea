//! What the code of a syntax tree does where its handlers are left to the world.
use crate::common::ids::{EffectLabelId, SymbolId};
use crate::frontend::ast;
use crate::ir::core_ir::StageDirective;
use crate::meaning::values::Value;
use crate::meaning::worlds::{Event, Outcome, World};
use crate::passes::lowering::LowerEnv;
use vstd::prelude::*;

verus! {

/// The effect of a name.
pub open spec fn effect_named(env: LowerEnv, name: SymbolId) -> EffectLabelId {
    if env.effects.contains_key(name.0) {
        env.effects[name.0]
    } else {
        EffectLabelId::invalid()
    }
}

/// The stage that a mark asks for.
pub open spec fn stage_of(stage: ast::StageMarker) -> StageDirective {
    match stage {
        ast::StageMarker::Comptime => StageDirective::Comptime,
        ast::StageMarker::Runtime => StageDirective::Runtime,
    }
}

/// The operations that clauses are for, and how many values each takes.
pub open spec fn clauses_for(clauses: Seq<ast::HandlerClause>) -> Seq<(SymbolId, nat)> {
    clauses.map_values(
        |clause: ast::HandlerClause| (clause.operation, clause.params@.len()),
    )
}

/// What a block comes to from one of its statements on.
pub open spec fn source_block(
    w: World,
    env: LowerEnv,
    names: Map<usize, Value>,
    seen: Seq<Event>,
    block: ast::BlockExpr,
    at: nat,
) -> Outcome
    decreases block, 0nat, block.statements@.len() - at,
{
    if at < block.statements@.len() {
        let stmt = block.statements@[at as int];
        let o = source_step(w, env, names, seen, stmt);
        let more = match stmt {
            ast::Stmt::Let { name, .. } => names.insert(name.0, o.value),
            _ => names,
        };
        source_block(w, env, more, o.seen, block, at + 1)
    } else {
        match block.tail {
            Some(tail) => source_does(w, env, names, seen, *tail),
            None => Outcome { value: Value::Unit, seen },
        }
    }
}

/// What a statement comes to.
pub open spec fn source_step(
    w: World,
    env: LowerEnv,
    names: Map<usize, Value>,
    seen: Seq<Event>,
    stmt: ast::Stmt,
) -> Outcome
    decreases stmt, 0nat, 0nat,
{
    match stmt {
        ast::Stmt::Let { value, .. } => source_does(w, env, names, seen, value),
        ast::Stmt::Expr { value, .. } => source_does(w, env, names, seen, value),
        ast::Stmt::Perform { effect, operation, args, .. } => Outcome {
            value: Value::Wrong,
            seen: seen.push(
                Event::Perform {
                    effect: effect_named(env, effect),
                    operation,
                    args: crate::meaning::source_values::source_all(
                        w.arithmetic,
                        env,
                        names,
                        args@,
                        args@.len(),
                    ),
                },
            ),
        },
        ast::Stmt::Error(_) => Outcome { value: Value::Wrong, seen },
    }
}

/// What an expression comes to that may perform effects.
pub open spec fn source_does(
    w: World,
    env: LowerEnv,
    names: Map<usize, Value>,
    seen: Seq<Event>,
    e: ast::Expr,
) -> Outcome
    decreases e, 1nat, 0nat,
{
    let m = w.arithmetic;
    let plain = Outcome {
        value: crate::meaning::source_values::source_value(m, env, names, e),
        seen,
    };
    match e.kind {
        ast::ExprKind::StageBlock { stage, block } => source_block(
            w,
            env,
            names,
            seen.push(Event::Stage(stage_of(stage))),
            block,
            0,
        ),
        ast::ExprKind::Handle { body, effect, clauses } => {
            let effect = effect_named(env, effect);
            let operations = clauses_for(clauses@);
            let inside = seen.push(Event::Install { effect, operations });
            let o = source_handled(w, env, names, inside, *body);
            Outcome { value: o.value, seen: o.seen.push(Event::Remove { effect, operations }) }
        },
        ast::ExprKind::Call { callee, args } => match callee.kind {
            ast::ExprKind::Var(name) => if env.functions.contains_key(name.0)
                && !crate::meaning::source_values::is_pure(env, env.functions[name.0]) {
                let more = seen.push(
                    Event::Call {
                        callee: name,
                        args: crate::meaning::source_values::source_all(
                            m,
                            env,
                            names,
                            args@,
                            args@.len(),
                        ),
                    },
                );
                Outcome { value: (w.answer)(more), seen: more }
            } else {
                plain
            },
            _ => plain,
        },
        _ => plain,
    }
}

/// What the body of a handler comes to, which may be a block.
pub open spec fn source_handled(
    w: World,
    env: LowerEnv,
    names: Map<usize, Value>,
    seen: Seq<Event>,
    e: ast::Expr,
) -> Outcome
    decreases e, 2nat, 0nat,
{
    match e.kind {
        ast::ExprKind::Block(block) => source_block(w, env, names, seen, block, 0),
        _ => source_does(w, env, names, seen, e),
    }
}

} // verus!
