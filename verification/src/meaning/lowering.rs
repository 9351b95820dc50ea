//! Lowering keeps what expressions mean.
use crate::common::ids::{ExprId, SymbolId};
use crate::frontend::ast;
use crate::ir::core_ir::CoreModel;
use crate::meaning::values::{Arithmetic, Value};
use crate::passes::lowering::{Locals, LowerEnv};
use vstd::prelude::*;

verus! {

/// What names stand for, given what variables stand for.
pub open spec fn named(locals: Locals, vars: Map<usize, Value>) -> Map<usize, Value> {
    Map::new(
        |name: usize| locals.contains_key(name),
        |name: usize| crate::meaning::core_values::value_of(vars, locals[name]),
    )
}

/// A name stands for a function of that name.
pub open spec fn names_functions(env: LowerEnv, core: CoreModel) -> bool {
    forall|name: usize| #[trigger]
        env.functions.contains_key(name) ==> core.has_function(env.functions[name])
            && core.function(env.functions[name]).name == SymbolId(name)
}

/// The core expression for an expression of the source has its value, whatever
/// the variables stand for and however the machine holds numbers.
pub proof fn lemma_lowered_value(
    m: Arithmetic,
    env: LowerEnv,
    core: CoreModel,
    locals: Locals,
    e: ast::Expr,
    id: ExprId,
    vars: Map<usize, Value>,
)
    requires
        core.acyclic(),
        names_functions(env, core),
        crate::passes::lowering::expr_is(env, core, locals, e, id),
    ensures
        crate::meaning::core_values::core_value(m, core, vars, id)
            == crate::meaning::source_values::source_value(m, env, named(locals, vars), e),
    decreases e,
{
    match e.kind {
        ast::ExprKind::Unary { op, expr } => {
            lemma_lowered_value(m, env, core, locals, *expr, core.expr(id)->Unary_expr, vars);
        },
        ast::ExprKind::Binary { op, lhs, rhs } => {
            lemma_lowered_value(m, env, core, locals, *lhs, core.expr(id)->lhs, vars);
            lemma_lowered_value(m, env, core, locals, *rhs, core.expr(id)->rhs, vars);
        },
        ast::ExprKind::Call { callee, args } => {
            let kind = core.expr(id);
            if let ast::ExprKind::Var(name) = callee.kind {
                let taken = env.functions.contains_key(name.0)
                    && crate::meaning::source_values::is_pure(env, env.functions[name.0]);
                let made = !env.functions.contains_key(name.0) && (env.enums.contains_key(name.0)
                    || env.structs.contains_key(name.0));
                if taken || made {
                    lemma_lowered_values(m, env, core, locals, args@, id, args@.len(), vars);
                }
            }
        },
        _ => {},
    }
}

/// The same of the first arguments of a call.
proof fn lemma_lowered_values(
    m: Arithmetic,
    env: LowerEnv,
    core: CoreModel,
    locals: Locals,
    args: Seq<ast::Expr>,
    id: ExprId,
    first: nat,
    vars: Map<usize, Value>,
)
    requires
        core.acyclic(),
        names_functions(env, core),
        core.has_expr(id),
        core.expr(id).parts().len() == args.len(),
        first <= args.len(),
        forall|i: int| #![trigger core.expr(id).parts()[i]]
            0 <= i < args.len() ==> crate::passes::lowering::expr_is(
                env,
                core,
                locals,
                args[i],
                core.expr(id).parts()[i],
            ),
    ensures
        crate::meaning::core_values::core_parts(m, core, vars, id, first)
            == crate::meaning::source_values::source_all(m, env, named(locals, vars), args, first),
    decreases args, first,
{
    if first > 0 {
        lemma_lowered_values(m, env, core, locals, args, id, (first - 1) as nat, vars);
        let part = core.expr(id).parts()[first - 1];
        lemma_lowered_value(m, env, core, locals, args[first - 1], part, vars);
    }
}

} // verus!
