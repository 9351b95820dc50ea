//! What pure code comes to when it is run.
use crate::common::ids::{ExprId, FuncId, StmtId, VarId};
use crate::ir::core_ir::{CoreModel, ExprModel, StmtModel};
use crate::meaning::values::{Arithmetic, Value};
use vstd::prelude::*;

verus! {

/// The last place at which a variable stands in a list.
pub open spec fn is_last(params: Seq<VarId>, var: usize, i: int) -> bool {
    &&& 0 <= i < params.len()
    &&& params[i].0 == var
    &&& forall|j: int| i < j < params.len() ==> (#[trigger] params[j]).0 != var
}

/// Each parameter stands for the argument in its place. (Where two parameters
/// are one variable, the last counts.)
pub open spec fn called_with(params: Seq<VarId>, args: Seq<Value>) -> Map<usize, Value> {
    Map::new(
        |var: usize| exists|i: int| is_last(params, var, i),
        |var: usize| args[choose|i: int| is_last(params, var, i)],
    )
}

/// The value of an expression; calls may be nested to some depth.
pub open spec fn run_expr(
    m: Arithmetic,
    p: CoreModel,
    depth: nat,
    vars: Map<usize, Value>,
    e: ExprId,
) -> Option<Value>
    decreases depth, 1nat, p.expr_rank(e), 1nat, 0nat,
    when p.acyclic()
{
    proof {
        crate::passes::linearize::analysis::lemma_expr_ranks(p, e);
    }
    if !p.has_expr(e) {
        None
    } else {
        match p.expr(e) {
            ExprModel::Var(var) => if vars.contains_key(var.0) {
                Some(vars[var.0])
            } else {
                None
            },
            ExprModel::Literal(literal) => Some(
                crate::meaning::core_values::literal_value(m, literal),
            ),
            ExprModel::Unary { op, expr } => match run_expr(m, p, depth, vars, expr) {
                Some(a) => Some(crate::meaning::core_values::core_unary(m, op, a)),
                None => None,
            },
            ExprModel::Binary { op, lhs, rhs } => match (
                run_expr(m, p, depth, vars, lhs),
                run_expr(m, p, depth, vars, rhs),
            ) {
                (Some(a), Some(b)) => Some(crate::meaning::core_values::core_binary(m, op, a, b)),
                _ => None,
            },
            ExprModel::PureCall { callee, args } => match run_parts(
                m,
                p,
                depth,
                vars,
                e,
                args.len(),
            ) {
                Some(args) => if depth > 0 {
                    run_call(m, p, (depth - 1) as nat, callee, args)
                } else {
                    None
                },
                None => None,
            },
            _ => None,
        }
    }
}

/// The values of the first parts of an expression.
pub open spec fn run_parts(
    m: Arithmetic,
    p: CoreModel,
    depth: nat,
    vars: Map<usize, Value>,
    e: ExprId,
    first: nat,
) -> Option<Seq<Value>>
    decreases depth, 1nat, p.expr_rank(e), 0nat, first,
    when p.acyclic()
{
    let parts = p.expr(e).parts();
    if first == 0 || first > parts.len() || !p.has_expr(e) {
        Some(Seq::empty())
    } else {
        proof {
            crate::passes::linearize::analysis::lemma_expr_ranks(p, e);
            crate::meaning::core_values::lemma_parts(p.expr(e), first - 1);
        }
        match (
            run_parts(m, p, depth, vars, e, (first - 1) as nat),
            run_expr(m, p, depth, vars, parts[first - 1]),
        ) {
            (Some(values), Some(value)) => Some(values.push(value)),
            _ => None,
        }
    }
}

/// What a function returns.
pub open spec fn run_call(
    m: Arithmetic,
    p: CoreModel,
    depth: nat,
    f: FuncId,
    args: Seq<Value>,
) -> Option<Value>
    decreases depth, 3nat, 0nat, 0nat, 0nat,
    when p.acyclic()
{
    if p.has_function(f) && p.function(f).params.len() == args.len() {
        match run_stmt(
            m,
            p,
            depth,
            called_with(p.function(f).params, args),
            p.function(f).body,
        ) {
            Some((value, _)) => Some(value),
            None => None,
        }
    } else {
        None
    }
}

/// What a statement returns, and what variables stand for after it.
pub open spec fn run_stmt(
    m: Arithmetic,
    p: CoreModel,
    depth: nat,
    vars: Map<usize, Value>,
    s: StmtId,
) -> Option<(Value, Map<usize, Value>)>
    decreases depth, 2nat, p.stmt_rank(s), 0nat, 0nat,
    when p.acyclic()
{
    proof {
        crate::passes::linearize::analysis::lemma_stmt_ranks(p, s);
    }
    if !p.has_stmt(s) {
        None
    } else {
        match p.stmt(s) {
            StmtModel::Return(e) => match run_expr(m, p, depth, vars, e) {
                Some(value) => Some((value, vars)),
                None => None,
            },
            StmtModel::Let { binding, value, next } => match run_expr(m, p, depth, vars, value) {
                Some(value) => run_stmt(m, p, depth, vars.insert(binding.0, value), next),
                None => None,
            },
            StmtModel::Val { binding, value, next } => match run_stmt(m, p, depth, vars, value) {
                Some((value, after)) => run_stmt(
                    m,
                    p,
                    depth,
                    after.insert(binding.0, value),
                    next,
                ),
                None => None,
            },
            StmtModel::If { cond, then_branch, else_branch } => {
                let taken = run_expr(m, p, depth, vars, cond);
                let branch = if taken == Some(Value::Bool(true)) {
                    run_stmt(m, p, depth, vars, then_branch)
                } else if taken == Some(Value::Bool(false)) {
                    run_stmt(m, p, depth, vars, else_branch)
                } else {
                    None
                };
                match branch {
                    Some((value, _)) => Some((value, vars)),
                    None => None,
                }
            },
            StmtModel::Stage { body, next, .. } => match run_stmt(m, p, depth, vars, body) {
                Some((value, _)) => match next {
                    Some(next) => run_stmt(m, p, depth, vars, next),
                    None => Some((value, vars)),
                },
                None => None,
            },
            _ => None,
        }
    }
}

// ---------------------------------------------------------------------------
// More room changes nothing
// ---------------------------------------------------------------------------

pub proof fn lemma_deeper_expr(
    m: Arithmetic,
    p: CoreModel,
    depth: nat,
    more: nat,
    vars: Map<usize, Value>,
    e: ExprId,
)
    requires
        p.acyclic(),
        depth <= more,
        run_expr(m, p, depth, vars, e) is Some,
    ensures
        run_expr(m, p, more, vars, e) == run_expr(m, p, depth, vars, e),
    decreases depth, 1nat, p.expr_rank(e), 1nat, 0nat,
{
    crate::passes::linearize::analysis::lemma_expr_ranks(p, e);
    match p.expr(e) {
        ExprModel::Unary { op, expr } => lemma_deeper_expr(m, p, depth, more, vars, expr),
        ExprModel::Binary { op, lhs, rhs } => {
            lemma_deeper_expr(m, p, depth, more, vars, lhs);
            lemma_deeper_expr(m, p, depth, more, vars, rhs);
        },
        ExprModel::PureCall { callee, args } => {
            lemma_deeper_parts(m, p, depth, more, vars, e, args.len());
            let values = run_parts(m, p, depth, vars, e, args.len())->0;
            lemma_deeper_call(m, p, (depth - 1) as nat, (more - 1) as nat, callee, values);
        },
        _ => {},
    }
}

pub proof fn lemma_deeper_parts(
    m: Arithmetic,
    p: CoreModel,
    depth: nat,
    more: nat,
    vars: Map<usize, Value>,
    e: ExprId,
    first: nat,
)
    requires
        p.acyclic(),
        depth <= more,
        run_parts(m, p, depth, vars, e, first) is Some,
    ensures
        run_parts(m, p, more, vars, e, first) == run_parts(m, p, depth, vars, e, first),
    decreases depth, 1nat, p.expr_rank(e), 0nat, first,
{
    let parts = p.expr(e).parts();
    if first == 0 || first > parts.len() || !p.has_expr(e) {
    } else {
        crate::passes::linearize::analysis::lemma_expr_ranks(p, e);
        crate::meaning::core_values::lemma_parts(p.expr(e), first - 1);
        lemma_deeper_parts(m, p, depth, more, vars, e, (first - 1) as nat);
        lemma_deeper_expr(m, p, depth, more, vars, parts[first - 1]);
    }
}

pub proof fn lemma_deeper_call(
    m: Arithmetic,
    p: CoreModel,
    depth: nat,
    more: nat,
    f: FuncId,
    args: Seq<Value>,
)
    requires
        p.acyclic(),
        depth <= more,
        run_call(m, p, depth, f, args) is Some,
    ensures
        run_call(m, p, more, f, args) == run_call(m, p, depth, f, args),
    decreases depth, 3nat, 0nat, 0nat, 0nat,
{
    lemma_deeper_stmt(
        m,
        p,
        depth,
        more,
        called_with(p.function(f).params, args),
        p.function(f).body,
    );
}

pub proof fn lemma_deeper_stmt(
    m: Arithmetic,
    p: CoreModel,
    depth: nat,
    more: nat,
    vars: Map<usize, Value>,
    s: StmtId,
)
    requires
        p.acyclic(),
        depth <= more,
        run_stmt(m, p, depth, vars, s) is Some,
    ensures
        run_stmt(m, p, more, vars, s) == run_stmt(m, p, depth, vars, s),
    decreases depth, 2nat, p.stmt_rank(s), 0nat, 0nat,
{
    crate::passes::linearize::analysis::lemma_stmt_ranks(p, s);
    match p.stmt(s) {
        StmtModel::Return(e) => lemma_deeper_expr(m, p, depth, more, vars, e),
        StmtModel::Let { binding, value, next } => {
            lemma_deeper_expr(m, p, depth, more, vars, value);
            let v = run_expr(m, p, depth, vars, value)->0;
            lemma_deeper_stmt(m, p, depth, more, vars.insert(binding.0, v), next);
        },
        StmtModel::Val { binding, value, next } => {
            lemma_deeper_stmt(m, p, depth, more, vars, value);
            let (v, after) = run_stmt(m, p, depth, vars, value)->0;
            lemma_deeper_stmt(m, p, depth, more, after.insert(binding.0, v), next);
        },
        StmtModel::If { cond, then_branch, else_branch } => {
            lemma_deeper_expr(m, p, depth, more, vars, cond);
            if run_expr(m, p, depth, vars, cond) == Some(Value::Bool(true)) {
                lemma_deeper_stmt(m, p, depth, more, vars, then_branch);
            } else {
                lemma_deeper_stmt(m, p, depth, more, vars, else_branch);
            }
        },
        StmtModel::Stage { body, next, .. } => {
            lemma_deeper_stmt(m, p, depth, more, vars, body);
            if let Some(next) = next {
                lemma_deeper_stmt(m, p, depth, more, vars, next);
            }
        },
        _ => {},
    }
}

} // verus!
