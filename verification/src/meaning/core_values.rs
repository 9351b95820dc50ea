//! What the expressions of the core mean.
use crate::common::ids::{ExprId, FuncId, SymbolId, VarId};
use crate::ir::core_ir::{BinaryOp, CoreModel, ExprModel, LiteralModel, UnaryOp};
use crate::meaning::values::{Arithmetic, Value};
use vstd::prelude::*;

verus! {

/// What a variable stands for.
pub open spec fn value_of(vars: Map<usize, Value>, var: VarId) -> Value {
    if vars.contains_key(var.0) {
        vars[var.0]
    } else {
        Value::Wrong
    }
}

pub open spec fn literal_value(m: Arithmetic, literal: LiteralModel) -> Value {
    match literal {
        LiteralModel::Unit => Value::Unit,
        LiteralModel::Bool(b) => Value::Bool(b),
        LiteralModel::Int(n) => m.held(n as int),
        LiteralModel::Float(bits) => Value::Float(bits),
        LiteralModel::Char(c) => Value::Char(c),
        LiteralModel::String(text) => Value::Text(text),
    }
}

pub open spec fn negated(m: Arithmetic, a: Value) -> Value {
    match a {
        Value::Int(a) => m.held(-a),
        Value::Float(a) => m.floats('~', 0, a),
        _ => Value::Wrong,
    }
}

pub open spec fn opposite(a: Value) -> Value {
    match a {
        Value::Bool(a) => Value::Bool(!a),
        _ => Value::Wrong,
    }
}

/// What a core operator does to one value.
pub open spec fn core_unary(m: Arithmetic, op: UnaryOp, a: Value) -> Value {
    match op {
        UnaryOp::Neg => negated(m, a),
        UnaryOp::Not => opposite(a),
    }
}

/// An operation on numbers: one on integers, or one that the machine does.
pub open spec fn on_numbers(
    m: Arithmetic,
    a: Value,
    b: Value,
    integers: spec_fn(int, int) -> Value,
    sign: char,
) -> Value {
    match (a, b) {
        (Value::Int(a), Value::Int(b)) => integers(a, b),
        (Value::Float(a), Value::Float(b)) => m.floats(sign, a, b),
        _ => Value::Wrong,
    }
}

/// A comparison of numbers, or of characters by their codes.
pub open spec fn on_ordered(
    m: Arithmetic,
    a: Value,
    b: Value,
    holds: spec_fn(int, int) -> bool,
    sign: char,
) -> Value {
    match (a, b) {
        (Value::Int(a), Value::Int(b)) => Value::Bool(holds(a, b)),
        (Value::Char(a), Value::Char(b)) => Value::Bool(holds(a as int, b as int)),
        (Value::Float(a), Value::Float(b)) => m.floats(sign, a, b),
        _ => Value::Wrong,
    }
}

pub open spec fn on_truths(a: Value, b: Value, both: spec_fn(bool, bool) -> bool) -> Value {
    match (a, b) {
        (Value::Bool(a), Value::Bool(b)) => Value::Bool(both(a, b)),
        _ => Value::Wrong,
    }
}

/// Whether two values are one.
pub open spec fn on_equal(m: Arithmetic, a: Value, b: Value, wanted: bool, sign: char) -> Value {
    match (a, b) {
        (Value::Wrong, _) => Value::Wrong,
        (_, Value::Wrong) => Value::Wrong,
        (Value::Float(a), Value::Float(b)) => m.floats(sign, a, b),
        _ => Value::Bool((a == b) == wanted),
    }
}

/// What a core operator does to two values.
pub open spec fn core_binary(m: Arithmetic, op: BinaryOp, a: Value, b: Value) -> Value {
    match op {
        BinaryOp::Add => on_numbers(m, a, b, |a: int, b: int| m.held(a + b), '+'),
        BinaryOp::Sub => on_numbers(m, a, b, |a: int, b: int| m.held(a - b), '-'),
        BinaryOp::Mul => on_numbers(m, a, b, |a: int, b: int| m.held(a * b), '*'),
        BinaryOp::Div => on_numbers(
            m,
            a,
            b,
            |a: int, b: int|
                if b == 0 {
                    Value::Wrong
                } else {
                    m.held(crate::meaning::values::times(a, b))
                },
            '/',
        ),
        BinaryOp::Mod => on_numbers(
            m,
            a,
            b,
            |a: int, b: int|
                if b == 0 {
                    Value::Wrong
                } else {
                    m.held(crate::meaning::values::rest(a, b))
                },
            '%',
        ),
        BinaryOp::Lt => on_ordered(m, a, b, |a: int, b: int| a < b, '<'),
        BinaryOp::Le => on_ordered(m, a, b, |a: int, b: int| a <= b, 'l'),
        BinaryOp::Gt => on_ordered(m, a, b, |a: int, b: int| a > b, '>'),
        BinaryOp::Ge => on_ordered(m, a, b, |a: int, b: int| a >= b, 'g'),
        BinaryOp::And => on_truths(a, b, |a: bool, b: bool| a && b),
        BinaryOp::Or => on_truths(a, b, |a: bool, b: bool| a || b),
        BinaryOp::Eq => on_equal(m, a, b, true, '='),
        BinaryOp::Ne => on_equal(m, a, b, false, '!'),
    }
}

/// The name of a function.
pub open spec fn name_of(p: CoreModel, f: FuncId) -> SymbolId {
    if p.has_function(f) {
        p.function(f).name
    } else {
        SymbolId::invalid()
    }
}

/// The value of an expression, where variables stand for values.
pub open spec fn core_value(
    m: Arithmetic,
    p: CoreModel, vars: Map<usize, Value>, e: ExprId) -> Value
    decreases p.expr_rank(e), 1nat, 0nat,
    when p.acyclic()
{
    proof {
        crate::passes::linearize::analysis::lemma_expr_ranks(p, e);
    }
    if !p.has_expr(e) {
        Value::Wrong
    } else {
        match p.expr(e) {
            ExprModel::Var(var) => value_of(vars, var),
            ExprModel::Literal(literal) => literal_value(m, literal),
            ExprModel::Unary { op, expr } => core_unary(m, op, core_value(m, p, vars, expr)),
            ExprModel::Binary { op, lhs, rhs } => core_binary(
                m,
                op,
                core_value(m, p, vars, lhs),
                core_value(m, p, vars, rhs),
            ),
            ExprModel::PureCall { callee, args } => m.applied(
                name_of(p, callee),
                core_parts(m, p, vars, e, args.len()),
            ),
            ExprModel::MakeStruct { ty, fields } => Value::Made {
                ty,
                variant: None,
                fields: core_parts(m, p, vars, e, fields.len()),
            },
            ExprModel::MakeEnum { ty, variant, fields } => Value::Made {
                ty,
                variant: Some(variant),
                fields: core_parts(m, p, vars, e, fields.len()),
            },
            ExprModel::Error(_) => Value::Wrong,
        }
    }
}

/// The values of the first arguments or fields of an expression.
pub open spec fn core_parts(
    m: Arithmetic,
    p: CoreModel, vars: Map<usize, Value>, e: ExprId, first: nat) -> Seq<
    Value,
>
    decreases p.expr_rank(e), 0nat, first,
    when p.acyclic()
{
    let parts = p.expr(e).parts();
    if first == 0 || first > parts.len() || !p.has_expr(e) {
        Seq::empty()
    } else {
        proof {
            crate::passes::linearize::analysis::lemma_expr_ranks(p, e);
            assert(p.expr(e).has_part(parts[first - 1])) by {
                lemma_parts(p.expr(e), first - 1);
            }
        }
        core_parts(m, p, vars, e, (first - 1) as nat).push(core_value(m, p, vars, parts[first - 1]))
    }
}

pub proof fn lemma_parts(e: ExprModel, i: int)
    requires
        0 <= i < e.parts().len(),
    ensures
        e.has_part(e.parts()[i]),
{
    assert(e.parts().contains(e.parts()[i]));
}

/// The values of the first of some expressions.
pub open spec fn core_all(
    m: Arithmetic,
    p: CoreModel, vars: Map<usize, Value>, es: Seq<ExprId>) -> Seq<Value> {
    es.map_values(|e: ExprId| core_value(m, p, vars, e))
}

pub proof fn lemma_core_parts(
    m: Arithmetic,
    p: CoreModel, vars: Map<usize, Value>, e: ExprId, first: nat)
    requires
        p.acyclic(),
        p.has_expr(e),
        first <= p.expr(e).parts().len(),
    ensures
        core_parts(m, p, vars, e, first) == core_all(
            m,
            p,
            vars,
            p.expr(e).parts().take(first as int),
        ),
    decreases first,
{
    let parts = p.expr(e).parts();
    if first == 0 {
        assert(core_parts(m, p, vars, e, 0) =~= core_all(m, p, vars, parts.take(0)));
    } else {
        lemma_core_parts(m, p, vars, e, (first - 1) as nat);
        assert(core_parts(m, p, vars, e, first) =~= core_all(m, p, vars, parts.take(first as int)));
    }
}

} // verus!
