//! What the expressions of the source mean.
use crate::common::ids::FuncId;
use crate::frontend::ast;
use crate::meaning::values::{Arithmetic, Value};
use crate::passes::lowering::LowerEnv;
use vstd::prelude::*;

verus! {

/// What an operator of the source does to one value.
pub open spec fn source_unary(m: Arithmetic, op: ast::UnaryOp, a: Value) -> Value {
    match (op, a) {
        (ast::UnaryOp::Neg, Value::Int(a)) => m.held(0 - a),
        (ast::UnaryOp::Neg, Value::Float(a)) => m.floats('~', 0, a),
        (ast::UnaryOp::Not, Value::Bool(a)) => Value::Bool(!a),
        _ => Value::Wrong,
    }
}

/// What an operator of the source does to two integers.
pub open spec fn source_integers(m: Arithmetic, op: ast::BinOp, a: int, b: int) -> Value {
    match op {
        ast::BinOp::Add => m.held(a + b),
        ast::BinOp::Sub => m.held(a - b),
        ast::BinOp::Mul => m.held(a * b),
        ast::BinOp::Div => if b == 0 {
            Value::Wrong
        } else {
            m.held(crate::meaning::values::times(a, b))
        },
        ast::BinOp::Mod => if b == 0 {
            Value::Wrong
        } else {
            m.held(crate::meaning::values::rest(a, b))
        },
        _ => source_order(op, a, b),
    }
}

/// How an operator of the source compares two places in an order.
pub open spec fn source_order(op: ast::BinOp, a: int, b: int) -> Value {
    match op {
        ast::BinOp::Eq => Value::Bool(a == b),
        ast::BinOp::Ne => Value::Bool(a != b),
        ast::BinOp::Lt => Value::Bool(a < b),
        ast::BinOp::Le => Value::Bool(a <= b),
        ast::BinOp::Gt => Value::Bool(a > b),
        ast::BinOp::Ge => Value::Bool(a >= b),
        _ => Value::Wrong,
    }
}

/// How an operator of the source is written between floating-point numbers.
pub open spec fn source_sign(op: ast::BinOp) -> Option<char> {
    match op {
        ast::BinOp::Add => Some('+'),
        ast::BinOp::Sub => Some('-'),
        ast::BinOp::Mul => Some('*'),
        ast::BinOp::Div => Some('/'),
        ast::BinOp::Mod => Some('%'),
        ast::BinOp::Lt => Some('<'),
        ast::BinOp::Le => Some('l'),
        ast::BinOp::Gt => Some('>'),
        ast::BinOp::Ge => Some('g'),
        ast::BinOp::Eq => Some('='),
        ast::BinOp::Ne => Some('!'),
        _ => None,
    }
}

/// What an operator of the source does to two values.
pub open spec fn source_binary(m: Arithmetic, op: ast::BinOp, a: Value, b: Value) -> Value {
    match (a, b) {
        (Value::Wrong, _) => Value::Wrong,
        (_, Value::Wrong) => Value::Wrong,
        (Value::Int(a), Value::Int(b)) => source_integers(m, op, a, b),
        (Value::Char(a), Value::Char(b)) => source_order(op, a as int, b as int),
        (Value::Float(a), Value::Float(b)) => match source_sign(op) {
            Some(sign) => m.floats(sign, a, b),
            None => Value::Wrong,
        },
        _ => match op {
            ast::BinOp::Eq => Value::Bool(a == b),
            ast::BinOp::Ne => Value::Bool(a != b),
            ast::BinOp::And => if a is Bool && b is Bool {
                Value::Bool(a->Bool_0 && b->Bool_0)
            } else {
                Value::Wrong
            },
            ast::BinOp::Or => if a is Bool && b is Bool {
                Value::Bool(a->Bool_0 || b->Bool_0)
            } else {
                Value::Wrong
            },
            _ => Value::Wrong,
        },
    }
}

/// The value of a pure expression, where names stand for values. A call by name
/// is one of the function of that name; where there is none, it makes a value
/// of the variant of that name, or else a struct of that name.
pub open spec fn source_value(
    m: Arithmetic,
    env: LowerEnv,
    names: Map<usize, Value>,
    e: ast::Expr,
) -> Value
    decreases e, 0nat,
{
    match e.kind {
        ast::ExprKind::Int(value) => m.held(value as int),
        ast::ExprKind::Bool(value) => Value::Bool(value),
        ast::ExprKind::String(value) => Value::Text(value@),
        ast::ExprKind::Var(name) => if names.contains_key(name.0) {
            names[name.0]
        } else {
            Value::Wrong
        },
        ast::ExprKind::Unary { op, expr } => source_unary(
            m,
            op,
            source_value(m, env, names, *expr),
        ),
        ast::ExprKind::Binary { op, lhs, rhs } => source_binary(
            m,
            op,
            source_value(m, env, names, *lhs),
            source_value(m, env, names, *rhs),
        ),
        ast::ExprKind::Call { callee, args } => match callee.kind {
            ast::ExprKind::Var(name) => if env.functions.contains_key(name.0) {
                let f = env.functions[name.0];
                if is_pure(env, f) {
                    m.applied(name, source_all(m, env, names, args@, args@.len()))
                } else {
                    Value::Wrong
                }
            } else if env.enums.contains_key(name.0) {
                Value::Made {
                    ty: env.enums[name.0].0,
                    variant: Some(name),
                    fields: source_all(m, env, names, args@, args@.len()),
                }
            } else if env.structs.contains_key(name.0) {
                Value::Made {
                    ty: name,
                    variant: None,
                    fields: source_all(m, env, names, args@, args@.len()),
                }
            } else {
                Value::Wrong
            },
            _ => Value::Wrong,
        },
        _ => Value::Wrong,
    }
}

/// Whether a function declares no effects.
pub open spec fn is_pure(env: LowerEnv, f: FuncId) -> bool {
    f.0 < env.declared.len() ==> env.declared[f.0 as int].len() == 0
}

/// The values of the first of some expressions.
pub open spec fn source_all(
    m: Arithmetic,
    env: LowerEnv,
    names: Map<usize, Value>,
    es: Seq<ast::Expr>,
    first: nat,
) -> Seq<Value>
    decreases es, first,
    when first <= es.len()
{
    if first == 0 {
        Seq::empty()
    } else {
        source_all(m, env, names, es, (first - 1) as nat).push(
            source_value(m, env, names, es[first - 1]),
        )
    }
}

} // verus!
