//! Arithmetic as a machine with words of so many bits does it, and folding.
use crate::common::ids::SymbolId;
use crate::ir::core_ir::{BinaryOp, LiteralModel, UnaryOp};
use crate::meaning::values::{Arithmetic, Value};
use crate::passes::ct_propagate::Machine;
use vstd::prelude::*;

verus! {

/// A number that a word of so many bits holds.
pub open spec fn in_word(bits: nat, n: int) -> bool {
    -vstd::arithmetic::power2::pow2((bits - 1) as nat) <= n < vstd::arithmetic::power2::pow2(
        (bits - 1) as nat,
    )
}

/// A number that a word holds, and that differs from another by a multiple of
/// the number of words.
pub open spec fn stands_for(bits: nat, held: int, n: int) -> bool {
    in_word(bits, held) && (held - n) % (vstd::arithmetic::power2::pow2(bits) as int) == 0
}

/// Where a floating-point number stands among all of them. Both zeros stand in
/// one place.
pub open spec fn float_place(bits: u64) -> int {
    if bits < 0x8000_0000_0000_0000 {
        bits as int
    } else {
        0x8000_0000_0000_0000 - bits
    }
}

/// Other bits, in the opposite place.
pub open spec fn is_opposite(a: u64, b: u64) -> bool {
    a != b && float_place(a) == -float_place(b)
}

pub open spec fn machine_float(
    host: spec_fn(BinaryOp, u64, u64) -> u64,
    sign: char,
    a: u64,
    b: u64,
) -> Value {
    if sign == '+' {
        Value::Float(host(BinaryOp::Add, a, b))
    } else if sign == '-' {
        Value::Float(host(BinaryOp::Sub, a, b))
    } else if sign == '*' {
        Value::Float(host(BinaryOp::Mul, a, b))
    } else if sign == '/' {
        Value::Float(host(BinaryOp::Div, a, b))
    } else if sign == '%' {
        Value::Float(host(BinaryOp::Mod, a, b))
    } else if sign == '~' {
        Value::Float(choose|x: u64| is_opposite(x, b))
    } else if sign == '<' {
        Value::Bool(float_place(a) < float_place(b))
    } else if sign == 'l' {
        Value::Bool(float_place(a) <= float_place(b))
    } else if sign == '>' {
        Value::Bool(float_place(a) > float_place(b))
    } else if sign == 'g' {
        Value::Bool(float_place(a) >= float_place(b))
    } else if sign == '=' {
        Value::Bool(float_place(a) == float_place(b))
    } else if sign == '!' {
        Value::Bool(float_place(a) != float_place(b))
    } else {
        Value::Wrong
    }
}

/// The arithmetic of a machine. It looks no function up: calls are run.
pub open spec fn arithmetic_of(machine: Machine) -> Arithmetic {
    Arithmetic {
        word: |n: int| choose|held: int| stands_for(machine.bits, held, n),
        float: |sign: char, a: u64, b: u64| machine_float(machine.host, sign, a, b),
        apply: |callee: SymbolId, args: Seq<Value>| Value::Wrong,
    }
}

/// The value that a literal of a machine is.
pub open spec fn exactly(literal: LiteralModel) -> Value {
    match literal {
        LiteralModel::Unit => Value::Unit,
        LiteralModel::Bool(b) => Value::Bool(b),
        LiteralModel::Int(n) => Value::Int(n as int),
        LiteralModel::Float(bits) => Value::Float(bits),
        LiteralModel::Char(c) => Value::Char(c),
        LiteralModel::String(text) => Value::Text(text),
    }
}

/// A literal that a machine holds.
pub open spec fn is_held(bits: nat, literal: LiteralModel) -> bool {
    literal matches LiteralModel::Int(n) ==> in_word(bits, n as int)
}

proof fn lemma_half(bits: nat)
    requires
        1 <= bits <= 64,
    ensures
        vstd::arithmetic::power2::pow2(bits) == 2 * vstd::arithmetic::power2::pow2(
            (bits - 1) as nat,
        ),
        1 <= vstd::arithmetic::power2::pow2((bits - 1) as nat) <= 0x8000_0000_0000_0000,
{
    vstd::arithmetic::power2::lemma2_to64();
    vstd::arithmetic::power2::lemma2_to64_rest();
    vstd::arithmetic::power2::lemma_pow2_unfold(bits);
    vstd::arithmetic::power2::lemma_pow2_pos((bits - 1) as nat);
    if bits < 64 {
        vstd::arithmetic::power2::lemma_pow2_strictly_increases((bits - 1) as nat, 63);
    }
}

/// Wrapping gives the one number that a word holds for another.
pub proof fn lemma_wrapped(bits: nat, n: int)
    requires
        1 <= bits <= 64,
    ensures
        stands_for(bits, crate::passes::ct_common::wrapped(n, bits), n),
        forall|held: int| #[trigger]
            stands_for(bits, held, n) ==> held == crate::passes::ct_common::wrapped(n, bits),
        i64::MIN <= crate::passes::ct_common::wrapped(n, bits) <= i64::MAX,
{
    lemma_half(bits);
    let half = vstd::arithmetic::power2::pow2((bits - 1) as nat) as int;
    let all = vstd::arithmetic::power2::pow2(bits) as int;
    let w = crate::passes::ct_common::wrapped(n, bits);
    vstd::arithmetic::div_mod::lemma_fundamental_div_mod(n + half, all);
    vstd::arithmetic::div_mod::lemma_mod_bound(n + half, all);
    assert(w - n == -((n + half) / all) * all) by (nonlinear_arith)
        requires
            w == (n + half) % all - half,
            n + half == all * ((n + half) / all) + (n + half) % all,
    ;
    vstd::arithmetic::div_mod::lemma_mod_multiples_basic(-((n + half) / all), all);
    assert forall|held: int| #[trigger] stands_for(bits, held, n) implies held == w by {
        vstd::arithmetic::div_mod::lemma_fundamental_div_mod(held - n, all);
        let q = (held - n) / all;
        let r = -((n + half) / all);
        assert(held - w == all * (q - r)) by (nonlinear_arith)
            requires
                held - n == all * q + 0,
                w - n == r * all,
        ;
        assert(q - r == 0) by (nonlinear_arith)
            requires
                held - w == all * (q - r),
                -all < held - w < all,
                all > 0,
        ;
        assert(held - w == 0) by (nonlinear_arith)
            requires
                held - w == all * (q - r),
                q - r == 0,
        ;
    }
}

/// What a machine holds for a number.
pub proof fn lemma_word(machine: Machine, n: int)
    requires
        1 <= machine.bits <= 64,
    ensures
        (arithmetic_of(machine).word)(n) == crate::passes::ct_common::wrapped(n, machine.bits),
        in_word(machine.bits, n) ==> crate::passes::ct_common::wrapped(n, machine.bits) == n,
{
    lemma_wrapped(machine.bits, n);
    let held = choose|held: int| stands_for(machine.bits, held, n);
    assert(stands_for(machine.bits, held, n));
    if in_word(machine.bits, n) {
        lemma_half(machine.bits);
        assert(0int % (vstd::arithmetic::power2::pow2(machine.bits) as int) == 0) by {
            vstd::arithmetic::div_mod::lemma_small_mod(
                0,
                vstd::arithmetic::power2::pow2(machine.bits),
            );
        }
        assert(stands_for(machine.bits, n, n));
    }
}

/// A literal as a program holds it.
pub proof fn lemma_normal(machine: Machine, literal: LiteralModel)
    requires
        1 <= machine.bits <= 64,
    ensures
        exactly(crate::passes::ct_common::normal(literal, machine.bits))
            == crate::meaning::core_values::literal_value(arithmetic_of(machine), literal),
        is_held(machine.bits, crate::passes::ct_common::normal(literal, machine.bits)),
{
    if let LiteralModel::Int(n) = literal {
        lemma_word(machine, n as int);
        lemma_wrapped(machine.bits, n as int);
    }
}

/// Division goes with what it leaves: the divisor that many times and the rest
/// make up the number, and the rest is closer to zero than the divisor and on
/// the side of the number.
pub proof fn lemma_division(a: int, b: int)
    requires
        b != 0,
    ensures
        crate::passes::ct_common::quotient(a, b) * b + crate::passes::ct_common::remainder(a, b)
            == a,
        crate::meaning::values::size(crate::passes::ct_common::remainder(a, b))
            < crate::meaning::values::size(b),
        crate::passes::ct_common::remainder(a, b) > 0 ==> a > 0,
        crate::passes::ct_common::remainder(a, b) < 0 ==> a < 0,
{
    let x = crate::passes::ct_common::magnitude(a);
    let y = crate::passes::ct_common::magnitude(b);
    vstd::arithmetic::div_mod::lemma_fundamental_div_mod(x, y);
    vstd::arithmetic::div_mod::lemma_mod_bound(x, y);
    let q = x / y;
    let r = x % y;
    assert(y * q == q * y) by (nonlinear_arith);
    assert(q * (-y) == -(q * y)) by (nonlinear_arith);
    assert((-q) * y == -(q * y)) by (nonlinear_arith);
    assert((-q) * (-y) == q * y) by (nonlinear_arith);
}

/// What is folded of one operand is what the operator means.
pub proof fn lemma_fold_unary(machine: Machine, op: UnaryOp, a: LiteralModel)
    requires
        1 <= machine.bits <= 64,
        is_held(machine.bits, a),
    ensures
        crate::passes::ct_common::fold_unary(machine.bits, op, a) matches Some(v) ==> exactly(v)
            == crate::meaning::core_values::core_unary(arithmetic_of(machine), op, exactly(a))
            && is_held(machine.bits, v),
{
    let m = arithmetic_of(machine);
    match (op, a) {
        (UnaryOp::Neg, LiteralModel::Int(n)) => {
            lemma_word(machine, -n);
            lemma_wrapped(machine.bits, -n);
        },
        (UnaryOp::Neg, LiteralModel::Float(bits)) => {
            let x = crate::passes::ct_common::float_negated(bits);
            assert(is_opposite(x, bits));
            let y = choose|y: u64| is_opposite(y, bits);
            assert(is_opposite(y, bits));
            assert(x == y);
            assert((m.float)('~', 0, bits) == Value::Float(y));
        },
        _ => {},
    }
}

/// What is folded of two operands is what the operator means.
#[verifier::spinoff_prover]
pub proof fn lemma_fold_binary(machine: Machine, op: BinaryOp, a: LiteralModel, b: LiteralModel)
    requires
        1 <= machine.bits <= 64,
        is_held(machine.bits, a),
        is_held(machine.bits, b),
    ensures
        crate::passes::ct_common::fold_binary(machine.bits, machine.host, op, a, b) matches Some(v)
            ==> exactly(v) == crate::meaning::core_values::core_binary(
            arithmetic_of(machine),
            op,
            exactly(a),
            exactly(b),
        ) && is_held(machine.bits, v),
{
    let m = arithmetic_of(machine);
    let bits = machine.bits;
    match (a, b) {
        (LiteralModel::Int(x), LiteralModel::Int(y)) => {
            let x = x as int;
            let y = y as int;
            lemma_word(machine, x);
            lemma_word(machine, y);
            lemma_word(machine, x + y);
            lemma_word(machine, x - y);
            lemma_word(machine, x * y);
            lemma_wrapped(bits, x + y);
            lemma_wrapped(bits, x - y);
            lemma_wrapped(bits, x * y);
            if y != 0 {
                lemma_division(x, y);
                assert(crate::meaning::values::times(x, y)
                    == crate::passes::ct_common::quotient(x, y));
                lemma_word(machine, crate::meaning::values::times(x, y));
                lemma_word(machine, crate::meaning::values::rest(x, y));
                lemma_wrapped(bits, crate::meaning::values::times(x, y));
                lemma_wrapped(bits, crate::meaning::values::rest(x, y));
            }
        },
        (LiteralModel::Float(x), LiteralModel::Float(y)) => {
            assert(float_place(x) == crate::passes::ct_common::float_key(x));
            assert(float_place(y) == crate::passes::ct_common::float_key(y));
        },
        _ => {},
    }
}

/// Folding gives a result for two integers wherever the operator means
/// something for them.
pub proof fn lemma_fold_integers(machine: Machine, op: BinaryOp, a: i64, b: i64)
    requires
        1 <= machine.bits <= 64,
        in_word(machine.bits, a as int),
        in_word(machine.bits, b as int),
    ensures
        crate::passes::ct_common::fold_binary(
            machine.bits,
            machine.host,
            op,
            LiteralModel::Int(a),
            LiteralModel::Int(b),
        ) is Some <==> !(crate::meaning::core_values::core_binary(
            arithmetic_of(machine),
            op,
            Value::Int(a as int),
            Value::Int(b as int),
        ) is Wrong),
{
    lemma_word(machine, a as int);
    lemma_word(machine, b as int);
}

} // verus!
