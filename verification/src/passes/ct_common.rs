//! Arithmetic at compile time, as the target would do it.
use crate::common::densemap::DenseMap;
use crate::common::ids::EffectLabelId;
use crate::common::text::{push_index, push_text};
use crate::ir::core_ir::{
    BinaryOp, CoreModel, CoreProgram, Literal, LiteralModel, StmtKind, StmtModel, UnaryOp,
};
use crate::pipeline::compiler::TargetSpec;
use crate::pipeline::reason::numbered;
use crate::pipeline::tables::{is_finite, BranchDecision};
use crate::sema::effect::SortedEffectRow;
use vstd::prelude::*;

verus! {

// ---------------------------------------------------------------------------
// Integers
// ---------------------------------------------------------------------------

/// The integer of so many bits, in two's complement, that a number wraps to.
pub open spec fn wrapped(value: int, bits: nat) -> int {
    let half = vstd::arithmetic::power2::pow2((bits - 1) as nat) as int;
    (value + half) % (vstd::arithmetic::power2::pow2(bits) as int) - half
}

/// How many bits an integer of the target has.
pub open spec fn word_bits(target: TargetSpec) -> nat {
    if target.word_size_bits < 1 {
        1
    } else if target.word_size_bits > 64 {
        64
    } else {
        target.word_size_bits as nat
    }
}

/// Division that rounds toward zero.
pub open spec fn quotient(a: int, b: int) -> int {
    let size = magnitude(a) / magnitude(b);
    if (a < 0) == (b < 0) {
        size
    } else {
        -size
    }
}

pub open spec fn magnitude(a: int) -> int {
    if a < 0 {
        -a
    } else {
        a
    }
}

/// What division that rounds toward zero leaves.
pub open spec fn remainder(a: int, b: int) -> int {
    let size = magnitude(a) % magnitude(b);
    if a < 0 {
        -size
    } else {
        size
    }
}

fn power(bits: u32) -> (n: u128)
    requires
        bits <= 64,
    ensures
        n == vstd::arithmetic::power2::pow2(bits as nat),
        1 <= n <= 0x1_0000_0000_0000_0000,
{
    proof {
        vstd::arithmetic::power2::lemma2_to64();
        vstd::arithmetic::power2::lemma2_to64_rest();
    }
    let mut n: u128 = 1;
    let mut i: u32 = 0;
    while i < bits
        invariant
            i <= bits <= 64,
            n == vstd::arithmetic::power2::pow2(i as nat),
            n <= vstd::arithmetic::power2::pow2(64),
            vstd::arithmetic::power2::pow2(64) == 0x1_0000_0000_0000_0000,
        decreases bits - i,
    {
        proof {
            vstd::arithmetic::power2::lemma_pow2_unfold((i + 1) as nat);
            if i + 1 < 64 {
                vstd::arithmetic::power2::lemma_pow2_strictly_increases((i + 1) as nat, 64);
            }
        }
        n = n * 2;
        i += 1;
    }
    proof {
        vstd::arithmetic::power2::lemma_pow2_pos(bits as nat);
    }
    n
}

/// What a negative number leaves, by what its opposite leaves.
proof fn lemma_mod_negative(x: int, m: int)
    requires
        x > 0,
        m > 0,
    ensures
        (-x) % m == (if x % m == 0 {
            0
        } else {
            m - x % m
        }),
{
    vstd::arithmetic::div_mod::lemma_fundamental_div_mod(x, m);
    let q = x / m;
    let r = x % m;
    assert(x == m * q + r);
    if r == 0 {
        assert(-x == m * (-q) + 0) by (nonlinear_arith)
            requires
                x == m * q + r,
                r == 0,
        ;
        assert(-x == (-q) * m + 0) by (nonlinear_arith)
            requires
                -x == m * (-q) + 0,
        ;
        vstd::arithmetic::div_mod::lemma_fundamental_div_mod_converse(-x, m, -q, 0);
    } else {
        assert(-x == (-q - 1) * m + (m - r)) by (nonlinear_arith)
            requires
                x == m * q + r,
        ;
        vstd::arithmetic::div_mod::lemma_fundamental_div_mod_converse(-x, m, -q - 1, m - r);
    }
}

/// Wraps a number to so many bits.
fn wrap(value: i128, bits: u32) -> (n: i64)
    requires
        1 <= bits <= 64,
        -0x4000_0000_0000_0000_0000_0000_0000_0000 <= value
            <= 0x4000_0000_0000_0000_0000_0000_0000_0000,
    ensures
        n == wrapped(value as int, bits as nat),
{
    let modulus = power(bits);
    let half = power(bits - 1);
    proof {
        vstd::arithmetic::power2::lemma_pow2_unfold(bits as nat);
    }
    let shifted: i128 = value + half as i128;
    let left: u128 = if shifted >= 0 {
        (shifted as u128) % modulus
    } else {
        let below: u128 = (-shifted) as u128 % modulus;
        proof {
            lemma_mod_negative(-shifted as int, modulus as int);
        }
        if below == 0 {
            0
        } else {
            modulus - below
        }
    };
    assert(left == (value + half) % (modulus as int));
    (left as i128 - half as i128) as i64
}

fn target_bits(target: TargetSpec) -> (bits: u32)
    ensures
        bits == word_bits(target),
        1 <= bits <= 64,
{
    if target.word_size_bits < 1 {
        1
    } else if target.word_size_bits > 64 {
        64
    } else {
        target.word_size_bits as u32
    }
}

/// An integer as the target holds it.
pub fn normalize_int(value: i64, target: TargetSpec) -> (n: i64)
    ensures
        n == wrapped(value as int, word_bits(target)),
{
    wrap(value as i128, target_bits(target))
}

/// A literal as the target holds it.
pub open spec fn normal(literal: LiteralModel, bits: nat) -> LiteralModel {
    match literal {
        LiteralModel::Int(value) => LiteralModel::Int(wrapped(value as int, bits) as i64),
        _ => literal,
    }
}

pub(crate) fn normalize_literal(literal: &Literal, target: TargetSpec) -> (out: Literal)
    ensures
        out@ == normal(literal@, word_bits(target)),
{
    match literal {
        Literal::Int(value) => Literal::Int(normalize_int(*value, target)),
        _ => literal.clone(),
    }
}

/// The result of an operation on integers of so many bits; none where the
/// operation is no arithmetic, or divides by zero.
pub open spec fn int_arith(bits: nat, op: BinaryOp, left: i64, right: i64) -> Option<i64> {
    let a = wrapped(left as int, bits);
    let b = wrapped(right as int, bits);
    match op {
        BinaryOp::Add => Some(wrapped(a + b, bits) as i64),
        BinaryOp::Sub => Some(wrapped(a - b, bits) as i64),
        BinaryOp::Mul => Some(wrapped(a * b, bits) as i64),
        BinaryOp::Div => if b != 0 {
            Some(wrapped(quotient(a, b), bits) as i64)
        } else {
            None
        },
        BinaryOp::Mod => if b != 0 {
            Some(wrapped(remainder(a, b), bits) as i64)
        } else {
            None
        },
        _ => None,
    }
}

proof fn lemma_product_fits(a: i64, b: i64)
    ensures
        -0x4000_0000_0000_0000_0000_0000_0000_0000 <= a * b
            <= 0x4000_0000_0000_0000_0000_0000_0000_0000,
{
    assert(-0x4000_0000_0000_0000_0000_0000_0000_0000 <= a * b
        <= 0x4000_0000_0000_0000_0000_0000_0000_0000) by (nonlinear_arith)
        requires
            -0x8000_0000_0000_0000 <= a <= 0x7fff_ffff_ffff_ffff,
            -0x8000_0000_0000_0000 <= b <= 0x7fff_ffff_ffff_ffff,
    ;
}

fn size_of_int(a: i64) -> (size: u128)
    ensures
        size == magnitude(a as int),
        size <= 0x8000_0000_0000_0000,
{
    let wide = a as i128;
    if wide < 0 {
        (-wide) as u128
    } else {
        wide as u128
    }
}

fn divide(a: i64, b: i64) -> (q: i128)
    requires
        b != 0,
    ensures
        q == quotient(a as int, b as int),
        -0x8000_0000_0000_0000 <= q <= 0x8000_0000_0000_0000,
{
    let top = size_of_int(a);
    let bottom = size_of_int(b);
    let size: u128 = top / bottom;
    proof {
        vstd::arithmetic::div_mod::lemma_div_is_ordered_by_denominator(
            top as int,
            1,
            bottom as int,
        );
        vstd::arithmetic::div_mod::lemma_div_basics(top as int);
    }
    assert(size <= top);
    if (a < 0) == (b < 0) {
        size as i128
    } else {
        -(size as i128)
    }
}

fn leave(a: i64, b: i64) -> (r: i128)
    requires
        b != 0,
    ensures
        r == remainder(a as int, b as int),
        -0x8000_0000_0000_0000 <= r <= 0x8000_0000_0000_0000,
{
    let top = size_of_int(a);
    let bottom = size_of_int(b);
    let size: u128 = top % bottom;
    if a < 0 {
        -(size as i128)
    } else {
        size as i128
    }
}

fn eval_int_arith(op: BinaryOp, left: i64, right: i64, target: TargetSpec) -> (out: Option<Literal>)
    ensures
        out is Some <==> int_arith(word_bits(target), op, left, right) is Some,
        out matches Some(value) ==> value@ == LiteralModel::Int(
            int_arith(word_bits(target), op, left, right)->0,
        ),
{
    let bits = target_bits(target);
    let a = normalize_int(left, target);
    let b = normalize_int(right, target);
    let value: i128 = match op {
        BinaryOp::Add => a as i128 + b as i128,
        BinaryOp::Sub => a as i128 - b as i128,
        BinaryOp::Mul => {
            proof {
                lemma_product_fits(a, b);
            }
            a as i128 * b as i128
        },
        BinaryOp::Div => {
            if b == 0 {
                return None;
            }
            divide(a, b)
        },
        BinaryOp::Mod => {
            if b == 0 {
                return None;
            }
            leave(a, b)
        },
        _ => {
            return None;
        },
    };
    Some(Literal::Int(wrap(value, bits)))
}

// ---------------------------------------------------------------------------
// Floating-point numbers, by their bits
// ---------------------------------------------------------------------------

/// The number of the sign bit.
pub const SIGN_BIT: u64 = 0x8000_0000_0000_0000;

/// Finite numbers stand in the order of these keys; both zeros have key zero.
pub open spec fn float_key(bits: u64) -> int {
    if bits >= SIGN_BIT {
        -(bits - SIGN_BIT)
    } else {
        bits as int
    }
}

/// The bits of the opposite number.
pub open spec fn float_negated(bits: u64) -> u64 {
    if bits >= SIGN_BIT {
        (bits - SIGN_BIT) as u64
    } else {
        (bits + SIGN_BIT) as u64
    }
}

fn key_of_float(bits: u64) -> (key: i128)
    ensures
        key == float_key(bits),
{
    if bits >= SIGN_BIT {
        -((bits - SIGN_BIT) as i128)
    } else {
        bits as i128
    }
}

fn negate_float(bits: u64) -> (out: u64)
    ensures
        out == float_negated(bits),
{
    if bits >= SIGN_BIT {
        bits - SIGN_BIT
    } else {
        bits + SIGN_BIT
    }
}

/// A machine that does arithmetic on floating-point numbers, given by their
/// bits, can be asked anything, and always answers the same.
pub open spec fn answers<H: Fn(BinaryOp, u64, u64) -> u64>(host: H) -> bool {
    &&& forall|op: BinaryOp, a: u64, b: u64| call_requires(host, (op, a, b))
    &&& forall|op: BinaryOp, a: u64, b: u64, x: u64, y: u64|
        call_ensures(host, (op, a, b), x) && call_ensures(host, (op, a, b), y) ==> x == y
}

/// What the machine answers.
pub open spec fn answer<H: Fn(BinaryOp, u64, u64) -> u64>(host: H) -> spec_fn(
    BinaryOp,
    u64,
    u64,
) -> u64 {
    |op: BinaryOp, a: u64, b: u64| choose|x: u64| call_ensures(host, (op, a, b), x)
}

/// The result of an operation on floating-point numbers: the machine's, where
/// it and the operands are finite and nothing is divided by zero.
pub open spec fn float_arith(
    host: spec_fn(BinaryOp, u64, u64) -> u64,
    op: BinaryOp,
    left: u64,
    right: u64,
) -> Option<u64> {
    let done = match op {
        BinaryOp::Add => true,
        BinaryOp::Sub => true,
        BinaryOp::Mul => true,
        BinaryOp::Div => float_key(right) != 0,
        BinaryOp::Mod => float_key(right) != 0,
        _ => false,
    };
    if done && crate::pipeline::tables::finite_bits(left) && crate::pipeline::tables::finite_bits(
        right,
    ) && crate::pipeline::tables::finite_bits(host(op, left, right)) {
        Some(host(op, left, right))
    } else {
        None
    }
}

fn eval_float_arith<H: Fn(BinaryOp, u64, u64) -> u64>(
    op: BinaryOp,
    left: u64,
    right: u64,
    host: &H,
) -> (out: Option<Literal>)
    requires
        answers(*host),
    ensures
        out is Some <==> float_arith(answer(*host), op, left, right) is Some,
        out matches Some(value) ==> value@ == LiteralModel::Float(
            float_arith(answer(*host), op, left, right)->0,
        ),
{
    if !is_finite(left) || !is_finite(right) {
        return None;
    }
    let done = match op {
        BinaryOp::Add | BinaryOp::Sub | BinaryOp::Mul => true,
        BinaryOp::Div | BinaryOp::Mod => key_of_float(right) != 0,
        _ => false,
    };
    if !done {
        return None;
    }
    let bits = host(op, left, right);
    assert(call_ensures(*host, (op, left, right), bits));
    assert(answer(*host)(op, left, right) == bits);
    if is_finite(bits) {
        Some(Literal::Float(bits))
    } else {
        None
    }
}

// ---------------------------------------------------------------------------
// Operations on literals
// ---------------------------------------------------------------------------

/// How two things that have an order compare, under an operator that compares.
pub open spec fn compared(op: BinaryOp, a: int, b: int) -> Option<LiteralModel> {
    match op {
        BinaryOp::Lt => Some(LiteralModel::Bool(a < b)),
        BinaryOp::Le => Some(LiteralModel::Bool(a <= b)),
        BinaryOp::Gt => Some(LiteralModel::Bool(a > b)),
        BinaryOp::Ge => Some(LiteralModel::Bool(a >= b)),
        _ => None,
    }
}

/// Whether two things are equal, under an operator that asks for it.
pub open spec fn equated(op: BinaryOp, same: bool) -> Option<LiteralModel> {
    match op {
        BinaryOp::Eq => Some(LiteralModel::Bool(same)),
        BinaryOp::Ne => Some(LiteralModel::Bool(!same)),
        _ => None,
    }
}

pub open spec fn arithmetic(op: BinaryOp) -> bool {
    op is Add || op is Sub || op is Mul || op is Div || op is Mod
}

pub open spec fn fold_unary(bits: nat, op: UnaryOp, value: LiteralModel) -> Option<LiteralModel> {
    match (op, value) {
        (UnaryOp::Neg, LiteralModel::Int(v)) => Some(
            LiteralModel::Int(wrapped(-v, bits) as i64),
        ),
        (UnaryOp::Neg, LiteralModel::Float(v)) => if crate::pipeline::tables::finite_bits(v) {
            Some(LiteralModel::Float(float_negated(v)))
        } else {
            None
        },
        (UnaryOp::Not, LiteralModel::Bool(v)) => Some(LiteralModel::Bool(!v)),
        _ => None,
    }
}

pub open spec fn fold_binary(
    bits: nat,
    host: spec_fn(BinaryOp, u64, u64) -> u64,
    op: BinaryOp,
    left: LiteralModel,
    right: LiteralModel,
) -> Option<LiteralModel> {
    match (left, right) {
        (LiteralModel::Int(a), LiteralModel::Int(b)) => if arithmetic(op) {
            match int_arith(bits, op, a, b) {
                Some(value) => Some(LiteralModel::Int(value)),
                None => None,
            }
        } else if op is Eq || op is Ne {
            equated(op, wrapped(a as int, bits) == wrapped(b as int, bits))
        } else {
            compared(op, wrapped(a as int, bits), wrapped(b as int, bits))
        },
        (LiteralModel::Float(a), LiteralModel::Float(b)) => if arithmetic(op) {
            match float_arith(host, op, a, b) {
                Some(value) => Some(LiteralModel::Float(value)),
                None => None,
            }
        } else if !crate::pipeline::tables::finite_bits(a)
            || !crate::pipeline::tables::finite_bits(b) {
            None
        } else if op is Eq || op is Ne {
            equated(op, float_key(a) == float_key(b))
        } else {
            compared(op, float_key(a), float_key(b))
        },
        (LiteralModel::Char(a), LiteralModel::Char(b)) => if op is Eq || op is Ne {
            equated(op, a == b)
        } else {
            compared(op, a as int, b as int)
        },
        (LiteralModel::Bool(a), LiteralModel::Bool(b)) => match op {
            BinaryOp::And => Some(LiteralModel::Bool(a && b)),
            BinaryOp::Or => Some(LiteralModel::Bool(a || b)),
            _ => equated(op, a == b),
        },
        (LiteralModel::String(a), LiteralModel::String(b)) => equated(op, a == b),
        (LiteralModel::Unit, LiteralModel::Unit) => equated(op, true),
        _ => None,
    }
}

/// The model of a literal that may be there.
pub open spec fn model_of(value: Option<Literal>) -> Option<LiteralModel> {
    match value {
        Some(literal) => Some(literal@),
        None => None,
    }
}

fn eval_ordered(op: BinaryOp, a: i128, b: i128) -> (out: Option<Literal>)
    ensures
        model_of(out) == compared(op, a as int, b as int),
{
    match op {
        BinaryOp::Lt => Some(Literal::Bool(a < b)),
        BinaryOp::Le => Some(Literal::Bool(a <= b)),
        BinaryOp::Gt => Some(Literal::Bool(a > b)),
        BinaryOp::Ge => Some(Literal::Bool(a >= b)),
        _ => None,
    }
}

fn eval_eq(op: BinaryOp, same: bool) -> (out: Option<Literal>)
    ensures
        model_of(out) == equated(op, same),
{
    match op {
        BinaryOp::Eq => Some(Literal::Bool(same)),
        BinaryOp::Ne => Some(Literal::Bool(!same)),
        _ => None,
    }
}

fn is_arithmetic(op: BinaryOp) -> (b: bool)
    ensures
        b == arithmetic(op),
{
    match op {
        BinaryOp::Add | BinaryOp::Sub | BinaryOp::Mul | BinaryOp::Div | BinaryOp::Mod => true,
        _ => false,
    }
}

pub(crate) fn eval_unary(op: UnaryOp, value: &Literal, target: TargetSpec) -> (out: Option<Literal>)
    ensures
        model_of(out) == fold_unary(word_bits(target), op, value@),
{
    match op {
        UnaryOp::Neg => match value {
            Literal::Int(v) => Some(Literal::Int(wrap(-(*v as i128), target_bits(target)))),
            Literal::Float(v) => if is_finite(*v) {
                Some(Literal::Float(negate_float(*v)))
            } else {
                None
            },
            _ => None,
        },
        UnaryOp::Not => match value {
            Literal::Bool(v) => Some(Literal::Bool(!*v)),
            _ => None,
        },
    }
}

pub(crate) fn eval_binary<H: Fn(BinaryOp, u64, u64) -> u64>(
    op: BinaryOp,
    left: &Literal,
    right: &Literal,
    target: TargetSpec,
    host: &H,
) -> (out: Option<Literal>)
    requires
        answers(*host),
    ensures
        model_of(out) == fold_binary(word_bits(target), answer(*host), op, left@, right@),
{
    let equality = op == BinaryOp::Eq || op == BinaryOp::Ne;
    match (left, right) {
        (Literal::Int(a), Literal::Int(b)) => {
            if is_arithmetic(op) {
                eval_int_arith(op, *a, *b, target)
            } else {
                let x = normalize_int(*a, target);
                let y = normalize_int(*b, target);
                if equality {
                    eval_eq(op, x == y)
                } else {
                    eval_ordered(op, x as i128, y as i128)
                }
            }
        },
        (Literal::Float(a), Literal::Float(b)) => {
            if is_arithmetic(op) {
                eval_float_arith(op, *a, *b, host)
            } else if !is_finite(*a) || !is_finite(*b) {
                None
            } else if equality {
                eval_eq(op, key_of_float(*a) == key_of_float(*b))
            } else {
                eval_ordered(op, key_of_float(*a), key_of_float(*b))
            }
        },
        (Literal::Char(a), Literal::Char(b)) => {
            if equality {
                eval_eq(op, *a == *b)
            } else {
                eval_ordered(op, *a as u32 as i128, *b as u32 as i128)
            }
        },
        (Literal::Bool(a), Literal::Bool(b)) => match op {
            BinaryOp::And => Some(Literal::Bool(*a && *b)),
            BinaryOp::Or => Some(Literal::Bool(*a || *b)),
            _ => eval_eq(op, *a == *b),
        },
        (Literal::String(a), Literal::String(b)) => eval_eq(op, *a == *b),
        (Literal::Unit, Literal::Unit) => eval_eq(op, true),
        _ => None,
    }
}

// ---------------------------------------------------------------------------
// Branches
// ---------------------------------------------------------------------------

/// The branches that are decided: those on a truth value that has been found.
pub open spec fn decisions(cache: Map<usize, Literal>) -> Map<usize, BranchDecision> {
    Map::new(
        |e: usize| cache.contains_key(e) && cache[e] is Bool,
        |e: usize|
            if cache[e]->Bool_0 {
                BranchDecision::LiveTrue
            } else {
                BranchDecision::LiveFalse
            },
    )
}

pub(crate) fn rebuild_branch_decisions(cache: &DenseMap<Literal>) -> (out: DenseMap<
    BranchDecision,
>)
    ensures
        out@ == decisions(cache@),
{
    let mut out: DenseMap<BranchDecision> = DenseMap::new();
    let n = cache.bound();
    let mut i: usize = 0;
    assert(out@ =~= decisions(cache@).restrict(Set::new(|e: usize| e < 0)));
    while i < n
        invariant
            i <= n,
            forall|k: usize| #[trigger] cache@.contains_key(k) ==> k < n,
            out@ == decisions(cache@).restrict(Set::new(|e: usize| e < i)),
        decreases n - i,
    {
        match cache.get(i) {
            Some(Literal::Bool(true)) => {
                out.insert(i, BranchDecision::LiveTrue);
            },
            Some(Literal::Bool(false)) => {
                out.insert(i, BranchDecision::LiveFalse);
            },
            _ => {},
        }
        assert(out@ =~= decisions(cache@).restrict(Set::new(|e: usize| e < i + 1)));
        i += 1;
    }
    assert(out@ =~= decisions(cache@)) by {
        assert forall|e: usize| decisions(cache@).contains_key(e) implies e < n by {
            assert(cache@.contains_key(e));
        }
    }
    out
}

// ---------------------------------------------------------------------------
// Effects that are not declared
// ---------------------------------------------------------------------------

/// Where an effect is mentioned.
#[derive(Clone, Copy, PartialEq, Eq, Debug, Structural)]
pub enum EffectSite {
    Function(usize),
    Handler(usize),
    Call(usize),
    Perform(usize),
}

/// A mention of an effect that no declaration stands behind.
#[derive(Clone, Copy, PartialEq, Eq, Debug, Structural)]
pub struct UnresolvedEffect {
    pub site: EffectSite,
    pub effect: EffectLabelId,
    pub declared: usize,
}

/// Every effect of a row is declared.
pub open spec fn row_declared(row: Seq<EffectLabelId>, count: nat) -> bool {
    forall|i: int| 0 <= i < row.len() ==> (#[trigger] row[i]).0 < count
}

/// Every effect that a statement mentions is declared.
pub open spec fn stmt_declared(s: StmtModel, count: nat) -> bool {
    match s {
        StmtModel::Call { effects, .. } => row_declared(effects, count),
        StmtModel::Perform { effect, .. } => effect.0 < count,
        _ => true,
    }
}

/// Every effect that a program mentions is declared.
pub open spec fn effects_declared(p: CoreModel) -> bool {
    &&& forall|f: int|
        0 <= f < p.functions.len() ==> row_declared(
            (#[trigger] p.functions[f]).declared_effects,
            p.effects.len(),
        )
    &&& forall|h: int|
        0 <= h < p.handlers.len() ==> (#[trigger] p.handlers[h]).effect.0 < p.effects.len()
    &&& forall|s: int|
        0 <= s < p.stmts.len() ==> stmt_declared(
            (#[trigger] p.stmts[s]).kind,
            p.effects.len(),
        )
}

/// The first label of a row that is not declared.
pub open spec fn first_undeclared(row: Seq<EffectLabelId>, count: nat, label: EffectLabelId) -> bool {
    exists|i: int|
        #![trigger row[i]]
        0 <= i < row.len() && row[i] == label && label.0 >= count && row_declared(
            row.take(i),
            count,
        )
}

/// The mention that is found: the first one, functions before handlers before
/// statements.
pub open spec fn is_first_undeclared(p: CoreModel, found: UnresolvedEffect) -> bool {
    let n = p.effects.len();
    &&& found.declared == n
    &&& match found.site {
        EffectSite::Function(f) => {
            &&& f < p.functions.len()
            &&& first_undeclared(p.functions[f as int].declared_effects, n, found.effect)
            &&& forall|g: int|
                0 <= g < f ==> row_declared((#[trigger] p.functions[g]).declared_effects, n)
        },
        EffectSite::Handler(h) => {
            &&& h < p.handlers.len()
            &&& p.handlers[h as int].effect == found.effect
            &&& found.effect.0 >= n
            &&& forall|g: int|
                0 <= g < p.functions.len() ==> row_declared(
                    (#[trigger] p.functions[g]).declared_effects,
                    n,
                )
            &&& forall|g: int| 0 <= g < h ==> (#[trigger] p.handlers[g]).effect.0 < n
        },
        EffectSite::Call(s) => {
            &&& stmt_first(p, s)
            &&& p.stmts[s as int].kind is Call
            &&& first_undeclared(p.stmts[s as int].kind->effects, n, found.effect)
        },
        EffectSite::Perform(s) => {
            &&& stmt_first(p, s)
            &&& p.stmts[s as int].kind is Perform
            &&& p.stmts[s as int].kind->effect == found.effect
            &&& found.effect.0 >= n
        },
    }
}

/// Everything before a statement mentions declared effects only.
pub open spec fn stmt_first(p: CoreModel, s: usize) -> bool {
    let n = p.effects.len();
    &&& s < p.stmts.len()
    &&& forall|g: int|
        0 <= g < p.functions.len() ==> row_declared((#[trigger] p.functions[g]).declared_effects, n)
    &&& forall|g: int| 0 <= g < p.handlers.len() ==> (#[trigger] p.handlers[g]).effect.0 < n
    &&& forall|g: int| 0 <= g < s ==> stmt_declared((#[trigger] p.stmts[g]).kind, n)
}

fn undeclared_in(row: &SortedEffectRow, count: usize) -> (found: Option<EffectLabelId>)
    ensures
        found is None <==> row_declared(row@, count as nat),
        found matches Some(label) ==> first_undeclared(row@, count as nat, label),
{
    let mut i: usize = 0;
    while i < row.labels.len()
        invariant
            i <= row.labels@.len(),
            forall|j: int| 0 <= j < i ==> (#[trigger] row@[j]).0 < count,
        decreases row.labels@.len() - i,
    {
        let label = row.labels[i];
        if label.0 >= count {
            assert(row@[i as int] == label);
            assert(row_declared(row@.take(i as int), count as nat));
            return Some(label);
        }
        i += 1;
    }
    None
}

fn undeclared_function_effect(program: &CoreProgram) -> (found: Option<UnresolvedEffect>)
    ensures
        match found {
            Some(found) => is_first_undeclared(program@, found),
            None => forall|f: int|
                0 <= f < program@.functions.len() ==> row_declared(
                    (#[trigger] program@.functions[f]).declared_effects,
                    program@.effects.len(),
                ),
        },
{
    let n = program.effects.len();
    let mut f: usize = 0;
    while f < program.functions.len()
        invariant
            f <= program.functions@.len(),
            n == program@.effects.len(),
            forall|g: int|
                0 <= g < f ==> row_declared(
                    (#[trigger] program@.functions[g]).declared_effects,
                    n as nat,
                ),
        decreases program.functions@.len() - f,
    {
        assert(program@.functions[f as int].declared_effects
            == program.functions@[f as int].declared_effects@);
        if let Some(effect) = undeclared_in(&program.functions[f].declared_effects, n) {
            return Some(
                UnresolvedEffect { site: EffectSite::Function(f), effect, declared: n },
            );
        }
        f += 1;
    }
    None
}

fn undeclared_handler_effect(program: &CoreProgram) -> (found: Option<UnresolvedEffect>)
    requires
        forall|f: int|
            0 <= f < program@.functions.len() ==> row_declared(
                (#[trigger] program@.functions[f]).declared_effects,
                program@.effects.len(),
            ),
    ensures
        match found {
            Some(found) => is_first_undeclared(program@, found),
            None => forall|h: int|
                0 <= h < program@.handlers.len() ==> (#[trigger] program@.handlers[h]).effect.0
                    < program@.effects.len(),
        },
{
    let n = program.effects.len();
    let mut h: usize = 0;
    while h < program.handlers.len()
        invariant
            h <= program.handlers@.len(),
            n == program@.effects.len(),
            forall|f: int|
                0 <= f < program@.functions.len() ==> row_declared(
                    (#[trigger] program@.functions[f]).declared_effects,
                    program@.effects.len(),
                ),
            forall|g: int| 0 <= g < h ==> (#[trigger] program@.handlers[g]).effect.0 < n,
        decreases program.handlers@.len() - h,
    {
        let effect = program.handlers[h].effect;
        assert(program@.handlers[h as int].effect == effect);
        if effect.0 >= n {
            return Some(UnresolvedEffect { site: EffectSite::Handler(h), effect, declared: n });
        }
        h += 1;
    }
    None
}

/// Looks for a mention of an effect that no declaration stands behind.
pub fn check_effects_declared(program: &CoreProgram) -> (found: Option<UnresolvedEffect>)
    ensures
        found is None <==> effects_declared(program@),
        found matches Some(found) ==> is_first_undeclared(program@, found),
{
    if let Some(found) = undeclared_function_effect(program) {
        proof {
            if let EffectSite::Function(f) = found.site {
                let row = program@.functions[f as int].declared_effects;
                assert(!row_declared(row, program@.effects.len()));
            }
        }
        return Some(found);
    }
    if let Some(found) = undeclared_handler_effect(program) {
        return Some(found);
    }
    let n = program.effects.len();
    let mut s: usize = 0;
    while s < program.stmts.len()
        invariant
            s <= program.stmts@.len(),
            n == program@.effects.len(),
            forall|f: int|
                0 <= f < program@.functions.len() ==> row_declared(
                    (#[trigger] program@.functions[f]).declared_effects,
                    program@.effects.len(),
                ),
            forall|g: int|
                0 <= g < program@.handlers.len() ==> (#[trigger] program@.handlers[g]).effect.0
                    < n,
            forall|g: int|
                0 <= g < s ==> stmt_declared((#[trigger] program@.stmts[g]).kind, n as nat),
        decreases program.stmts@.len() - s,
    {
        assert(program@.stmts[s as int].kind == program.stmts@[s as int].kind@);
        match &program.stmts[s].kind {
            StmtKind::Call { effects, .. } => {
                if let Some(effect) = undeclared_in(effects, n) {
                    assert(stmt_first(program@, s));
                    assert(!stmt_declared(program@.stmts[s as int].kind, n as nat));
                    return Some(
                        UnresolvedEffect { site: EffectSite::Call(s), effect, declared: n },
                    );
                }
            },
            StmtKind::Perform { effect, .. } => {
                if effect.0 >= n {
                    assert(stmt_first(program@, s));
                    assert(!stmt_declared(program@.stmts[s as int].kind, n as nat));
                    return Some(
                        UnresolvedEffect {
                            site: EffectSite::Perform(s),
                            effect: *effect,
                            declared: n,
                        },
                    );
                }
            },
            _ => {},
        }
        s += 1;
    }
    None
}

impl EffectSite {
    /// The text that names a place.
    pub open spec fn text(self) -> Seq<char> {
        match self {
            EffectSite::Function(f) => "function f"@ + crate::common::text::decimal(f as nat)
                + " declared_effects"@,
            EffectSite::Handler(h) => "handler h"@ + crate::common::text::decimal(h as nat)
                + " effect"@,
            EffectSite::Call(s) => "stmt s"@ + crate::common::text::decimal(s as nat)
                + " call effect row"@,
            EffectSite::Perform(s) => "stmt s"@ + crate::common::text::decimal(s as nat)
                + " perform effect"@,
        }
    }
}

impl UnresolvedEffect {
    /// What to say about it.
    pub fn describe(&self) -> (text: String)
        ensures
            text@
                == "compiler bug: unresolved/non-concrete effect at pre-staging boundary: "@
                + self.site.text() + " references e"@ + crate::common::text::decimal(
                self.effect.0 as nat,
            ) + " but only "@ + crate::common::text::decimal(self.declared as nat)
                + " effect declarations exist"@,
    {
        let mut text =
            "compiler bug: unresolved/non-concrete effect at pre-staging boundary: ".to_owned();
        let place = match self.site {
            EffectSite::Function(f) => numbered("function f", f, " declared_effects"),
            EffectSite::Handler(h) => numbered("handler h", h, " effect"),
            EffectSite::Call(s) => numbered("stmt s", s, " call effect row"),
            EffectSite::Perform(s) => numbered("stmt s", s, " perform effect"),
        };
        push_text(&mut text, place.as_str());
        push_text(&mut text, " references e");
        push_index(&mut text, self.effect.0);
        push_text(&mut text, " but only ");
        push_index(&mut text, self.declared);
        push_text(&mut text, " effect declarations exist");
        text
    }
}

// ---------------------------------------------------------------------------
// Laws
// ---------------------------------------------------------------------------

/// A wrapped number fits in its bits, and differs from what it was by a
/// multiple of their range.
pub proof fn lemma_wrapped(value: int, bits: nat)
    requires
        1 <= bits,
    ensures
        -(vstd::arithmetic::power2::pow2((bits - 1) as nat) as int) <= wrapped(value, bits) < vstd::arithmetic::power2::pow2((bits - 1) as nat),
        (wrapped(value, bits) - value) % (vstd::arithmetic::power2::pow2(bits) as int) == 0,
        wrapped(wrapped(value, bits), bits) == wrapped(value, bits),
{
    let m = vstd::arithmetic::power2::pow2(bits) as int;
    let half = vstd::arithmetic::power2::pow2((bits - 1) as nat) as int;
    vstd::arithmetic::power2::lemma_pow2_unfold(bits);
    vstd::arithmetic::power2::lemma_pow2_pos((bits - 1) as nat);
    let x = value + half;
    vstd::arithmetic::div_mod::lemma_fundamental_div_mod(x, m);
    let q = x / m;
    let r = x % m;
    assert(wrapped(value, bits) - value == r - x);
    assert(r - x == (-q) * m + 0) by (nonlinear_arith)
        requires
            x == m * q + r,
    ;
    vstd::arithmetic::div_mod::lemma_fundamental_div_mod_converse(r - x, m, -q, 0);
    vstd::arithmetic::div_mod::lemma_small_mod(r as nat, m as nat);
}

/// The value of a literal fits in a word, if it is an integer.
pub open spec fn fits(literal: LiteralModel, bits: nat) -> bool {
    literal matches LiteralModel::Int(value) ==> -(vstd::arithmetic::power2::pow2((bits - 1) as nat) as int) <= value < vstd::arithmetic::power2::pow2(
        (bits - 1) as nat,
    )
}

proof fn lemma_wrapped_cast(value: int, bits: nat)
    requires
        1 <= bits <= 64,
    ensures
        (wrapped(value, bits) as i64) as int == wrapped(value, bits),
        fits(LiteralModel::Int(wrapped(value, bits) as i64), bits),
{
    lemma_wrapped(value, bits);
    vstd::arithmetic::power2::lemma2_to64();
    vstd::arithmetic::power2::lemma2_to64_rest();
    if bits < 64 {
        vstd::arithmetic::power2::lemma_pow2_strictly_increases((bits - 1) as nat, 63);
    }
}

/// What is computed at compile time fits in a word of the target.
pub proof fn lemma_fold_fits(
    bits: nat,
    host: spec_fn(BinaryOp, u64, u64) -> u64,
    op: BinaryOp,
    unary: UnaryOp,
    left: LiteralModel,
    right: LiteralModel,
)
    requires
        1 <= bits <= 64,
    ensures
        fits(normal(left, bits), bits),
        fold_unary(bits, unary, left) matches Some(value) ==> fits(value, bits),
        fold_binary(bits, host, op, left, right) matches Some(value) ==> fits(value, bits),
{
    if let LiteralModel::Int(a) = left {
        lemma_wrapped_cast(a as int, bits);
        lemma_wrapped_cast(-a, bits);
        if let LiteralModel::Int(b) = right {
            let x = wrapped(a as int, bits);
            let y = wrapped(b as int, bits);
            lemma_wrapped_cast(x + y, bits);
            lemma_wrapped_cast(x - y, bits);
            lemma_wrapped_cast(x * y, bits);
            lemma_wrapped_cast(quotient(x, y), bits);
            lemma_wrapped_cast(remainder(x, y), bits);
        }
    }
}

} // verus!
