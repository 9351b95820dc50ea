//! What the number that stands for a program notices.
use crate::ir::core_ir::{BinaryOp, ExprModel, LiteralModel, UnaryOp};
use vstd::prelude::*;

verus! {

proof fn lemma_longs_apart(a: u64, b: u64)
    requires
        crate::pipeline::fingerprint::long_write(a) == crate::pipeline::fingerprint::long_write(b),
    ensures
        a == b,
{
    vstd::bytes::lemma_auto_spec_u64_to_from_le_bytes();
    assert(vstd::bytes::spec_u64_from_le_bytes(vstd::bytes::spec_u64_to_le_bytes(a)) == a);
    assert(vstd::bytes::spec_u64_from_le_bytes(vstd::bytes::spec_u64_to_le_bytes(b)) == b);
}

proof fn lemma_words_apart(a: u32, b: u32)
    requires
        crate::pipeline::fingerprint::word_write(a) == crate::pipeline::fingerprint::word_write(b),
    ensures
        a == b,
{
    vstd::bytes::lemma_auto_spec_u32_to_from_le_bytes();
    assert(vstd::bytes::spec_u32_to_le_bytes(a).len() == 4);
    assert(vstd::bytes::spec_u32_to_le_bytes(b).len() == 4);
    assert(vstd::bytes::spec_u32_from_le_bytes(vstd::bytes::spec_u32_to_le_bytes(a)) == a);
    assert(vstd::bytes::spec_u32_from_le_bytes(vstd::bytes::spec_u32_to_le_bytes(b)) == b);
}

proof fn lemma_longs_bits(a: i64, b: i64)
    requires
        a as u64 == b as u64,
    ensures
        a == b,
{
    assert(a as u64 == b as u64 ==> a == b) by (bit_vector);
}

/// Two operators are not written alike.
pub proof fn lemma_operators_apart(a: BinaryOp, b: BinaryOp, c: UnaryOp, d: UnaryOp)
    ensures
        crate::pipeline::fingerprint::binary_number(a)
            == crate::pipeline::fingerprint::binary_number(b) ==> a == b,
        crate::pipeline::fingerprint::unary_number(c)
            == crate::pipeline::fingerprint::unary_number(d) ==> c == d,
{
}

/// Two literals are not written alike.
pub proof fn lemma_literals_apart(a: LiteralModel, b: LiteralModel)
    requires
        crate::pipeline::fingerprint::literal_writes(a)
            == crate::pipeline::fingerprint::literal_writes(b),
    ensures
        a == b,
{
    let x = crate::pipeline::fingerprint::literal_writes(a);
    let y = crate::pipeline::fingerprint::literal_writes(b);
    let mark_a = x[0][0];
    let mark_b = y[0][0];
    assert(mark_a == mark_b);
    match (a, b) {
        (LiteralModel::Bool(m), LiteralModel::Bool(n)) => {
            assert(x[1][0] == y[1][0]);
        },
        (LiteralModel::Int(m), LiteralModel::Int(n)) => {
            assert(x[1] == y[1]);
            lemma_longs_apart(m as u64, n as u64);
            lemma_longs_bits(m, n);
        },
        (LiteralModel::Float(m), LiteralModel::Float(n)) => {
            assert(x[1] == y[1]);
            lemma_longs_apart(m, n);
        },
        (LiteralModel::Char(m), LiteralModel::Char(n)) => {
            assert(x[1] == y[1]);
            lemma_words_apart(m as u32, n as u32);
        },
        (LiteralModel::String(m), LiteralModel::String(n)) => {
            assert(x[1] == y[1]);
            vstd::utf8::encode_utf8_decode_utf8(m);
            vstd::utf8::encode_utf8_decode_utf8(n);
        },
        _ => {},
    }
}

/// Two applications of operators are not written alike, as long as identifiers
/// fit in four bytes.
pub proof fn lemma_applications_apart(a: ExprModel, b: ExprModel)
    requires
        a is Binary,
        b is Binary,
        a->lhs.0 <= u32::MAX && a->rhs.0 <= u32::MAX,
        b->lhs.0 <= u32::MAX && b->rhs.0 <= u32::MAX,
        crate::pipeline::fingerprint::kind_writes(a) == crate::pipeline::fingerprint::kind_writes(
            b,
        ),
    ensures
        a == b,
{
    let x = crate::pipeline::fingerprint::kind_writes(a);
    let y = crate::pipeline::fingerprint::kind_writes(b);
    let n = crate::pipeline::fingerprint::text_writes("bin"@).len() as int;
    assert(x[n] == y[n] && x[n + 1] == y[n + 1] && x[n + 2] == y[n + 2]);
    lemma_longs_apart(
        crate::pipeline::fingerprint::binary_number(a->Binary_op),
        crate::pipeline::fingerprint::binary_number(b->Binary_op),
    );
    lemma_words_apart(a->lhs.0 as u32, b->lhs.0 as u32);
    lemma_words_apart(a->rhs.0 as u32, b->rhs.0 as u32);
}

} // verus!
