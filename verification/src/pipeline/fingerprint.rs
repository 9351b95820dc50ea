//! A number that stands for the expressions of a program: two programs with the
//! same expressions have the same number.
use crate::common::ids::ExprId;
use crate::ir::core_ir::{BinaryOp, CoreProgram, ExprKind, ExprNode, Literal, UnaryOp};
use std::collections::hash_map::DefaultHasher;
use std::hash::Hasher;
use vstd::bytes::{u32_to_le_bytes, u64_to_le_bytes};
use vstd::prelude::*;
use vstd::std_specs::hash::DefaultHasherAdditionalSpecFns;

verus! {

/// What hashing a text writes: its bytes, and a byte that no text holds.
pub open spec fn text_writes(text: Seq<char>) -> Seq<Seq<u8>> {
    seq![vstd::utf8::encode_utf8(text), seq![0xffu8]]
}

/// What hashing a number of four bytes writes.
pub open spec fn word_write(n: u32) -> Seq<u8> {
    vstd::bytes::spec_u32_to_le_bytes(n)
}

/// What hashing a number of eight bytes writes.
pub open spec fn long_write(n: u64) -> Seq<u8> {
    vstd::bytes::spec_u64_to_le_bytes(n)
}

/// What hashing an identifier writes.
pub open spec fn id_write(id: usize) -> Seq<u8> {
    word_write(id as u32)
}

/// What hashing the first identifiers of a list writes.
pub open spec fn ids_writes(ids: Seq<ExprId>, first: nat) -> Seq<Seq<u8>>
    decreases first,
{
    if first == 0 {
        Seq::empty()
    } else {
        ids_writes(ids, (first - 1) as nat).push(id_write(ids[first - 1].0))
    }
}

/// The place of an operator among the unary ones.
pub open spec fn unary_number(op: UnaryOp) -> u64 {
    match op {
        UnaryOp::Neg => 0,
        UnaryOp::Not => 1,
    }
}

/// The place of an operator among the binary ones.
pub open spec fn binary_number(op: BinaryOp) -> u64 {
    match op {
        BinaryOp::Add => 0,
        BinaryOp::Sub => 1,
        BinaryOp::Mul => 2,
        BinaryOp::Div => 3,
        BinaryOp::Mod => 4,
        BinaryOp::Eq => 5,
        BinaryOp::Ne => 6,
        BinaryOp::Lt => 7,
        BinaryOp::Le => 8,
        BinaryOp::Gt => 9,
        BinaryOp::Ge => 10,
        BinaryOp::And => 11,
        BinaryOp::Or => 12,
    }
}

/// What hashing a literal writes: a number for its kind, and its value.
pub open spec fn literal_writes(literal: crate::ir::core_ir::LiteralModel) -> Seq<Seq<u8>> {
    match literal {
        crate::ir::core_ir::LiteralModel::Unit => seq![seq![0u8]],
        crate::ir::core_ir::LiteralModel::Bool(value) => seq![
            seq![1u8],
            seq![if value { 1u8 } else { 0u8 }],
        ],
        crate::ir::core_ir::LiteralModel::Int(value) => seq![seq![2u8], long_write(value as u64)],
        crate::ir::core_ir::LiteralModel::Float(bits) => seq![seq![3u8], long_write(bits)],
        crate::ir::core_ir::LiteralModel::Char(value) => seq![seq![4u8], word_write(value as u32)],
        crate::ir::core_ir::LiteralModel::String(value) => seq![seq![5u8]] + text_writes(value),
    }
}

/// What hashing an expression writes after its span.
pub open spec fn kind_writes(kind: crate::ir::core_ir::ExprModel) -> Seq<Seq<u8>> {
    match kind {
        crate::ir::core_ir::ExprModel::Literal(literal) => text_writes("lit"@) + literal_writes(
            literal,
        ),
        crate::ir::core_ir::ExprModel::Var(var) => text_writes("var"@).push(id_write(var.0)),
        crate::ir::core_ir::ExprModel::Unary { op, expr } => text_writes("un"@).push(
            long_write(unary_number(op)),
        ).push(id_write(expr.0)),
        crate::ir::core_ir::ExprModel::Binary { op, lhs, rhs } => text_writes("bin"@).push(
            long_write(binary_number(op)),
        ).push(id_write(lhs.0)).push(id_write(rhs.0)),
        crate::ir::core_ir::ExprModel::PureCall { callee, args } => text_writes("call"@).push(
            id_write(callee.0),
        ) + ids_writes(args, args.len()),
        crate::ir::core_ir::ExprModel::MakeStruct { ty, fields } => text_writes("mk_struct"@).push(
            id_write(ty.0),
        ) + ids_writes(fields, fields.len()),
        crate::ir::core_ir::ExprModel::MakeEnum { ty, variant, fields } => text_writes(
            "mk_enum"@,
        ).push(id_write(ty.0)).push(id_write(variant.0)) + ids_writes(fields, fields.len()),
        crate::ir::core_ir::ExprModel::Error(error) => text_writes("err"@).push(
            word_write(error.span.start),
        ).push(word_write(error.span.end)) + text_writes(error.message),
    }
}

/// What hashing an expression writes.
pub open spec fn expr_writes(node: crate::ir::core_ir::ExprNodeModel) -> Seq<Seq<u8>> {
    seq![word_write(node.span.start), word_write(node.span.end)] + kind_writes(node.kind)
}

/// What hashing the first expressions of a program writes.
pub open spec fn exprs_writes(
    exprs: Seq<crate::ir::core_ir::ExprNodeModel>,
    first: nat,
) -> Seq<Seq<u8>>
    decreases first,
{
    if first == 0 {
        Seq::empty()
    } else {
        exprs_writes(exprs, (first - 1) as nat) + expr_writes(exprs[first - 1])
    }
}

/// The number that stands for the expressions of a program.
pub open spec fn fingerprint(exprs: Seq<crate::ir::core_ir::ExprNodeModel>) -> u64 {
    DefaultHasher::spec_finish(exprs_writes(exprs, exprs.len()))
}

/// The number that stands for a text.
pub open spec fn text_number(text: Seq<char>) -> u64 {
    DefaultHasher::spec_finish(text_writes(text))
}

fn write_byte(hasher: &mut DefaultHasher, byte: u8)
    ensures
        final(hasher)@ == old(hasher)@.push(seq![byte]),
{
    let mut bytes: Vec<u8> = Vec::new();
    bytes.push(byte);
    assert(bytes@ =~= seq![byte]);
    hasher.write(bytes.as_slice());
}

fn write_word(hasher: &mut DefaultHasher, n: u32)
    ensures
        final(hasher)@ == old(hasher)@.push(word_write(n)),
{
    let bytes = u32_to_le_bytes(n);
    hasher.write(bytes.as_slice());
}

fn write_long(hasher: &mut DefaultHasher, n: u64)
    ensures
        final(hasher)@ == old(hasher)@.push(long_write(n)),
{
    let bytes = u64_to_le_bytes(n);
    hasher.write(bytes.as_slice());
}

fn write_id(hasher: &mut DefaultHasher, id: usize)
    ensures
        final(hasher)@ == old(hasher)@.push(id_write(id)),
{
    write_word(hasher, #[verifier::truncate] (id as u32));
}

fn write_text(hasher: &mut DefaultHasher, text: &str)
    ensures
        final(hasher)@ == old(hasher)@ + text_writes(text@),
{
    let ghost before = hasher@;
    hasher.write(text.as_bytes());
    write_byte(hasher, 0xff);
    assert(hasher@ =~= before + text_writes(text@));
}

fn write_ids(hasher: &mut DefaultHasher, ids: &Vec<ExprId>)
    ensures
        final(hasher)@ == old(hasher)@ + ids_writes(ids@, ids@.len()),
{
    let ghost before = hasher@;
    let mut i: usize = 0;
    assert(hasher@ =~= before + ids_writes(ids@, 0));
    while i < ids.len()
        invariant
            i <= ids@.len(),
            hasher@ == before + ids_writes(ids@, i as nat),
        decreases ids@.len() - i,
    {
        write_id(hasher, ids[i].0);
        i += 1;
        assert(hasher@ =~= before + ids_writes(ids@, i as nat));
    }
}

fn number_of_unary(op: UnaryOp) -> (n: u64)
    ensures
        n == unary_number(op),
{
    match op {
        UnaryOp::Neg => 0,
        UnaryOp::Not => 1,
    }
}

fn number_of_binary(op: BinaryOp) -> (n: u64)
    ensures
        n == binary_number(op),
{
    match op {
        BinaryOp::Add => 0,
        BinaryOp::Sub => 1,
        BinaryOp::Mul => 2,
        BinaryOp::Div => 3,
        BinaryOp::Mod => 4,
        BinaryOp::Eq => 5,
        BinaryOp::Ne => 6,
        BinaryOp::Lt => 7,
        BinaryOp::Le => 8,
        BinaryOp::Gt => 9,
        BinaryOp::Ge => 10,
        BinaryOp::And => 11,
        BinaryOp::Or => 12,
    }
}

fn hash_literal(hasher: &mut DefaultHasher, literal: &Literal)
    ensures
        final(hasher)@ == old(hasher)@ + literal_writes(literal@),
{
    let ghost before = hasher@;
    match literal {
        Literal::Unit => {
            write_byte(hasher, 0);
        },
        Literal::Bool(value) => {
            write_byte(hasher, 1);
            write_byte(hasher, if *value { 1 } else { 0 });
        },
        Literal::Int(value) => {
            write_byte(hasher, 2);
            write_long(hasher, #[verifier::truncate] (*value as u64));
        },
        Literal::Float(bits) => {
            write_byte(hasher, 3);
            write_long(hasher, *bits);
        },
        Literal::Char(value) => {
            write_byte(hasher, 4);
            write_word(hasher, *value as u32);
        },
        Literal::String(value) => {
            write_byte(hasher, 5);
            write_text(hasher, value.as_str());
        },
    }
    assert(hasher@ =~= before + literal_writes(literal@));
}

fn hash_expr(hasher: &mut DefaultHasher, node: &ExprNode)
    ensures
        final(hasher)@ == old(hasher)@ + expr_writes(node@),
{
    let ghost before = hasher@;
    write_word(hasher, node.span.start);
    write_word(hasher, node.span.end);
    match &node.kind {
        ExprKind::Literal(literal) => {
            write_text(hasher, "lit");
            hash_literal(hasher, literal);
        },
        ExprKind::Var(var) => {
            write_text(hasher, "var");
            write_id(hasher, var.0);
        },
        ExprKind::Unary { op, expr } => {
            write_text(hasher, "un");
            write_long(hasher, number_of_unary(*op));
            write_id(hasher, expr.0);
        },
        ExprKind::Binary { op, lhs, rhs } => {
            write_text(hasher, "bin");
            write_long(hasher, number_of_binary(*op));
            write_id(hasher, lhs.0);
            write_id(hasher, rhs.0);
        },
        ExprKind::PureCall { callee, args } => {
            write_text(hasher, "call");
            write_id(hasher, callee.0);
            write_ids(hasher, args);
        },
        ExprKind::MakeStruct { ty, fields } => {
            write_text(hasher, "mk_struct");
            write_id(hasher, ty.0);
            write_ids(hasher, fields);
        },
        ExprKind::MakeEnum { ty, variant, fields } => {
            write_text(hasher, "mk_enum");
            write_id(hasher, ty.0);
            write_id(hasher, variant.0);
            write_ids(hasher, fields);
        },
        ExprKind::Error(error) => {
            write_text(hasher, "err");
            write_word(hasher, error.span.start);
            write_word(hasher, error.span.end);
            write_text(hasher, error.message.as_str());
        },
    }
    assert(hasher@ =~= before + expr_writes(node@));
}

/// The number that stands for the expressions of a program.
pub fn fingerprint_program(program: &CoreProgram) -> (n: u64)
    ensures
        n == fingerprint(program@.exprs),
{
    let ghost exprs = program@.exprs;
    let mut hasher = DefaultHasher::new();
    let mut i: usize = 0;
    while i < program.exprs.len()
        invariant
            i <= program.exprs@.len(),
            exprs == program@.exprs,
            hasher@ == exprs_writes(exprs, i as nat),
        decreases program.exprs@.len() - i,
    {
        assert(exprs[i as int] == program.exprs@[i as int]@);
        hash_expr(&mut hasher, &program.exprs[i]);
        i += 1;
    }
    hasher.finish()
}

/// The number that stands for a text.
pub fn hash_text(text: &str) -> (n: u64)
    ensures
        n == text_number(text@),
{
    let mut hasher = DefaultHasher::new();
    write_text(&mut hasher, text);
    assert(hasher@ =~= text_writes(text@));
    hasher.finish()
}

} // verus!
