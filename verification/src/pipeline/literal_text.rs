//! The text in which literals are stored.
use crate::common::chars::{
    chars_between, is_text, parse_integer, parse_number, push_integer, text_from_utf8,
};
use crate::common::text::{push_decimal, push_text};
use crate::ir::core_ir::{Literal, LiteralModel};
use vstd::prelude::*;
use vstd::string::*;

verus! {

// ---------------------------------------------------------------------------
// Bytes in hexadecimal
// ---------------------------------------------------------------------------

/// The character of a number below sixteen.
pub open spec fn nibble(n: int) -> char {
    if n < 10 {
        (48 + n) as char
    } else {
        (87 + n) as char
    }
}

/// The number that a character stands for, in either case.
pub open spec fn nibble_value(c: char) -> Option<u8> {
    if '0' <= c && c <= '9' {
        Some((c as u32 - 48) as u8)
    } else if 'a' <= c && c <= 'f' {
        Some((c as u32 - 87) as u8)
    } else if 'A' <= c && c <= 'F' {
        Some((c as u32 - 55) as u8)
    } else {
        None
    }
}

/// Bytes as text: two characters each.
pub open spec fn hex(bytes: Seq<u8>) -> Seq<char> {
    Seq::new(
        bytes.len() * 2,
        |i: int|
            if i % 2 == 0 {
                nibble((bytes[i / 2] / 16) as int)
            } else {
                nibble((bytes[i / 2] % 16) as int)
            },
    )
}

/// The first bytes that a text stands for.
pub open spec fn unhex(text: Seq<char>, first: nat) -> Option<Seq<u8>>
    decreases first,
{
    if first == 0 {
        Some(Seq::empty())
    } else {
        match (
            unhex(text, (first - 1) as nat),
            nibble_value(text[2 * first - 2]),
            nibble_value(text[2 * first - 1]),
        ) {
            (Some(bytes), Some(high), Some(low)) => Some(bytes.push((high * 16 + low) as u8)),
            _ => None,
        }
    }
}

fn nibble_char(n: u8) -> (c: char)
    requires
        n < 16,
    ensures
        c == nibble(n as int),
{
    if n < 10 {
        (48 + n) as char
    } else {
        (87 + n) as char
    }
}

fn push_hex(out: &mut String, bytes: &[u8])
    ensures
        final(out)@ == old(out)@ + hex(bytes@),
{
    let ghost before = out@;
    let mut i: usize = 0;
    assert(out@ =~= before + hex(bytes@).take(0));
    while i < bytes.len()
        invariant
            i <= bytes@.len(),
            out@ == before + hex(bytes@).take(2 * i),
        decreases bytes@.len() - i,
    {
        let byte = bytes[i];
        out.push(nibble_char(byte / 16));
        out.push(nibble_char(byte % 16));
        proof {
            let all = hex(bytes@);
            assert(all[2 * i] == nibble((byte / 16) as int));
            assert(all[2 * i + 1] == nibble((byte % 16) as int));
            assert(out@ =~= before + all.take(2 * i + 2));
        }
        i += 1;
    }
    assert(hex(bytes@).take(2 * i) =~= hex(bytes@));
}

fn decode_nibble(c: char) -> (n: Option<u8>)
    ensures
        n == nibble_value(c),
        n matches Some(n) ==> n < 16,
{
    let code = c as u32;
    if '0' <= c && c <= '9' {
        Some((code - 48) as u8)
    } else if 'a' <= c && c <= 'f' {
        Some((code - 87) as u8)
    } else if 'A' <= c && c <= 'F' {
        Some((code - 55) as u8)
    } else {
        None
    }
}

proof fn lemma_unhex_fail(text: Seq<char>, m: nat, n: nat)
    requires
        m <= n,
        unhex(text, m) is None,
    ensures
        unhex(text, n) is None,
    decreases n - m,
{
    if m < n {
        lemma_unhex_fail(text, m, (n - 1) as nat);
    }
}

/// The bytes that a text stands for.
pub open spec fn unhexed(text: Seq<char>) -> Option<Seq<u8>> {
    if text.len() % 2 == 0 {
        unhex(text, text.len() / 2)
    } else {
        None
    }
}

fn decode_hex(text: &Vec<char>) -> (bytes: Option<Vec<u8>>)
    ensures
        match bytes {
            Some(bytes) => unhexed(text@) == Some(bytes@),
            None => unhexed(text@) is None,
        },
{
    if text.len() % 2 != 0 {
        return None;
    }
    let n: usize = text.len();
    let half = n / 2;
    let mut bytes: Vec<u8> = Vec::new();
    let mut i: usize = 0;
    while i < half
        invariant
            i <= half,
            2 * half == n,
            n == text@.len(),
            unhex(text@, i as nat) == Some(bytes@),
        decreases half - i,
    {
        let high = decode_nibble(text[2 * i]);
        let low = decode_nibble(text[2 * i + 1]);
        match (high, low) {
            (Some(high), Some(low)) => {
                bytes.push(high * 16 + low);
            },
            _ => {
                proof {
                    assert(unhex(text@, (i + 1) as nat) is None);
                    lemma_unhex_fail(text@, (i + 1) as nat, half as nat);
                }
                return None;
            },
        }
        i += 1;
    }
    Some(bytes)
}

proof fn lemma_nibble(n: int)
    requires
        0 <= n < 16,
    ensures
        nibble_value(nibble(n)) == Some(n as u8),
{
}

/// Bytes are read back from their text.
pub proof fn lemma_hex_read_back(bytes: Seq<u8>, first: nat)
    requires
        first <= bytes.len(),
    ensures
        unhex(hex(bytes), first) == Some(bytes.take(first as int)),
        first == bytes.len() ==> unhexed(hex(bytes)) == Some(bytes),
    decreases first,
{
    if first > 0 {
        lemma_hex_read_back(bytes, (first - 1) as nat);
        let text = hex(bytes);
        let byte = bytes[first - 1];
        lemma_nibble((byte / 16) as int);
        lemma_nibble((byte % 16) as int);
        assert(text[2 * first - 2] == nibble((byte / 16) as int));
        assert(text[2 * first - 1] == nibble((byte % 16) as int));
        assert(bytes.take(first as int) =~= bytes.take(first - 1).push(byte));
    } else {
        assert(bytes.take(0) =~= Seq::empty());
    }
    assert(bytes.take(bytes.len() as int) =~= bytes);
}

// ---------------------------------------------------------------------------
// Literals
// ---------------------------------------------------------------------------

/// The text of a literal: a letter for its kind, a colon, and its value.
pub open spec fn literal_text(literal: LiteralModel) -> Seq<char> {
    match literal {
        LiteralModel::Unit => "u"@,
        LiteralModel::Bool(value) => if value {
            "b:1"@
        } else {
            "b:0"@
        },
        LiteralModel::Int(value) => "i:"@ + crate::common::chars::integer_text(value as int),
        LiteralModel::Float(bits) => "f:"@ + crate::common::text::decimal(bits as nat),
        LiteralModel::Char(value) => "c:"@ + crate::common::text::decimal(value as nat),
        LiteralModel::String(value) => "s:"@ + hex(vstd::utf8::encode_utf8(value)),
    }
}

/// The literal that a kind and a value stand for.
pub open spec fn tagged(tag: Seq<char>, value: Seq<char>) -> Option<LiteralModel> {
    if tag == "b"@ {
        if value == "0"@ {
            Some(LiteralModel::Bool(false))
        } else if value == "1"@ {
            Some(LiteralModel::Bool(true))
        } else {
            None
        }
    } else if tag == "i"@ {
        match crate::common::chars::integer(value) {
            Some(n) => if i64::MIN <= n <= i64::MAX {
                Some(LiteralModel::Int(n as i64))
            } else {
                None
            },
            None => None,
        }
    } else if tag == "f"@ {
        match crate::common::chars::number_up_to(value, u64::MAX as nat) {
            Some(n) => Some(LiteralModel::Float(n as u64)),
            None => None,
        }
    } else if tag == "c"@ {
        match crate::common::chars::number_up_to(value, u32::MAX as nat) {
            Some(n) => if vstd::utf8::is_scalar(n as u32) {
                Some(LiteralModel::Char(n as u32 as char))
            } else {
                None
            },
            None => None,
        }
    } else if tag == "s"@ {
        match unhexed(value) {
            Some(bytes) => if vstd::utf8::valid_utf8(bytes) {
                Some(LiteralModel::String(vstd::utf8::decode_utf8(bytes)))
            } else {
                None
            },
            None => None,
        }
    } else {
        None
    }
}

/// The literal that a text stands for.
pub open spec fn literal_of(text: Seq<char>) -> Option<LiteralModel> {
    if text == "u"@ {
        Some(LiteralModel::Unit)
    } else {
        let at = crate::common::tsv::until(text, ':', 0);
        if at < text.len() {
            tagged(text.take(at), text.skip(at + 1))
        } else {
            None
        }
    }
}

/// Appends the text of a literal.
pub(crate) fn push_literal(out: &mut String, literal: &Literal)
    ensures
        final(out)@ == old(out)@ + literal_text(literal@),
{
    let ghost before = out@;
    match literal {
        Literal::Unit => {
            push_text(out, "u");
        },
        Literal::Bool(value) => {
            if *value {
                push_text(out, "b:1");
            } else {
                push_text(out, "b:0");
            }
        },
        Literal::Int(value) => {
            push_text(out, "i:");
            push_integer(out, *value);
        },
        Literal::Float(bits) => {
            push_text(out, "f:");
            push_decimal(out, *bits);
        },
        Literal::Char(value) => {
            push_text(out, "c:");
            push_decimal(out, *value as u32 as u64);
        },
        Literal::String(value) => {
            push_text(out, "s:");
            push_hex(out, value.as_str().as_bytes());
        },
    }
    assert(out@ =~= before + literal_text(literal@));
}

/// The text of a literal.
pub fn encode_literal(literal: &Literal) -> (text: String)
    ensures
        text@ == literal_text(literal@),
{
    let mut text = String::new();
    push_literal(&mut text, literal);
    assert(text@ =~= literal_text(literal@));
    text
}

fn decode_tagged(tag: &Vec<char>, value: &Vec<char>) -> (literal: Option<Literal>)
    ensures
        crate::passes::ct_common::model_of(literal) == tagged(tag@, value@),
{
    proof {
        reveal_strlit("b");
        reveal_strlit("i");
        reveal_strlit("f");
        reveal_strlit("c");
        reveal_strlit("s");
        reveal_strlit("0");
        reveal_strlit("1");
    }
    if is_text(tag, "b") {
        if is_text(value, "0") {
            Some(Literal::Bool(false))
        } else if is_text(value, "1") {
            Some(Literal::Bool(true))
        } else {
            None
        }
    } else if is_text(tag, "i") {
        match parse_integer(value) {
            Some(n) => Some(Literal::Int(n)),
            None => None,
        }
    } else if is_text(tag, "f") {
        match parse_number(value, 0xffff_ffff_ffff_ffff) {
            Some(n) => Some(Literal::Float(n)),
            None => None,
        }
    } else if is_text(tag, "c") {
        match parse_number(value, 0xffff_ffff) {
            Some(n) => match char::from_u32(n as u32) {
                Some(c) => {
                    proof {
                        vstd::utf8::char_u32_cast(c, n as u32);
                    }
                    Some(Literal::Char(c))
                },
                None => None,
            },
            None => None,
        }
    } else if is_text(tag, "s") {
        match decode_hex(value) {
            Some(bytes) => match text_from_utf8(bytes) {
                Some(text) => Some(Literal::String(text)),
                None => None,
            },
            None => None,
        }
    } else {
        None
    }
}

/// The literal that a text stands for.
pub fn decode_literal(text: &Vec<char>) -> (literal: Option<Literal>)
    ensures
        crate::passes::ct_common::model_of(literal) == literal_of(text@),
{
    if is_text(text, "u") {
        return Some(Literal::Unit);
    }
    let mut at: usize = 0;
    while at < text.len() && text[at] != ':'
        invariant
            at <= text@.len(),
            crate::common::tsv::until(text@, ':', 0) == crate::common::tsv::until(
                text@,
                ':',
                at as int,
            ),
        decreases text@.len() - at,
    {
        at += 1;
    }
    if at == text.len() {
        return None;
    }
    let tag = chars_between(text, 0, at);
    let value = chars_between(text, at + 1, text.len());
    assert(tag@ =~= text@.take(at as int));
    assert(value@ =~= text@.skip(at as int + 1));
    decode_tagged(&tag, &value)
}

// ---------------------------------------------------------------------------
// Laws
// ---------------------------------------------------------------------------

/// A text that starts with a letter and a colon is taken apart there.
proof fn lemma_tag(text: Seq<char>, tag: Seq<char>, value: Seq<char>)
    requires
        tag.len() == 1,
        tag[0] != ':',
        text == tag + seq![':'] + value,
    ensures
        crate::common::tsv::until(text, ':', 0) == 1,
        text.take(1) == tag,
        text.skip(2) == value,
        text.len() >= 2,
{
    assert(text[0] == tag[0]);
    assert(text[1] == ':');
    assert(crate::common::tsv::until(text, ':', 1) == 1);
    assert(text.take(1) =~= tag);
    assert(text.skip(2) =~= value);
}

/// Every literal is read back from its text.
pub proof fn lemma_literal_read_back(literal: LiteralModel)
    ensures
        literal_of(literal_text(literal)) == Some(literal),
{
    reveal_strlit("u");
    reveal_strlit("b");
    reveal_strlit("i");
    reveal_strlit("f");
    reveal_strlit("c");
    reveal_strlit("s");
    reveal_strlit("0");
    reveal_strlit("1");
    reveal_strlit("b:0");
    reveal_strlit("b:1");
    reveal_strlit("i:");
    reveal_strlit("f:");
    reveal_strlit("c:");
    reveal_strlit("s:");
    let text = literal_text(literal);
    match literal {
        LiteralModel::Unit => {},
        LiteralModel::Bool(value) => {
            let payload = if value {
                "1"@
            } else {
                "0"@
            };
            assert(text =~= "b"@ + seq![':'] + payload);
            lemma_tag(text, "b"@, payload);
        },
        LiteralModel::Int(value) => {
            let payload = crate::common::chars::integer_text(value as int);
            assert(text =~= "i"@ + seq![':'] + payload);
            lemma_tag(text, "i"@, payload);
            crate::common::chars::lemma_integer_read_back(value as int);
        },
        LiteralModel::Float(bits) => {
            let payload = crate::common::text::decimal(bits as nat);
            assert(text =~= "f"@ + seq![':'] + payload);
            lemma_tag(text, "f"@, payload);
            crate::common::chars::lemma_decimal_read_back(bits as nat);
        },
        LiteralModel::Char(value) => {
            let payload = crate::common::text::decimal(value as nat);
            assert(text =~= "c"@ + seq![':'] + payload);
            lemma_tag(text, "c"@, payload);
            crate::common::chars::lemma_decimal_read_back(value as nat);
            vstd::utf8::char_is_scalar(value);
            vstd::utf8::char_u32_cast(value, value as u32);
            assert(value as nat as u32 == value as u32);
        },
        LiteralModel::String(value) => {
            let bytes = vstd::utf8::encode_utf8(value);
            let payload = hex(bytes);
            assert(text =~= "s"@ + seq![':'] + payload);
            lemma_tag(text, "s"@, payload);
            lemma_hex_read_back(bytes, bytes.len());
            vstd::utf8::encode_utf8_valid_utf8(value);
            vstd::utf8::encode_utf8_decode_utf8(value);
        },
    }
}

/// The text of a literal has no line feed and no carriage return in it.
pub proof fn lemma_literal_text_plain(literal: LiteralModel)
    ensures
        crate::common::tsv::free_of(literal_text(literal), '\n'),
        crate::common::tsv::free_of(literal_text(literal), '\r'),
{
    reveal_strlit("u");
    reveal_strlit("b:0");
    reveal_strlit("b:1");
    reveal_strlit("i:");
    reveal_strlit("f:");
    reveal_strlit("c:");
    reveal_strlit("s:");
    let text = literal_text(literal);
    assert forall|i: int| 0 <= i < text.len() implies (#[trigger] text[i]) != '\n' && text[i]
        != '\r' by {
        match literal {
            LiteralModel::Int(value) => {
                let digits = crate::common::text::decimal(
                    if value < 0 { -(value as int) } else { value as int } as nat,
                );
                crate::common::chars::lemma_decimal_read_back(
                    if value < 0 { -(value as int) } else { value as int } as nat,
                );
                reveal_strlit("-");
                let number = crate::common::chars::integer_text(value as int);
                if i >= 2 {
                    assert(text[i] == number[i - 2]);
                    if value < 0 && i >= 3 {
                        assert(number[i - 2] == digits[i - 3]);
                    }
                }
            },
            LiteralModel::Float(bits) => {
                crate::common::chars::lemma_decimal_read_back(bits as nat);
                if i >= 2 {
                    assert(text[i] == crate::common::text::decimal(bits as nat)[i - 2]);
                }
            },
            LiteralModel::Char(value) => {
                crate::common::chars::lemma_decimal_read_back(value as nat);
                if i >= 2 {
                    assert(text[i] == crate::common::text::decimal(value as nat)[i - 2]);
                }
            },
            LiteralModel::String(value) => {
                if i >= 2 {
                    assert(text[i] == hex(vstd::utf8::encode_utf8(value))[i - 2]);
                }
            },
            _ => {},
        }
    }
}

} // verus!
