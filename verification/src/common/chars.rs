//! Text as a list of characters: taking it apart, and putting it together.
use vstd::prelude::*;
use vstd::string::*;

verus! {

/// `String::push` appends the given character, and changes nothing else.
pub assume_specification[ std::string::String::push ](text: &mut std::string::String, c: char)
    ensures
        final(text)@ == old(text)@.push(c),
;

/// `char::from_u32` gives the character with a number: there is one for every
/// number up to 10FFFF, but for those from D800 to DFFF.
pub assume_specification[ char::from_u32 ](number: u32) -> (c: Option<char>)
    ensures
        c is Some <==> vstd::utf8::is_scalar(number),
        c matches Some(c) ==> c as u32 == number,
;

/// `String::from_utf8` gives the text that bytes stand for in UTF-8; it fails
/// just where the bytes stand for none. What it says about the failure is
/// dropped.
#[verifier::external_body]
pub(crate) fn text_from_utf8(bytes: Vec<u8>) -> (text: Option<String>)
    ensures
        text is Some <==> vstd::utf8::valid_utf8(bytes@),
        text matches Some(text) ==> text@ == vstd::utf8::decode_utf8(bytes@),
{
    String::from_utf8(bytes).ok()
}

/// The characters of a text.
pub fn chars_of(text: &str) -> (chars: Vec<char>)
    ensures
        chars@ == text@,
{
    let mut chars: Vec<char> = Vec::new();
    for c in it: text.chars()
        invariant
            it.seq() == text@,
            chars@ == it.seq().take(it.index() as int),
    {
        let ghost before = chars@;
        chars.push(c);
        assert(chars@ =~= text@.take(before.len() as int + 1));
    }
    assert(chars@ =~= text@);
    chars
}

/// The text that some of the characters of a list make up.
pub fn text_between(chars: &Vec<char>, from: usize, to: usize) -> (text: String)
    requires
        from <= to <= chars@.len(),
    ensures
        text@ == chars@.subrange(from as int, to as int),
{
    let mut text = String::new();
    let mut i: usize = from;
    assert(text@ =~= chars@.subrange(from as int, from as int));
    while i < to
        invariant
            from <= i <= to <= chars@.len(),
            text@ == chars@.subrange(from as int, i as int),
        decreases to - i,
    {
        text.push(chars[i]);
        i += 1;
        assert(text@ =~= chars@.subrange(from as int, i as int));
    }
    text
}

/// The text that a list of characters makes up.
pub fn text_of(chars: &Vec<char>) -> (text: String)
    ensures
        text@ == chars@,
{
    let text = text_between(chars, 0, chars.len());
    assert(text@ =~= chars@);
    text
}

/// Some of the characters of a list.
pub fn chars_between(chars: &Vec<char>, from: usize, to: usize) -> (part: Vec<char>)
    requires
        from <= to <= chars@.len(),
    ensures
        part@ == chars@.subrange(from as int, to as int),
{
    let mut part: Vec<char> = Vec::new();
    let mut i: usize = from;
    while i < to
        invariant
            from <= i <= to <= chars@.len(),
            part@ == chars@.subrange(from as int, i as int),
        decreases to - i,
    {
        part.push(chars[i]);
        i += 1;
        assert(part@ =~= chars@.subrange(from as int, i as int));
    }
    part
}

/// Whether two lists of characters are the same.
pub fn same_chars(a: &Vec<char>, b: &Vec<char>) -> (same: bool)
    ensures
        same == (a@ == b@),
{
    if a.len() != b.len() {
        return false;
    }
    let mut i: usize = 0;
    while i < a.len()
        invariant
            i <= a@.len() == b@.len(),
            forall|j: int| 0 <= j < i ==> a@[j] == b@[j],
        decreases a@.len() - i,
    {
        if a[i] != b[i] {
            return false;
        }
        i += 1;
    }
    assert(a@ =~= b@);
    true
}

/// Whether a list of characters is a given text.
pub fn is_text(chars: &Vec<char>, text: &str) -> (same: bool)
    ensures
        same == (chars@ == text@),
{
    let other = chars_of(text);
    same_chars(chars, &other)
}

// ---------------------------------------------------------------------------
// The order of texts
// ---------------------------------------------------------------------------

/// Whether a text comes before another, or is the same: by the first character
/// in which they differ, and else by length.
pub open spec fn text_le(a: Seq<char>, b: Seq<char>) -> bool
    decreases a.len(),
{
    if a.len() == 0 {
        true
    } else if b.len() == 0 {
        false
    } else if a[0] == b[0] {
        text_le(a.drop_first(), b.drop_first())
    } else {
        (a[0] as u32) < (b[0] as u32)
    }
}

/// Two texts that come before one another are the same.
pub proof fn lemma_text_le_antisymmetric(a: Seq<char>, b: Seq<char>)
    requires
        text_le(a, b),
        text_le(b, a),
    ensures
        a == b,
    decreases a.len(),
{
    if a.len() == 0 || b.len() == 0 {
        assert(a =~= b);
    } else {
        lemma_text_le_antisymmetric(a.drop_first(), b.drop_first());
        assert(a =~= seq![a[0]] + a.drop_first());
        assert(b =~= seq![b[0]] + b.drop_first());
    }
}

pub proof fn lemma_text_le_total(a: Seq<char>, b: Seq<char>)
    ensures
        text_le(a, b) || text_le(b, a),
        text_le(a, a),
    decreases a.len(),
{
    if a.len() > 0 {
        lemma_text_le_total(a.drop_first(), b.drop_first());
        if b.len() == 0 {
            assert(text_le(b, a));
        } else if a[0] == b[0] {
            assert(text_le(b, a) == text_le(b.drop_first(), a.drop_first()));
        } else {
            let x: char = a[0];
            let y: char = b[0];
            vstd::utf8::char_u32_cast(x, x as u32);
            vstd::utf8::char_u32_cast(y, y as u32);
            assert(x as u32 != y as u32);
            assert(text_le(a, b) == ((x as u32) < (y as u32)));
            assert(text_le(b, a) == ((y as u32) < (x as u32)));
        }
    }
}

pub proof fn lemma_text_le_transitive(a: Seq<char>, b: Seq<char>, c: Seq<char>)
    requires
        text_le(a, b),
        text_le(b, c),
    ensures
        text_le(a, c),
    decreases a.len(),
{
    if a.len() > 0 && b.len() > 0 && c.len() > 0 && a[0] == b[0] && b[0] == c[0] {
        lemma_text_le_transitive(a.drop_first(), b.drop_first(), c.drop_first());
    }
}

fn chars_le(a: &Vec<char>, b: &Vec<char>) -> (le: bool)
    ensures
        le == text_le(a@, b@),
{
    let mut i: usize = 0;
    assert(a@.skip(0) =~= a@);
    assert(b@.skip(0) =~= b@);
    while i < a.len() && i < b.len()
        invariant
            i <= a@.len(),
            i <= b@.len(),
            text_le(a@, b@) == text_le(a@.skip(i as int), b@.skip(i as int)),
        decreases a@.len() - i,
    {
        assert(a@.skip(i as int)[0] == a@[i as int]);
        assert(b@.skip(i as int)[0] == b@[i as int]);
        if a[i] != b[i] {
            return (a[i] as u32) < (b[i] as u32);
        }
        assert(a@.skip(i as int).drop_first() =~= a@.skip(i as int + 1));
        assert(b@.skip(i as int).drop_first() =~= b@.skip(i as int + 1));
        i += 1;
    }
    i >= a.len()
}

/// Whether a text comes before another, or is the same.
pub fn is_text_le(a: &str, b: &str) -> (le: bool)
    ensures
        le == text_le(a@, b@),
{
    let left = chars_of(a);
    let right = chars_of(b);
    chars_le(&left, &right)
}

// ---------------------------------------------------------------------------
// Numbers
// ---------------------------------------------------------------------------

pub open spec fn is_digit(c: char) -> bool {
    '0' <= c && c <= '9'
}

/// The number that the first digits of a text make up.
pub open spec fn digits_value(text: Seq<char>, first: int) -> nat
    decreases first,
{
    if first <= 0 {
        0
    } else {
        digits_value(text, first - 1) * 10 + (text[first - 1] as nat - '0' as nat) as nat
    }
}

/// A text of digits, and at least one.
pub open spec fn all_digits(text: Seq<char>) -> bool {
    &&& text.len() > 0
    &&& forall|i: int| 0 <= i < text.len() ==> is_digit(#[trigger] text[i])
}

/// The number that a text stands for: digits, with a plus in front or not.
pub open spec fn number(text: Seq<char>) -> Option<nat> {
    let digits = if text.len() > 0 && text[0] == '+' {
        text.drop_first()
    } else {
        text
    };
    if all_digits(digits) {
        Some(digits_value(digits, digits.len() as int))
    } else {
        None
    }
}

/// The number that a text stands for, if it is not too large.
pub open spec fn number_up_to(text: Seq<char>, max: nat) -> Option<nat> {
    match number(text) {
        Some(n) => if n <= max {
            Some(n)
        } else {
            None
        },
        None => None,
    }
}

/// The integer that a text stands for: digits, with a sign in front or not.
pub open spec fn integer(text: Seq<char>) -> Option<int> {
    if text.len() > 0 && text[0] == '-' {
        if all_digits(text.drop_first()) {
            Some(-(digits_value(text.drop_first(), text.len() - 1) as int))
        } else {
            None
        }
    } else {
        match number(text) {
            Some(n) => Some(n as int),
            None => None,
        }
    }
}

proof fn lemma_digits_grow(text: Seq<char>, m: int, n: int)
    requires
        0 <= m <= n <= text.len(),
    ensures
        digits_value(text, m) <= digits_value(text, n),
    decreases n - m,
{
    if m < n {
        lemma_digits_grow(text, m, n - 1);
    }
}

/// The number that the characters from some place on make up, if they are
/// digits and it is not too large.
fn parse_digits(chars: &Vec<char>, from: usize, max: u64) -> (n: Option<u64>)
    requires
        from <= chars@.len(),
    ensures
        match n {
            Some(n) => all_digits(chars@.skip(from as int)) && n == digits_value(
                chars@.skip(from as int),
                chars@.len() - from,
            ) && n <= max,
            None => !all_digits(chars@.skip(from as int)) || digits_value(
                chars@.skip(from as int),
                chars@.len() - from,
            ) > max,
        },
{
    let ghost text = chars@.skip(from as int);
    if from == chars.len() {
        return None;
    }
    let mut n: u64 = 0;
    let mut i: usize = from;
    while i < chars.len()
        invariant
            from <= i <= chars@.len(),
            from < chars@.len(),
            text == chars@.skip(from as int),
            forall|j: int| 0 <= j < i - from ==> is_digit(#[trigger] text[j]),
            n == digits_value(text, i - from),
            n <= max,
        decreases chars@.len() - i,
    {
        let c = chars[i];
        assert(text[i - from] == c);
        if c < '0' || c > '9' {
            assert(!is_digit(text[i - from]));
            return None;
        }
        let d: u128 = (c as u32 - '0' as u32) as u128;
        let wide: u128 = n as u128 * 10 + d;
        assert(wide == digits_value(text, i - from + 1));
        if wide > max as u128 {
            proof {
                lemma_digits_grow(text, i - from + 1, text.len() as int);
            }
            return None;
        }
        n = wide as u64;
        i += 1;
    }
    Some(n)
}

/// The number that a text stands for, if it is not too large.
pub fn parse_number(chars: &Vec<char>, max: u64) -> (n: Option<u64>)
    ensures
        match n {
            Some(n) => number_up_to(chars@, max as nat) == Some(n as nat),
            None => number_up_to(chars@, max as nat) is None,
        },
{
    if chars.len() > 0 && chars[0] == '+' {
        assert(chars@.skip(1) =~= chars@.drop_first());
        parse_digits(chars, 1, max)
    } else {
        assert(chars@.skip(0) =~= chars@);
        parse_digits(chars, 0, max)
    }
}

/// The integer of sixty-four bits that a text stands for.
pub fn parse_integer(chars: &Vec<char>) -> (n: Option<i64>)
    ensures
        match integer(chars@) {
            Some(value) => if i64::MIN <= value <= i64::MAX {
                n is Some && n->0 == value
            } else {
                n is None
            },
            None => n is None,
        },
{
    if chars.len() > 0 && chars[0] == '-' {
        assert(chars@.skip(1) =~= chars@.drop_first());
        match parse_digits(chars, 1, 0x8000_0000_0000_0000) {
            Some(size) => {
                let value: i128 = -(size as i128);
                Some(value as i64)
            },
            None => None,
        }
    } else {
        match parse_number(chars, 0x7fff_ffff_ffff_ffff) {
            Some(size) => Some(size as i64),
            None => None,
        }
    }
}

/// The text of an integer.
pub open spec fn integer_text(value: int) -> Seq<char> {
    if value < 0 {
        "-"@ + crate::common::text::decimal((-value) as nat)
    } else {
        crate::common::text::decimal(value as nat)
    }
}

/// Appends the text of an integer.
pub fn push_integer(out: &mut String, value: i64)
    ensures
        final(out)@ == old(out)@ + integer_text(value as int),
{
    if value < 0 {
        out.append("-");
        let size: i128 = -(value as i128);
        let ghost before = out@;
        crate::common::text::push_decimal(out, size as u64);
        assert(out@ =~= old(out)@ + ("-"@ + crate::common::text::decimal(size as nat)));
    } else {
        crate::common::text::push_decimal(out, value as u64);
    }
}

proof fn lemma_digit(d: nat)
    requires
        d < 10,
    ensures
        crate::common::text::digit(d).len() == 1,
        is_digit(crate::common::text::digit(d)[0]),
        crate::common::text::digit(d)[0] as nat - '0' as nat == d,
{
    reveal_strlit("0");
    reveal_strlit("1");
    reveal_strlit("2");
    reveal_strlit("3");
    reveal_strlit("4");
    reveal_strlit("5");
    reveal_strlit("6");
    reveal_strlit("7");
    reveal_strlit("8");
    reveal_strlit("9");
}

proof fn lemma_digits_prefix(a: Seq<char>, b: Seq<char>, first: int)
    requires
        first <= a.len(),
        first <= b.len(),
        forall|i: int| 0 <= i < first ==> a[i] == b[i],
    ensures
        digits_value(a, first) == digits_value(b, first),
    decreases first,
{
    if first > 0 {
        lemma_digits_prefix(a, b, first - 1);
    }
}

/// The decimal text of a number is read back as that number.
pub proof fn lemma_decimal_read_back(n: nat)
    ensures
        all_digits(crate::common::text::decimal(n)),
        digits_value(
            crate::common::text::decimal(n),
            crate::common::text::decimal(n).len() as int,
        ) == n,
        number(crate::common::text::decimal(n)) == Some(n),
    decreases n,
{
    let text = crate::common::text::decimal(n);
    if n < 10 {
        lemma_digit(n);
        assert(digits_value(text, 0) == 0);
    } else {
        lemma_decimal_read_back(n / 10);
        lemma_digit(n % 10);
        let front = crate::common::text::decimal(n / 10);
        let last = crate::common::text::digit(n % 10);
        assert(text == front + last);
        assert forall|i: int| 0 <= i < text.len() implies is_digit(#[trigger] text[i]) by {
            if i < front.len() {
                assert(text[i] == front[i]);
            } else {
                assert(text[i] == last[0]);
            }
        }
        lemma_digits_prefix(text, front, front.len() as int);
        assert(text[front.len() as int] == last[0]);
    }
    assert(is_digit(text[0]));
}

/// The text of an integer is read back as that integer.
pub proof fn lemma_integer_read_back(value: int)
    ensures
        integer(integer_text(value)) == Some(value),
{
    if value < 0 {
        reveal_strlit("-");
        lemma_decimal_read_back((-value) as nat);
        let digits = crate::common::text::decimal((-value) as nat);
        assert(integer_text(value).drop_first() =~= digits);
    } else {
        lemma_decimal_read_back(value as nat);
        assert(is_digit(crate::common::text::decimal(value as nat)[0]));
    }
}

} // verus!
