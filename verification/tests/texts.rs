use cielo::common::chars::{chars_of, is_text_le, parse_integer, parse_number, push_integer};
use cielo::common::keys::{distinct_keys, find_last};
use cielo::common::tsv::{split_fields, split_lines};
use cielo::ir::core_ir::Literal;
use cielo::pipeline::literal_text::{decode_literal, encode_literal};

fn decode(text: &str) -> Option<Literal> {
    decode_literal(&chars_of(text))
}

fn lines(text: &str) -> Vec<String> {
    split_lines(&chars_of(text)).iter().map(|line| line.iter().collect()).collect()
}

fn fields(text: &str, count: usize) -> Vec<String> {
    split_fields(&chars_of(text), count).iter().map(|part| part.iter().collect()).collect()
}

#[test]
fn lines_are_those_of_std() {
    for text in ["", "a", "a\n", "a\nb", "a\r\nb\r\n", "\n\n", "a\r", "\r\n", "x\n\ny", "a\r\r\nb"] {
        let expected: Vec<String> = text.lines().map(|line| line.to_owned()).collect();
        assert_eq!(lines(text), expected, "{:?}", text);
    }
}

#[test]
fn fields_are_those_of_std() {
    for text in ["", "a", "a\tb", "a\tb\tc", "a\tb\tc\td", "\t\t", "\t\t\t\t"] {
        for count in [1, 2, 3, 4] {
            let expected: Vec<String> =
                text.splitn(count, '\t').map(|part| part.to_owned()).collect();
            assert_eq!(fields(text, count), expected, "{:?}", text);
        }
    }
}

#[test]
fn numbers_are_read_as_std_reads_them() {
    for text in ["0", "007", "+5", "255", "256", "", "+", "-1", "1a", " 1", "++1", "18446744073709551615", "18446744073709551616"] {
        assert_eq!(parse_number(&chars_of(text), u64::MAX), text.parse::<u64>().ok(), "{:?}", text);
        assert_eq!(
            parse_number(&chars_of(text), 255),
            text.parse::<u8>().ok().map(u64::from),
            "{:?}",
            text
        );
    }
}

#[test]
fn integers_are_read_as_std_reads_them() {
    for text in [
        "0", "-0", "-7", "+7", "", "-", "+", "9223372036854775807", "9223372036854775808",
        "-9223372036854775808", "-9223372036854775809", "1-", "--1",
    ] {
        assert_eq!(parse_integer(&chars_of(text)), text.parse::<i64>().ok(), "{:?}", text);
    }
}

#[test]
fn integers_are_written_as_std_writes_them() {
    for value in [0, 1, -1, 10, -10, i64::MAX, i64::MIN, i64::MIN + 1] {
        let mut text = String::new();
        push_integer(&mut text, value);
        assert_eq!(text, value.to_string());
    }
}

#[test]
fn texts_are_ordered_as_std_orders_them() {
    let texts = ["", "a", "ab", "b", "B", "a\u{e9}", "a\u{10000}", "a\u{ffff}"];
    for a in texts {
        for b in texts {
            assert_eq!(is_text_le(a, b), a <= b, "{:?} {:?}", a, b);
        }
    }
}

#[test]
fn keys_are_in_order_and_each_once() {
    let all: Vec<String> = ["b", "a", "c", "a", "b"].iter().map(|key| key.to_string()).collect();
    assert_eq!(distinct_keys(&all), vec!["a".to_owned(), "b".to_owned(), "c".to_owned()]);
    assert_eq!(find_last(&all, &"a".to_owned()), Some(3));
    assert_eq!(find_last(&all, &"c".to_owned()), Some(2));
    assert_eq!(find_last(&all, &"d".to_owned()), None);
}

#[test]
fn literals_have_fixed_texts() {
    assert_eq!(encode_literal(&Literal::Unit), "u");
    assert_eq!(encode_literal(&Literal::Bool(true)), "b:1");
    assert_eq!(encode_literal(&Literal::Bool(false)), "b:0");
    assert_eq!(encode_literal(&Literal::Int(-42)), "i:-42");
    assert_eq!(encode_literal(&Literal::Float(1.5f64.to_bits())), format!("f:{}", 1.5f64.to_bits()));
    assert_eq!(encode_literal(&Literal::Char('A')), "c:65");
    assert_eq!(encode_literal(&Literal::String("A\u{e9}\n".to_owned())), "s:41c3a90a");
    assert_eq!(encode_literal(&Literal::String(String::new())), "s:");
}

#[test]
fn literals_are_read_back() {
    let all = vec![
        Literal::Unit,
        Literal::Bool(true),
        Literal::Bool(false),
        Literal::Int(i64::MIN),
        Literal::Int(i64::MAX),
        Literal::Float(f64::NAN.to_bits()),
        Literal::Float((-0.0f64).to_bits()),
        Literal::Char('\u{10ffff}'),
        Literal::Char('\0'),
        Literal::String("tab\tline\n\u{1f600}".to_owned()),
        Literal::String(String::new()),
    ];
    for literal in all {
        let read = decode(&encode_literal(&literal));
        assert_eq!(format!("{:?}", read), format!("{:?}", Some(literal)));
    }
}

#[test]
fn other_texts_stand_for_no_literal() {
    for text in [
        "", "x", "u:", "b", "b:2", "b:", "i:", "i:1.5", "i:9223372036854775808", "f:-1", "f:x",
        "c:55296", "c:1114112", "c:-1", "s:4", "s:4g", "s:ff", "s:c3", "q:1", ":1",
    ] {
        assert!(decode(text).is_none(), "{:?}", text);
    }
}

#[test]
fn hexadecimal_is_read_in_either_case() {
    assert!(matches!(decode("s:4A4b"), Some(Literal::String(text)) if text == "JK"));
}

#[test]
fn a_colon_in_the_value_belongs_to_it() {
    assert!(decode("i:1:2").is_none());
    assert!(matches!(decode("i:+3"), Some(Literal::Int(3))));
}
