use mandate_core::canonical::write_string;
use mandate_core::json::{clone_value, Number, Value};
use mandate_core::keysort::member_order;
use mandate_core::text::{
    bytes_equal, int_error_message, joined, parse_u64, push_decimal, push_decimal_text,
    push_signed_decimal, split_chars, strip_prefix_0x, IntErrorKind,
};
use mandate_core::types::default_true;
use mandate_core::unicode::{chars_of, push_utf8_char, utf16_units};

#[test]
fn fees_inclusive_defaults_to_true() {
    assert!(default_true());
}

#[test]
fn member_order_is_stable_by_utf16_key() {
    let ms = vec![
        ("b".to_string(), 0u8),
        ("\u{1f600}".to_string(), 1),
        ("a".to_string(), 2),
        ("b".to_string(), 3),
        ("\u{ff61}".to_string(), 4),
    ];
    assert_eq!(member_order(&ms), vec![2, 0, 3, 1, 4]);
    let empty: Vec<(String, u8)> = vec![];
    assert_eq!(member_order(&empty), Vec::<usize>::new());
}

#[test]
fn write_string_appends_a_literal() {
    let mut out = b"x".to_vec();
    write_string(&mut out, "q\"\u{0}");
    assert_eq!(out, b"x\"q\\\"\\u0000\"".to_vec());
}

#[test]
fn decimal_writers() {
    let mut out = Vec::new();
    push_decimal(&mut out, 907);
    push_signed_decimal(&mut out, -12);
    push_signed_decimal(&mut out, 0);
    assert_eq!(out, b"907-120".to_vec());
    let mut s = String::from("n=");
    push_decimal_text(&mut s, 10);
    assert_eq!(s, "n=10");
}

#[test]
fn splitting_on_a_character() {
    assert_eq!(split_chars("a:b::c", ':'), vec!["a", "b", "", "c"]);
    assert_eq!(split_chars("", ':'), vec![""]);
    assert_eq!(split_chars(":", ':'), vec!["", ""]);
}

#[test]
fn strip_0x_prefix() {
    assert_eq!(strip_prefix_0x("0xab"), Some("ab".to_string()));
    assert_eq!(strip_prefix_0x("0x"), Some(String::new()));
    assert_eq!(strip_prefix_0x("0X12"), None);
    assert_eq!(strip_prefix_0x("x0"), None);
}

#[test]
fn parse_u64_as_std_does() {
    assert_eq!(parse_u64("0"), Ok(0));
    assert_eq!(parse_u64("+7"), Ok(7));
    assert_eq!(parse_u64("18446744073709551615"), Ok(u64::MAX));
    assert_eq!(parse_u64(""), Err(IntErrorKind::Empty));
    assert_eq!(parse_u64("+"), Err(IntErrorKind::InvalidDigit));
    assert_eq!(parse_u64("-1"), Err(IntErrorKind::InvalidDigit));
    assert_eq!(parse_u64("1a"), Err(IntErrorKind::InvalidDigit));
    assert_eq!(parse_u64("18446744073709551616"), Err(IntErrorKind::PosOverflow));
    for text in ["", "+", "-1", "1a", "18446744073709551616", "99999999999999999999x"] {
        let ours = parse_u64(text).map_err(|k| int_error_message(&k));
        let std = text.parse::<u64>().map_err(|e| e.to_string());
        assert_eq!(ours, std, "input {:?}", text);
    }
}

#[test]
fn small_text_helpers() {
    assert_eq!(joined("ab", "cd"), "abcd");
    assert!(bytes_equal(b"abc", b"abc"));
    assert!(!bytes_equal(b"abc", b"abd"));
    assert!(!bytes_equal(b"abc", b"ab"));
    assert_eq!(chars_of("aé😀"), vec!['a', 'é', '😀']);
    assert_eq!(utf16_units("a😀"), vec![0x61, 0xd83d, 0xde00]);
    let mut out = Vec::new();
    push_utf8_char(&mut out, '€');
    assert_eq!(out, "€".as_bytes().to_vec());
}

#[test]
fn cloned_values_serialize_alike() {
    let v = Value::Object(vec![
        ("k".to_string(), Value::Array(vec![Value::Number(Number::NegInt(-3)), Value::Null])),
        ("f".to_string(), Value::Number(Number::Float("1e2".to_string()))),
    ]);
    assert_eq!(format!("{:?}", clone_value(&v)), format!("{:?}", v));
}

#[test]
fn written_strings_read_back_through_serde_json() {
    for s in ["", "plain", "q\"b\\s/", "\u{0}\u{1f}\u{7f}\t\n\r\u{8}\u{c}", "café 😀 \u{ffff}\u{e000}"] {
        let mut out = Vec::new();
        write_string(&mut out, s);
        let back: String = serde_json::from_slice(&out).unwrap();
        assert_eq!(back, s);
    }
}

#[test]
fn utf16_order_matches_str_order_outside_the_upper_bmp() {
    let words = ["", "a", "ab", "b", "z", "\u{7f}", "é", "\u{d7ff}", "😀", "😁", "𝄞", "a😀", "aé"];
    for x in words {
        for y in words {
            assert_eq!(mandate_core::order::utf16_cmp(x, y), x.cmp(y), "{:?} {:?}", x, y);
        }
    }
}
