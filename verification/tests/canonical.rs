use mandate_core::canonical::{base32_lower_no_pad, canonical_value, mandate_id, null_path};
use mandate_core::error::Error;
use mandate_core::json::{Number, Value};
use mandate_core::order::{utf16_cmp, utf16_lt};
use std::cmp::Ordering;

fn text(x: &str) -> Value {
    Value::String(x.to_string())
}

fn uint(x: u64) -> Value {
    Value::Number(Number::PosInt(x))
}

fn sint(x: i64) -> Value {
    Value::Number(Number::NegInt(x))
}

fn float(x: &str) -> Value {
    Value::Number(Number::Float(x.to_string()))
}

fn object(members: Vec<(&str, Value)>) -> Value {
    Value::Object(members.into_iter().map(|(k, v)| (k.to_string(), v)).collect())
}

fn canonical_text(v: &Value) -> String {
    String::from_utf8(canonical_value(v).unwrap()).unwrap()
}

#[test]
fn objects_canonicalize_independent_of_key_order() {
    let a = object(vec![("a", uint(1)), ("b", uint(2)), ("c", uint(3))]);
    let b = object(vec![("c", uint(3)), ("b", uint(2)), ("a", uint(1))]);
    assert_eq!(canonical_value(&a).unwrap(), canonical_value(&b).unwrap());
}

#[test]
fn keys_sorted_lexicographically() {
    let v = object(vec![("b", uint(1)), ("a", uint(2))]);
    assert_eq!(canonical_value(&v).unwrap(), br#"{"a":2,"b":1}"#.to_vec());
}

#[test]
fn no_whitespace_anywhere() {
    let v = Value::Array(vec![
        object(vec![("k", text("v"))]),
        uint(1),
        text("x"),
        Value::Null,
        Value::Bool(true),
    ]);
    assert_eq!(canonical_value(&v).unwrap(), br#"[{"k":"v"},1,"x",null,true]"#.to_vec());
}

#[test]
fn strings_get_minimal_jcs_escaping() {
    let v = text("a\"b\\c\nd\te");
    assert_eq!(canonical_value(&v).unwrap(), b"\"a\\\"b\\\\c\\nd\\te\"".to_vec());
}

#[test]
fn control_chars_are_uescaped() {
    let v = text("\x01");
    assert_eq!(canonical_value(&v).unwrap(), b"\"\\u0001\"".to_vec());
}

#[test]
fn unicode_strings_pass_through_as_utf8() {
    let v = text("café \u{1f600}");
    let expected = "\"café 😀\"".as_bytes().to_vec();
    assert_eq!(canonical_value(&v).unwrap(), expected);
}

#[test]
fn integers_serialize_as_decimal() {
    assert_eq!(canonical_value(&uint(0)).unwrap(), b"0".to_vec());
    assert_eq!(canonical_value(&sint(-5)).unwrap(), b"-5".to_vec());
    assert_eq!(canonical_value(&uint(1234567890)).unwrap(), b"1234567890".to_vec());
}

#[test]
fn floats_are_rejected_in_v0() {
    let v = float("1.5");
    assert!(canonical_value(&v).is_err());
}

#[test]
fn nested_objects_are_recursively_sorted() {
    let a = object(vec![
        ("outer", object(vec![("b", uint(1)), ("a", uint(2))])),
        ("first", Value::Bool(true)),
    ]);
    let b = object(vec![
        ("first", Value::Bool(true)),
        ("outer", object(vec![("a", uint(2)), ("b", uint(1))])),
    ]);
    assert_eq!(canonical_value(&a).unwrap(), canonical_value(&b).unwrap());
}

#[test]
fn array_order_is_preserved() {
    let v = Value::Array(vec![uint(3), uint(1), uint(2)]);
    assert_eq!(canonical_value(&v).unwrap(), b"[3,1,2]".to_vec());
}

#[test]
fn null_path_zeros_the_target() {
    let mut v = object(vec![("a", object(vec![("b", text("secret"))])), ("c", uint(1))]);
    null_path(&mut v, &["a", "b"]);
    let expected = object(vec![("a", object(vec![("b", Value::Null)])), ("c", uint(1))]);
    assert_eq!(format!("{:?}", v), format!("{:?}", expected));
}

#[test]
fn null_path_is_a_noop_for_missing_paths() {
    let mut v = object(vec![("a", uint(1))]);
    null_path(&mut v, &["x", "y"]);
    let expected = object(vec![("a", uint(1))]);
    assert_eq!(format!("{:?}", v), format!("{:?}", expected));
}

#[test]
fn mandate_id_format_matches_schema_regex() {
    let id = mandate_id(b"hello world");
    assert!(id.starts_with("mandate://b3:"));
    let suffix = &id["mandate://b3:".len()..];
    assert_eq!(suffix.len(), 52);
    assert!(suffix.chars().all(|c| matches!(c, 'a'..='z' | '2'..='7')));
}

#[test]
fn mandate_id_is_deterministic() {
    let id1 = mandate_id(b"hello");
    let id2 = mandate_id(b"hello");
    assert_eq!(id1, id2);
    assert_ne!(mandate_id(b"hello"), mandate_id(b"world"));
}

#[test]
fn utf16_cmp_handles_surrogate_pairs_correctly() {
    assert_eq!(utf16_cmp("a", "z"), Ordering::Less);
    assert_eq!(utf16_cmp("z", "\u{1f600}"), Ordering::Less);
}


#[test]
fn utf16_order_differs_from_code_point_order_above_the_bmp() {
    // U+FF61 sorts after U+1F600 by code point, but before it by UTF-16
    // code units (0xFF61 > 0xD83D).
    assert_eq!(utf16_cmp("\u{ff61}", "\u{1f600}"), Ordering::Greater);
    assert_eq!(utf16_cmp("\u{1f600}", "\u{ff61}"), Ordering::Less);
    assert_eq!(utf16_cmp("abc", "abc"), Ordering::Equal);
    assert_eq!(utf16_cmp("ab", "abc"), Ordering::Less);
    assert!(utf16_lt("", "a"));
    assert!(!utf16_lt("a", "a"));
}

#[test]
fn members_with_surrogate_keys_sort_by_code_units() {
    let v = object(vec![("\u{1f600}", uint(1)), ("\u{ff61}", uint(2)), ("a", uint(3))]);
    assert_eq!(
        canonical_text(&v),
        "{\"a\":3,\"\u{1f600}\":1,\"\u{ff61}\":2}".to_string()
    );
}

#[test]
fn member_order_law_on_a_permutation() {
    let a = object(vec![("x", uint(1)), ("y", Value::Array(vec![])), ("z", object(vec![]))]);
    let b = object(vec![("z", object(vec![])), ("x", uint(1)), ("y", Value::Array(vec![]))]);
    assert_eq!(canonical_text(&a), "{\"x\":1,\"y\":[],\"z\":{}}");
    assert_eq!(canonical_value(&a).unwrap(), canonical_value(&b).unwrap());
}

#[test]
fn escapes_of_every_short_form_and_other_controls() {
    let v = text("\u{8}\u{c}\r\u{1f}\u{7f}/");
    assert_eq!(canonical_text(&v), "\"\\b\\f\\r\\u001f\u{7f}/\"");
}

#[test]
fn extreme_integers() {
    assert_eq!(canonical_text(&uint(u64::MAX)), "18446744073709551615");
    assert_eq!(canonical_text(&sint(i64::MIN)), "-9223372036854775808");
}

#[test]
fn float_error_quotes_the_number() {
    let v = Value::Array(vec![uint(1), float("2.5e3"), float("7.25")]);
    match canonical_value(&v) {
        Err(Error::Canonical(m)) => {
            assert_eq!(m, "non-integer numbers are not allowed in mandate v0: 2.5e3")
        }
        other => panic!("unexpected: {:?}", other),
    }
}

#[test]
fn float_error_follows_output_order() {
    let v = object(vec![("b", float("1.5")), ("a", float("0.5"))]);
    match canonical_value(&v) {
        Err(e) => assert_eq!(
            e.message(),
            "canonicalization error: non-integer numbers are not allowed in mandate v0: 0.5"
        ),
        Ok(_) => panic!("a float must be refused"),
    }
}

#[test]
fn null_path_on_empty_path_and_non_object() {
    let mut v = object(vec![("a", uint(1))]);
    null_path(&mut v, &[]);
    assert_eq!(canonical_text(&v), "{\"a\":1}");
    let mut w = Value::Array(vec![uint(1)]);
    null_path(&mut w, &["a"]);
    assert_eq!(canonical_text(&w), "[1]");
    let mut x = object(vec![("a", uint(1))]);
    null_path(&mut x, &["a", "b"]);
    assert_eq!(canonical_text(&x), "{\"a\":1}");
}

#[test]
fn base32_known_vectors() {
    assert_eq!(base32_lower_no_pad(b""), "");
    assert_eq!(base32_lower_no_pad(b"f"), "my");
    assert_eq!(base32_lower_no_pad(b"fo"), "mzxq");
    assert_eq!(base32_lower_no_pad(b"foo"), "mzxw6");
    assert_eq!(base32_lower_no_pad(b"foob"), "mzxw6yq");
    assert_eq!(base32_lower_no_pad(b"fooba"), "mzxw6ytb");
    assert_eq!(base32_lower_no_pad(b"foobar"), "mzxw6ytboi");
    assert_eq!(base32_lower_no_pad(&[0xff; 5]), "77777777");
}

#[test]
fn mandate_id_of_empty_body() {
    // BLAKE3 of the empty input is af1349b9f5f9a1a6...
    let id = mandate_id(b"");
    assert_eq!(id, "mandate://b3:v4jutopv7gq2nicajxvdnxgjjgn4wjojvxarfn6mtkj4vza7gjra");
}

#[test]
fn layout_bytes_never_appear_outside_strings() {
    let v = object(vec![
        ("a b", text("c\td\ne\rf")),
        ("x", Value::Array(vec![uint(1), text("y z"), object(vec![("q", Value::Null)])])),
    ]);
    let out = canonical_value(&v).unwrap();
    assert!(!out.iter().any(|&b| b == b'\t' || b == b'\n' || b == b'\r'));
    assert_eq!(out.iter().filter(|&&b| b == b' ').count(), 2);
    let w = object(vec![("k", Value::Array(vec![text("no-space"), sint(-1), Value::Bool(false)]))]);
    let out = canonical_value(&w).unwrap();
    assert!(!out.iter().any(|&b| b == b' ' || b == b'\t' || b == b'\n' || b == b'\r'));
}

#[test]
fn a_float_at_any_depth_is_refused() {
    let deep = Value::Array(vec![object(vec![("a", Value::Array(vec![uint(1), float("1.0")]))])]);
    assert!(canonical_value(&deep).is_err());
    let none = Value::Array(vec![object(vec![("a", Value::Array(vec![uint(1), sint(-2)]))])]);
    assert!(canonical_value(&none).is_ok());
}

#[test]
fn canonical_output_parses_back_with_serde_json() {
    let v = object(vec![
        ("z", Value::Array(vec![sint(-7), uint(0), text("é\u{1}\"")])),
        ("a", object(vec![("y", Value::Null), ("x", Value::Bool(false))])),
    ]);
    let out = canonical_value(&v).unwrap();
    let parsed: serde_json::Value = serde_json::from_slice(&out).unwrap();
    let expected: serde_json::Value =
        serde_json::from_str(r#"{"a":{"x":false,"y":null},"z":[-7,0,"é\u0001\""]}"#).unwrap();
    assert_eq!(parsed, expected);
    let again = object(vec![
        ("a", object(vec![("x", Value::Bool(false)), ("y", Value::Null)])),
        ("z", Value::Array(vec![sint(-7), uint(0), text("é\u{1}\"")])),
    ]);
    assert_eq!(canonical_value(&again).unwrap(), out);
}
