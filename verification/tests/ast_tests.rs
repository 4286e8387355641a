use sleepyhead_kdl::ast::{KdlProperty, KdlString, KdlValue, TypedValue};
use sleepyhead_kdl::render::integer_to_string;
use sleepyhead_kdl::text::{slice_str, split_first_char, str_eq, utf8_width};
use sleepyhead_kdl::ParseError;
use std::borrow::Cow;

#[test]
fn strings_compare_by_what_they_stand_for() {
    assert_eq!(KdlString::Escapeless("abc"), KdlString::Escaped("a\\u{62}c"));
    assert_eq!(KdlString::Escaped("a\\u{62}c"), KdlString::Escapeless("abc"));
    assert_eq!(KdlString::Escaped("\\n"), KdlString::Escapeless("\n"));
    assert_eq!(KdlString::Escapeless(""), KdlString::Escaped(""));
    assert_ne!(KdlString::Escapeless("abc"), KdlString::Escapeless("abd"));
    assert_ne!(KdlString::Escapeless("abc"), KdlString::Escapeless("ab"));
    assert_ne!(KdlString::Escapeless("a\\nb"), KdlString::Escaped("a\\nb"));
}

#[test]
fn malformed_strings_equal_nothing() {
    assert_ne!(KdlString::Escaped("a\\q"), KdlString::Escaped("a\\q"));
    assert_ne!(KdlString::Escaped("a\\q"), KdlString::Escapeless("a"));
}

#[test]
fn unescape_borrows_where_it_can() {
    assert!(matches!(KdlString::Escapeless("abc").unescape(), Ok(Cow::Borrowed("abc"))));
    match KdlString::Escaped("a\\tb").unescape() {
        Ok(Cow::Owned(text)) => assert_eq!(text, "a\tb"),
        other => panic!("unexpected {:?}", other),
    }
    assert_eq!(KdlString::Escaped("\\u{D800}").unescape(), Err(ParseError::BadUnicodeEscape));
}

#[test]
fn value_accessors() {
    let s = KdlValue::String(KdlString::Escaped("a\\nb"));
    assert_eq!(s.as_kdlstring(), Some(&KdlString::Escapeless("a\nb")));
    assert_eq!(s.as_str(), Some(Cow::Borrowed("a\nb")));
    assert_eq!(s.as_int(), None);
    assert_eq!(KdlValue::String(KdlString::Escaped("\\q")).as_str(), None);
    assert_eq!(KdlValue::Integer(7).as_int(), Some(&7));
    assert_eq!(KdlValue::Integer(7).as_bool(), None);
    assert_eq!(KdlValue::Integer(7).as_kdlstring(), None);
    assert_eq!(KdlValue::Integer(7).as_str(), None);
    assert_eq!(KdlValue::Bool(true).as_bool(), Some(&true));
    assert_eq!(KdlValue::Float("1.5e10").as_float(), Some("1.5e10"));
    let as_number: f64 = KdlValue::Float("1.5e10").as_float().unwrap().parse().unwrap();
    assert_eq!(as_number, 1.5e10);
    assert_eq!(KdlValue::Null.as_float(), None);
}

#[test]
fn values_compare_within_their_kind() {
    assert_eq!(KdlValue::Integer(1), KdlValue::Integer(1));
    assert_ne!(KdlValue::Integer(1), KdlValue::Integer(2));
    assert_ne!(KdlValue::Integer(1), KdlValue::Bool(true));
    assert_eq!(KdlValue::Null, KdlValue::Null);
    assert_eq!(KdlValue::Float("1.5"), KdlValue::Float("1.5"));
    assert_ne!(KdlValue::Float("1.5"), KdlValue::Float("1.50"));
    assert_eq!(
        KdlValue::String(KdlString::Escapeless("abc")),
        KdlValue::String(KdlString::Escaped("a\\u{62}c"))
    );
}

#[test]
fn typed_values_compare_by_value_alone() {
    let a = TypedValue { ty: Some("i8"), val: KdlValue::Integer(1) };
    let b = TypedValue { ty: None, val: KdlValue::Integer(1) };
    let c = TypedValue { ty: Some("i8"), val: KdlValue::Integer(2) };
    assert_eq!(a, b);
    assert_ne!(a, c);
    let p = KdlProperty { key: KdlString::Escapeless("k"), value: a };
    let q = KdlProperty { key: KdlString::Escaped("\\u{6b}"), value: b };
    let r = KdlProperty { key: KdlString::Escapeless("j"), value: a };
    assert_eq!(p, q);
    assert_ne!(p, r);
}

#[test]
fn values_as_text() {
    assert_eq!(KdlString::Escapeless("a b").to_string(), Ok("a b".to_string()));
    assert_eq!(KdlString::Escaped("a\\tb").to_string(), Ok("a\tb".to_string()));
    assert_eq!(KdlString::Escaped("a\\qb").to_string(), Err(ParseError::UnrecognizedEscape));
    assert_eq!(KdlValue::Integer(-42).to_string(), Ok("-42".to_string()));
    assert_eq!(KdlValue::Float("1.5e10").to_string(), Ok("1.5e10".to_string()));
    assert_eq!(KdlValue::Bool(true).to_string(), Ok("true".to_string()));
    assert_eq!(KdlValue::Bool(false).to_string(), Ok("false".to_string()));
    assert_eq!(KdlValue::Null.to_string(), Ok("nil".to_string()));
    assert_eq!(
        TypedValue { ty: Some("i8"), val: KdlValue::Integer(1) }.to_string(),
        Ok("(i8)1".to_string())
    );
    assert_eq!(
        TypedValue { ty: None, val: KdlValue::String(KdlString::Escapeless("x")) }.to_string(),
        Ok("x".to_string())
    );
    assert_eq!(
        TypedValue { ty: Some("t"), val: KdlValue::String(KdlString::Escaped("\\")) }.to_string(),
        Err(ParseError::UnexpectedEOF)
    );
}

#[test]
fn integers_as_text() {
    for v in [0, 1, 9, 10, 11, 99, 100, 12345, -1, -10, i64::MAX, i64::MIN, i64::MIN + 1] {
        assert_eq!(integer_to_string(v), format!("{}", v));
    }
}

#[test]
fn text_helpers() {
    assert_eq!(split_first_char(""), None);
    assert_eq!(split_first_char("a"), Some(('a', "")));
    assert_eq!(split_first_char("é→x"), Some(('é', "→x")));
    assert_eq!(split_first_char("\u{1F600}!"), Some(('\u{1F600}', "!")));
    assert_eq!(slice_str("héllo", 1, 3), "é");
    assert_eq!(slice_str("héllo", 0, 6), "héllo");
    assert_eq!(slice_str("héllo", 3, 3), "");
    assert!(str_eq("héllo", "héllo"));
    assert!(!str_eq("héllo", "hello"));
    assert!(!str_eq("a", "ab"));
    assert!(str_eq("", ""));
    assert_eq!(utf8_width('a'), 1);
    assert_eq!(utf8_width('é'), 2);
    assert_eq!(utf8_width('→'), 3);
    assert_eq!(utf8_width('\u{1F600}'), 4);
}
