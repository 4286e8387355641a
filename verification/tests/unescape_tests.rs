use sleepyhead_kdl::ast::KdlString;
use sleepyhead_kdl::unescape::{hex_value, read_char, read_escape, unescape_std, EscapingIter};
use sleepyhead_kdl::ParseError;

fn lazily(mut iter: EscapingIter<'_>) -> Result<String, ParseError> {
    let mut out = String::new();
    while let Some(item) = iter.next() {
        out.push(item?);
    }
    Ok(out)
}

#[test]
fn eager_resolves_simple_escapes() {
    assert_eq!(unescape_std("a\\nb\\tc\\\\d\\\"e\\/f"), Ok("a\nb\tc\\d\"e/f".to_string()));
    assert_eq!(unescape_std("\\r\\b\\f"), Ok("\r\u{8}\u{c}".to_string()));
}

#[test]
fn eager_resolves_unicode_escape() {
    assert_eq!(unescape_std("a\\u{62}c"), Ok("abc".to_string()));
    assert_eq!(unescape_std("\\u{1F600}"), Ok("\u{1F600}".to_string()));
    assert_eq!(unescape_std("\\u{10FFFF}"), Ok("\u{10FFFF}".to_string()));
    assert_eq!(unescape_std("\\u{0}"), Ok("\0".to_string()));
    assert_eq!(unescape_std("\\u{00e9}x"), Ok("\u{e9}x".to_string()));
    assert_eq!(unescape_std("\\u{AbCd}"), Ok("\u{abcd}".to_string()));
}

#[test]
fn eager_passes_plain_text_through() {
    assert_eq!(unescape_std(""), Ok(String::new()));
    assert_eq!(unescape_std("héllo → wörld"), Ok("héllo → wörld".to_string()));
}

#[test]
fn eager_rejects_surrogate() {
    assert_eq!(unescape_std("\\u{D800}"), Err(ParseError::BadUnicodeEscape));
    assert_eq!(unescape_std("\\u{DFFF}"), Err(ParseError::BadUnicodeEscape));
    assert_eq!(unescape_std("\\u{110000}"), Err(ParseError::BadUnicodeEscape));
}

#[test]
fn unicode_escape_takes_one_to_six_digits() {
    assert_eq!(unescape_std("\\u{}"), Err(ParseError::BadUnicodeEscape));
    assert_eq!(unescape_std("\\u{000041}"), Ok("A".to_string()));
    assert_eq!(unescape_std("\\u{0000041}"), Err(ParseError::BadUnicodeEscape));
}

#[test]
fn malformed_unicode_escapes() {
    assert_eq!(unescape_std("\\u"), Err(ParseError::BadUnicodeEscape));
    assert_eq!(unescape_std("\\u41"), Err(ParseError::BadUnicodeEscape));
    assert_eq!(unescape_std("\\u{4x}"), Err(ParseError::BadUnicodeEscape));
    assert_eq!(unescape_std("\\u{"), Err(ParseError::UnexpectedEOF));
    assert_eq!(unescape_std("\\u{41"), Err(ParseError::UnexpectedEOF));
    assert_eq!(unescape_std("\\u{123456"), Err(ParseError::UnexpectedEOF));
}

#[test]
fn unknown_escape_and_early_end() {
    assert_eq!(unescape_std("a\\qb"), Err(ParseError::UnrecognizedEscape));
    assert_eq!(unescape_std("a\\"), Err(ParseError::UnexpectedEOF));
}

#[test]
fn lazy_reader_yields_one_character_per_call() {
    let mut iter = EscapingIter::unescape("a\\n\\u{62}");
    assert_eq!(iter.next(), Some(Ok('a')));
    assert_eq!(iter.next(), Some(Ok('\n')));
    assert_eq!(iter.next(), Some(Ok('b')));
    assert_eq!(iter.next(), None);
    assert_eq!(iter.next(), None);
}

#[test]
fn lazy_reader_reports_an_error_once_and_ends() {
    let mut iter = EscapingIter::unescape("a\\qb");
    assert_eq!(iter.next(), Some(Ok('a')));
    assert_eq!(iter.next(), Some(Err(ParseError::UnrecognizedEscape)));
    assert_eq!(iter.next(), None);
}

#[test]
fn shim_hands_the_text_out_unchanged() {
    assert_eq!(lazily(EscapingIter::shim("a\\nb")), Ok("a\\nb".to_string()));
    assert_eq!(lazily(EscapingIter::shim("")), Ok(String::new()));
}

#[test]
fn lazy_and_eager_agree() {
    let inputs = [
        "",
        "plain",
        "a\\nb\\tc",
        "\\\\\\\"\\/\\b\\f\\r",
        "x\\u{1F600}y\\u{41}",
        "héllo\\u{e9}",
        "bad\\q",
        "bad\\",
        "bad\\u{}",
        "bad\\u{D800}",
        "bad\\u{1234567}",
        "bad\\u{12",
        "bad\\u12",
    ];
    for input in inputs {
        assert_eq!(lazily(EscapingIter::unescape(input)), unescape_std(input));
        assert_eq!(
            lazily(KdlString::Escaped(input).unescape_iter()),
            KdlString::Escaped(input).unescape().map(|text| text.into_owned())
        );
    }
}

#[test]
fn reading_one_character_gives_the_rest() {
    assert_eq!(read_char(""), None);
    assert_eq!(read_char("abc"), Some(Ok(('a', "bc"))));
    assert_eq!(read_char("\\tz"), Some(Ok(('\t', "z"))));
    assert_eq!(read_char("\\u{e9}!"), Some(Ok(('\u{e9}', "!"))));
    assert_eq!(read_char("é!"), Some(Ok(('é', "!"))));
    assert_eq!(read_char("\\x"), Some(Err(ParseError::UnrecognizedEscape)));
    assert_eq!(read_escape("n rest"), Ok(('\n', " rest")));
    assert_eq!(read_escape(""), Err(ParseError::UnexpectedEOF));
}

#[test]
fn hexadecimal_digits() {
    assert_eq!(hex_value('0'), Some(0));
    assert_eq!(hex_value('9'), Some(9));
    assert_eq!(hex_value('a'), Some(10));
    assert_eq!(hex_value('F'), Some(15));
    assert_eq!(hex_value('g'), None);
    assert_eq!(hex_value('\u{130}'), None);
}
