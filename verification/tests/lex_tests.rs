use lexical::format::NumberFormatBuilder;
use sleepyhead_kdl::grammar::{BIN_FORMAT, DEC_FORMAT, HEX_FORMAT, OCT_FORMAT};
use sleepyhead_kdl::lex::{tokenize, Token};
use std::num::NonZeroU8;

fn with_radix(radix: u8) -> u128 {
    NumberFormatBuilder::new()
        .digit_separator(NonZeroU8::new(b'_'))
        .required_digits(true)
        .no_positive_mantissa_sign(true)
        .no_special(true)
        .internal_digit_separator(true)
        .trailing_digit_separator(true)
        .consecutive_digit_separator(true)
        .radix(radix)
        .build()
}

#[test]
fn number_formats_are_those_of_the_parser() {
    assert_eq!(DEC_FORMAT, lexical::format::RUST_LITERAL);
    assert_eq!(DEC_FORMAT, with_radix(10));
    assert_eq!(HEX_FORMAT, with_radix(16));
    assert_eq!(OCT_FORMAT, with_radix(8));
    assert_eq!(BIN_FORMAT, with_radix(2));
    assert!(lexical::format::NumberFormat::<{ DEC_FORMAT }> {}.is_valid());
    assert!(lexical::format::NumberFormat::<{ HEX_FORMAT }> {}.is_valid());
    assert!(lexical::format::NumberFormat::<{ OCT_FORMAT }> {}.is_valid());
    assert!(lexical::format::NumberFormat::<{ BIN_FORMAT }> {}.is_valid());
}

#[test]
fn numeric_literals() {
    assert_eq!(
        tokenize("0x1_F 0o17 0b101 1.5e10"),
        vec![Token::Integer(31), Token::Integer(15), Token::Integer(5), Token::Float("1.5e10")]
    );
    let parsed: f64 = lexical::parse_with_options::<f64, _, { DEC_FORMAT }>(
        "1.5e10",
        &lexical::ParseFloatOptions::new(),
    )
    .unwrap();
    assert_eq!(parsed, 1.5e10);
}

#[test]
fn decimal_integers_and_separators() {
    assert_eq!(tokenize("1_000"), vec![Token::Integer(1000)]);
    assert_eq!(tokenize("12_"), vec![Token::Integer(12)]);
    assert_eq!(tokenize("0"), vec![Token::Integer(0)]);
    assert_eq!(tokenize("0X1f"), vec![Token::Integer(31)]);
    assert_eq!(tokenize("0x"), vec![Token::Integer(0), Token::Identifier("x")]);
    assert_eq!(tokenize("123abc"), vec![Token::Integer(123), Token::Identifier("abc")]);
}

#[test]
fn integers_that_the_parser_rejects_are_errors() {
    assert_eq!(tokenize("99999999999999999999"), vec![Token::Error]);
    assert_eq!(tokenize("0x8000000000000000"), vec![Token::Error]);
    assert_eq!(tokenize("0x_"), vec![Token::Error]);
    assert_eq!(tokenize("_"), vec![Token::Error]);
    assert_eq!(tokenize("_1"), vec![Token::Error]);
    assert_eq!(tokenize("0x7fffffffffffffff"), vec![Token::Integer(i64::MAX)]);
}

#[test]
fn floats_keep_their_text() {
    assert_eq!(tokenize("1.5"), vec![Token::Float("1.5")]);
    assert_eq!(tokenize("1e5"), vec![Token::Float("1e5")]);
    assert_eq!(tokenize("1.5E-3"), vec![Token::Float("1.5E-3")]);
    assert_eq!(tokenize("1.5e"), vec![Token::Float("1.5"), Token::Identifier("e")]);
    assert_eq!(tokenize("1."), vec![Token::Integer(1), Token::Identifier(".")]);
    assert_eq!(tokenize(".5"), vec![Token::Error]);
    assert_eq!(tokenize(".5x"), vec![Token::Identifier(".5x")]);
}

#[test]
fn float_rule_agrees_with_the_number_parser() {
    let ok = |s: &str| {
        lexical::parse_with_options::<f64, _, { DEC_FORMAT }>(s, &lexical::ParseFloatOptions::new())
            .is_ok()
    };
    for text in ["1.5", "1e5", "1.5E-3", "0.0", "12.25e+7", "007.5"] {
        assert!(ok(text));
        assert_eq!(tokenize(text), vec![Token::Float(text)]);
    }
    for text in [".5", ".5e3"] {
        assert!(!ok(text));
        assert_eq!(tokenize(text), vec![Token::Error]);
    }
}

#[test]
fn punctuation_and_keywords() {
    assert_eq!(
        tokenize("{ } ( ) = ; \\ /- true false null"),
        vec![
            Token::BlockOpen,
            Token::BlockClose,
            Token::ParenOpen,
            Token::ParenClose,
            Token::Equals,
            Token::Semicolon,
            Token::Backslash,
            Token::SlashDash,
            Token::True,
            Token::False,
            Token::Null,
        ]
    );
    assert_eq!(tokenize("truest nul falsey"), vec![
        Token::Identifier("truest"),
        Token::Identifier("nul"),
        Token::Identifier("falsey"),
    ]);
}

#[test]
fn identifiers_are_permissive() {
    assert_eq!(tokenize("foo-bar"), vec![Token::Identifier("foo-bar")]);
    assert_eq!(tokenize("-1"), vec![Token::Identifier("-1")]);
    assert_eq!(tokenize("naïve→x"), vec![Token::Identifier("naïve→x")]);
    assert_eq!(tokenize("a\u{a0}b"), vec![Token::Identifier("a"), Token::Identifier("b")]);
    assert_eq!(tokenize("a<b"), vec![Token::Identifier("a"), Token::Error, Token::Identifier("b")]);
}

#[test]
fn strings() {
    assert_eq!(tokenize("\"baz\""), vec![Token::StringWithNoEscapes("baz")]);
    assert_eq!(tokenize("\"\""), vec![Token::StringWithNoEscapes("")]);
    assert_eq!(tokenize("\"a\\nb\""), vec![Token::StringWithEscapes("a\\nb")]);
    assert_eq!(tokenize("\"a\\u{62}c\""), vec![Token::StringWithEscapes("a\\u{62}c")]);
    assert_eq!(tokenize("\"a\\\"b\""), vec![Token::StringWithEscapes("a\\\"b")]);
    assert_eq!(tokenize("\"héllo wörld\""), vec![Token::StringWithNoEscapes("héllo wörld")]);
}

#[test]
fn strings_that_do_not_close_are_errors() {
    assert_eq!(tokenize("\"abc"), vec![Token::Error, Token::Identifier("abc")]);
    assert_eq!(
        tokenize("\"a\\rb\""),
        vec![
            Token::Error,
            Token::Identifier("a"),
            Token::Backslash,
            Token::Identifier("rb"),
            Token::Error,
        ]
    );
}

#[test]
fn raw_strings() {
    assert_eq!(tokenize("r\"a\\b\""), vec![Token::StringWithNoEscapes("a\\b")]);
    assert_eq!(tokenize("r#\"a\"b\"#"), vec![Token::StringWithNoEscapes("a\"b")]);
    assert_eq!(tokenize("r##\"a\"#b\"## x"), vec![
        Token::StringWithNoEscapes("a\"#b"),
        Token::Identifier("x"),
    ]);
    assert_eq!(tokenize("r#\"abc\""), vec![Token::Error, Token::Identifier("abc"), Token::Error]);
    assert_eq!(tokenize("r#x"), vec![Token::Identifier("r#x")]);
}

#[test]
fn raw_string_with_many_hashes() {
    let hashes = "#".repeat(40);
    let text = format!("r{hashes}\"body\"{hashes}");
    assert_eq!(tokenize(&text), vec![Token::StringWithNoEscapes("body")]);
}

#[test]
fn type_descriptors() {
    assert_eq!(tokenize("(i8)1"), vec![Token::TyDescriptor("i8"), Token::Integer(1)]);
    assert_eq!(tokenize("(8i)"), vec![
        Token::ParenOpen,
        Token::Integer(8),
        Token::Identifier("i"),
        Token::ParenClose,
    ]);
    assert_eq!(tokenize("(i8"), vec![Token::ParenOpen, Token::Identifier("i8")]);
    assert_eq!(tokenize("()"), vec![Token::ParenOpen, Token::ParenClose]);
}

#[test]
fn newlines_collapse() {
    assert_eq!(tokenize("a\n\r\n\u{85}\u{2028}b"), vec![
        Token::Identifier("a"),
        Token::Newline,
        Token::Identifier("b"),
    ]);
    assert_eq!(tokenize("\n \n"), vec![Token::Newline, Token::Newline]);
}

#[test]
fn whitespace_and_comments_are_skipped() {
    assert_eq!(tokenize(" \t\u{a0}\u{1680}\u{2003}\u{202f}\u{205f}\u{3000}a"), vec![
        Token::Identifier("a"),
    ]);
    assert_eq!(tokenize("a /* b\n c */ d"), vec![Token::Identifier("a"), Token::Identifier("d")]);
    assert_eq!(tokenize("a // b\nc"), vec![Token::Identifier("a"), Token::Identifier("c")]);
    assert_eq!(tokenize("a /* b"), vec![Token::Identifier("a"), Token::Identifier("b")]);
    assert_eq!(tokenize("// b"), vec![Token::Error, Token::Error, Token::Identifier("b")]);
    assert_eq!(tokenize(""), Vec::<Token>::new());
    assert_eq!(tokenize("  "), Vec::<Token>::new());
}

#[test]
fn lexer_yields_the_tokens_one_by_one() {
    let mut lexer = Token::lexer("foo bar=1");
    assert_eq!(lexer.next(), Some(Token::Identifier("foo")));
    assert_eq!(lexer.next(), Some(Token::Identifier("bar")));
    assert_eq!(lexer.next(), Some(Token::Equals));
    assert_eq!(lexer.next(), Some(Token::Integer(1)));
    assert_eq!(lexer.next(), None);
    assert_eq!(lexer.next(), None);
}
