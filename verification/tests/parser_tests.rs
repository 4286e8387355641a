use sleepyhead_kdl::ast::{KdlProperty, KdlString, KdlValue, TypedValue};
use sleepyhead_kdl::lex::Token;
use sleepyhead_kdl::parser::Parser;
use sleepyhead_kdl::{KdlEvent, ParseError};

fn events(text: &str) -> Vec<Result<KdlEvent<'_>, ParseError>> {
    let mut parser = Parser::from_str(text);
    let mut out = Vec::new();
    while let Some(item) = parser.next() {
        let failed = item.is_err();
        out.push(item);
        if failed {
            break;
        }
    }
    out
}

fn open<'a>(
    name: &'a str,
    attrs: Vec<KdlProperty<'a>>,
    values: Vec<TypedValue<'a>>,
    has_children: bool,
) -> Result<KdlEvent<'a>, ParseError> {
    Ok(KdlEvent::NodeOpen { name: KdlString::Escapeless(name), attrs, values, has_children })
}

fn close(name: &str) -> Result<KdlEvent<'_>, ParseError> {
    Ok(KdlEvent::NodeClose(KdlString::Escapeless(name)))
}

fn bracketed_close(name: &str) -> Result<KdlEvent<'_>, ParseError> {
    Ok(KdlEvent::BracketedNodeClose(KdlString::Escapeless(name)))
}

fn integer(i: i64) -> TypedValue<'static> {
    TypedValue { ty: None, val: KdlValue::Integer(i) }
}

fn string(s: &str) -> TypedValue<'_> {
    TypedValue { ty: None, val: KdlValue::String(KdlString::Escapeless(s)) }
}

fn prop<'a>(key: &'a str, value: TypedValue<'a>) -> KdlProperty<'a> {
    KdlProperty { key: KdlString::Escapeless(key), value }
}

#[test]
fn node_with_property_and_value() {
    assert_eq!(
        events("foo bar=1 \"baz\"\n"),
        vec![open("foo", vec![prop("bar", integer(1))], vec![string("baz")], false), close("foo")]
    );
}

#[test]
fn node_with_children() {
    assert_eq!(
        events("foo {\n  bar\n}\n"),
        vec![
            open("foo", vec![], vec![], true),
            open("bar", vec![], vec![], false),
            close("bar"),
            bracketed_close("foo"),
        ]
    );
}

#[test]
fn typed_value() {
    let got = events("foo (i8)1");
    assert_eq!(got.len(), 2);
    match &got[0] {
        Ok(KdlEvent::NodeOpen { values, .. }) => {
            assert_eq!(values.len(), 1);
            assert_eq!(values[0].ty, Some("i8"));
            assert_eq!(values[0].val, KdlValue::Integer(1));
        }
        other => panic!("unexpected {:?}", other),
    }
}

#[test]
fn slash_dashed_node_gives_no_event() {
    assert_eq!(events("/-foo bar=1"), vec![]);
    assert_eq!(events("/-foo bar=1\n"), vec![]);
    assert_eq!(events("/-foo bar=1;"), vec![]);
    assert_eq!(
        events("/-foo bar=1\nbaz\n"),
        vec![open("baz", vec![], vec![], false), close("baz")]
    );
}

#[test]
fn slash_dashed_node_with_children_gives_no_event() {
    assert_eq!(
        events("/-foo {\n  bar {\n    baz\n  }\n  qux\n}\nlast\n"),
        vec![open("last", vec![], vec![], false), close("last")]
    );
}

#[test]
fn lone_block_close_is_mismatched() {
    let mut parser = Parser::from_str("}");
    assert_eq!(parser.next(), Some(Err(ParseError::MismatchedNodeClosing)));
}

#[test]
fn lone_semicolon_is_mismatched() {
    let mut parser = Parser::from_str(";");
    assert_eq!(parser.next(), Some(Err(ParseError::MismatchedNodeClosing)));
    assert_eq!(parser.next(), None);
}

#[test]
fn blank_lines_are_no_error() {
    assert_eq!(events("\n\n\nfoo\n\n\n"), vec![open("foo", vec![], vec![], false), close("foo")]);
}

#[test]
fn node_at_end_of_input_is_closed_once() {
    let mut parser = Parser::from_str("foo");
    assert_eq!(parser.next(), Some(open("foo", vec![], vec![], false)));
    assert_eq!(parser.next(), Some(close("foo")));
    assert_eq!(parser.next(), None);
    assert_eq!(parser.next(), None);
}

#[test]
fn semicolons_close_nodes() {
    assert_eq!(
        events("a 1; b 2;"),
        vec![
            open("a", vec![], vec![integer(1)], false),
            close("a"),
            open("b", vec![], vec![integer(2)], false),
            close("b"),
        ]
    );
}

#[test]
fn values_of_every_kind() {
    assert_eq!(
        events("n 1 1.5 true false null \"s\" \"e\\n\" r\"raw\" bare"),
        vec![
            open(
                "n",
                vec![],
                vec![
                    integer(1),
                    TypedValue { ty: None, val: KdlValue::Float("1.5") },
                    TypedValue { ty: None, val: KdlValue::Bool(true) },
                    TypedValue { ty: None, val: KdlValue::Bool(false) },
                    TypedValue { ty: None, val: KdlValue::Null },
                    string("s"),
                    TypedValue { ty: None, val: KdlValue::String(KdlString::Escaped("e\\n")) },
                    string("raw"),
                ],
                false
            ),
            close("n"),
        ]
    );
}

#[test]
fn typed_property_keeps_its_annotation() {
    let got = events("n key=(u8)7");
    match &got[0] {
        Ok(KdlEvent::NodeOpen { attrs, .. }) => {
            assert_eq!(attrs.len(), 1);
            assert_eq!(attrs[0].key, KdlString::Escapeless("key"));
            assert_eq!(attrs[0].value.ty, Some("u8"));
            assert_eq!(attrs[0].value.val, KdlValue::Integer(7));
        }
        other => panic!("unexpected {:?}", other),
    }
}

#[test]
fn string_name_and_key() {
    assert_eq!(
        events("\"my node\" \"my key\"=1"),
        vec![open("my node", vec![prop("my key", integer(1))], vec![], false), close("my node")]
    );
}

#[test]
fn line_continuation_joins_lines() {
    assert_eq!(
        events("foo 1 \\\n 2\n"),
        vec![open("foo", vec![], vec![integer(1), integer(2)], false), close("foo")]
    );
}

#[test]
fn slash_dash_drops_one_value_or_property() {
    assert_eq!(
        events("foo /-1 2 /-a=1 b=2 /-\"x\" /-(t)3 4"),
        vec![open("foo", vec![prop("b", integer(2))], vec![integer(2), integer(4)], false), close("foo")]
    );
}

#[test]
fn slash_dash_drops_a_block_of_children() {
    assert_eq!(
        events("foo 1 /-{\n bar\n}\n"),
        vec![open("foo", vec![], vec![integer(1)], false), close("foo")]
    );
}

#[test]
fn slash_dash_drops_nested_blocks_whole() {
    assert_eq!(
        events("foo /-{ bar { baz } }\nnext\n"),
        vec![
            open("foo", vec![], vec![], false),
            close("foo"),
            open("next", vec![], vec![], false),
            close("next"),
        ]
    );
}

#[test]
fn incomplete_property() {
    assert_eq!(events("foo bar="), vec![Err(ParseError::IncompleteProperty)]);
    assert_eq!(events("foo bar=\n"), vec![Err(ParseError::IncompleteProperty)]);
    assert_eq!(events("foo bar=(t)\n"), vec![Err(ParseError::IncompleteProperty)]);
    assert_eq!(events("foo bar=baz"), vec![Err(ParseError::IncompleteProperty)]);
}

#[test]
fn type_descriptor_with_no_value() {
    assert_eq!(events("foo (t)"), vec![Err(ParseError::TypeDescriptorWithNoValue)]);
    assert_eq!(events("foo (t) bar"), vec![Err(ParseError::TypeDescriptorWithNoValue)]);
}

#[test]
fn not_a_node() {
    assert_eq!(events("1"), vec![Err(ParseError::NotANode)]);
    assert_eq!(events("foo }"), vec![Err(ParseError::NotANode)]);
    assert_eq!(events("foo <"), vec![Err(ParseError::NotANode)]);
    assert_eq!(events("/-"), vec![Err(ParseError::NotANode)]);
}

#[test]
fn error_leaves_the_parser_at_the_offending_token() {
    let mut parser = Parser::from_str("= foo\n");
    assert_eq!(parser.next(), Some(Err(ParseError::NotANode)));
    assert_eq!(parser.next(), Some(Err(ParseError::NotANode)));
}

#[test]
fn parser_from_tokens() {
    let mut parser = Parser::new(vec![
        Token::Identifier("foo"),
        Token::Integer(3),
        Token::Semicolon,
    ]);
    assert_eq!(parser.next(), Some(open("foo", vec![], vec![integer(3)], false)));
    assert_eq!(parser.next(), Some(close("foo")));
    assert_eq!(parser.next(), None);
}

#[test]
fn siblings_inside_a_block() {
    assert_eq!(
        events("a {\n b 1\n c {\n d\n }\n}\n"),
        vec![
            open("a", vec![], vec![], true),
            open("b", vec![], vec![integer(1)], false),
            close("b"),
            open("c", vec![], vec![], true),
            open("d", vec![], vec![], false),
            close("d"),
            bracketed_close("c"),
            bracketed_close("a"),
        ]
    );
}

#[test]
fn opens_and_closes_balance() {
    let got = events("a {\n b 1; c 2\n d {\n e\n }\n}\nf\n");
    let opens = got.iter().filter(|e| matches!(e, Ok(KdlEvent::NodeOpen { .. }))).count();
    let closes = got
        .iter()
        .filter(|e| matches!(e, Ok(KdlEvent::NodeClose(_)) | Ok(KdlEvent::BracketedNodeClose(_))))
        .count();
    assert_eq!(opens, 6);
    assert_eq!(opens, closes);
    let mut stack: Vec<KdlString> = Vec::new();
    for event in got {
        match event.unwrap() {
            KdlEvent::NodeOpen { name, .. } => stack.push(name),
            KdlEvent::NodeClose(name) | KdlEvent::BracketedNodeClose(name) => {
                assert_eq!(stack.pop(), Some(name));
            }
        }
    }
    assert!(stack.is_empty());
}

#[test]
fn nesting_beyond_the_capacity_is_reported() {
    let mut text = String::new();
    for _ in 0..257 {
        text.push_str("n {\n");
    }
    let mut parser = Parser::from_str(&text);
    for _ in 0..256 {
        assert_eq!(parser.next(), Some(open("n", vec![], vec![], true)));
    }
    assert_eq!(parser.next(), Some(Err(ParseError::NestingTooDeep)));
}

#[test]
fn open_nodes_are_closed_last_first_at_the_end() {
    assert_eq!(
        events("a /-{ x } b /-{ y } c"),
        vec![
            open("a", vec![], vec![], false),
            open("b", vec![], vec![], false),
            open("c", vec![], vec![], false),
            close("c"),
            close("b"),
            close("a"),
        ]
    );
}

#[test]
fn too_many_nodes_without_terminator_are_reported() {
    let mut text = String::new();
    for _ in 0..257 {
        text.push_str("n /-{ } ");
    }
    let mut parser = Parser::from_str(&text);
    for _ in 0..256 {
        assert_eq!(parser.next(), Some(open("n", vec![], vec![], false)));
    }
    assert_eq!(parser.next(), Some(Err(ParseError::NestingTooDeep)));
    for _ in 0..256 {
        assert_eq!(parser.next(), Some(close("n")));
    }
    assert_eq!(parser.next(), None);
}

#[test]
fn unclosed_block_leaves_its_node_open() {
    assert_eq!(
        events("a {\n b\n"),
        vec![open("a", vec![], vec![], true), open("b", vec![], vec![], false), close("b")]
    );
}

#[test]
fn bare_word_in_a_body_is_skipped() {
    assert_eq!(
        events("foo bar 1\n"),
        vec![open("foo", vec![], vec![integer(1)], false), close("foo")]
    );
    assert_eq!(
        events("foo /-bar 1 2\n"),
        vec![open("foo", vec![], vec![integer(2)], false), close("foo")]
    );
}

#[test]
fn line_comment_takes_its_line_feed() {
    assert_eq!(
        events("foo 1 // note\nbar 2\n"),
        vec![open("foo", vec![], vec![integer(1), integer(2)], false), close("foo")]
    );
}

#[test]
fn token_for_parsed_integer() {
    assert_eq!(Token::from_parsed_integer(Some(5)), Token::Integer(5));
    assert_eq!(Token::from_parsed_integer(None), Token::Error);
}
