use sleepyhead_kdl::assembler::{add_children, parse_document, KdlNode};
use sleepyhead_kdl::ast::{KdlString, KdlValue};
use sleepyhead_kdl::parser::Parser;
use sleepyhead_kdl::ParseError;

#[test]
fn document_becomes_a_tree() {
    let mut parser = Parser::from_str("a 1 k=2 {\n b\n c {\n d \"x\"\n }\n}\ne\n");
    let nodes = parse_document(&mut parser).unwrap();
    assert_eq!(nodes.len(), 2);
    let a = &nodes[0];
    assert_eq!(a.name, "a");
    assert_eq!(a.values.len(), 1);
    assert_eq!(a.values[0].val, KdlValue::Integer(1));
    assert_eq!(a.attrs.len(), 1);
    assert_eq!(a.attrs[0].key, KdlString::Escapeless("k"));
    assert_eq!(a.attrs[0].value.val, KdlValue::Integer(2));
    assert_eq!(a.children.len(), 2);
    assert_eq!(a.children[0].name, "b");
    assert!(a.children[0].children.is_empty());
    let c = &a.children[1];
    assert_eq!(c.name, "c");
    assert_eq!(c.children.len(), 1);
    assert_eq!(c.children[0].name, "d");
    assert_eq!(c.children[0].values[0].val, KdlValue::String(KdlString::Escapeless("x")));
    assert_eq!(nodes[1].name, "e");
    assert!(nodes[1].children.is_empty());
    assert_eq!(parser.next(), None);
}

#[test]
fn empty_document_has_no_nodes() {
    assert!(parse_document(&mut Parser::from_str("")).unwrap().is_empty());
    assert!(parse_document(&mut Parser::from_str("\n\n // only a comment\n")).unwrap().is_empty());
}

#[test]
fn names_are_unescaped() {
    let nodes = parse_document(&mut Parser::from_str("\"a\\u{62}c\" 1\n")).unwrap();
    assert_eq!(nodes.len(), 1);
    assert_eq!(nodes[0].name, "abc");
}

#[test]
fn first_error_ends_the_assembling() {
    let got = parse_document(&mut Parser::from_str("a\nb c=\nd\n"));
    assert_eq!(got.err(), Some(ParseError::IncompleteProperty));
    let got = parse_document(&mut Parser::from_str("a {\n b (t)\n}\n"));
    assert_eq!(got.err(), Some(ParseError::TypeDescriptorWithNoValue));
    let got = parse_document(&mut Parser::from_str("a;;"));
    assert_eq!(got.err(), Some(ParseError::MismatchedNodeClosing));
}

#[test]
fn malformed_name_is_an_error() {
    let got = parse_document(&mut Parser::from_str("\"a\\u{D800}\" 1\n"));
    assert_eq!(got.err(), Some(ParseError::BadUnicodeEscape));
}

#[test]
fn elided_nodes_are_missing_from_the_tree() {
    let nodes = parse_document(&mut Parser::from_str("a {\n /-b {\n  c\n }\n d\n}\n")).unwrap();
    assert_eq!(nodes.len(), 1);
    assert_eq!(nodes[0].children.len(), 1);
    assert_eq!(nodes[0].children[0].name, "d");
}

#[test]
fn children_are_appended_up_to_the_closing_brace() {
    let mut parser = Parser::from_str("a\nb\n}\nc\n");
    let mut nodes: Vec<KdlNode> = Vec::new();
    assert_eq!(add_children(&mut parser, &mut nodes), Err(ParseError::MismatchedNodeClosing));
    assert_eq!(nodes.len(), 2);
    assert_eq!(nodes[0].name, "a");
    assert_eq!(nodes[1].name, "b");
}
