use sleepyhead_kdl::assembler::parse_document;
use sleepyhead_kdl::ast::KdlString;
use sleepyhead_kdl::lex::{tokenize, Token};
use sleepyhead_kdl::parser::Parser;
use sleepyhead_kdl::KdlEvent;

const PIECES: [&str; 24] = [
    "a", "1", "_", ".", "\"", "\\", "/", "-", "*", "{", "}", "(", ")", ";", "=", "\n", " ", "r",
    "#", "x", "é", "0", "e", "\u{2028}",
];

const NUMBER_PIECES: [&str; 15] =
    ["0", "1", "7", "9", "_", "x", "X", "o", "b", "a", "F", ".", "e", "+", "-"];

fn texts(pieces: &[&str], max_len: usize) -> Vec<String> {
    let mut all = vec![String::new()];
    let mut last = vec![String::new()];
    for _ in 0..max_len {
        let mut next = Vec::new();
        for prefix in &last {
            for piece in pieces {
                next.push(format!("{prefix}{piece}"));
            }
        }
        all.extend(next.iter().cloned());
        last = next;
    }
    all
}

fn documents(max_len: usize) -> Vec<String> {
    texts(&PIECES, max_len)
}

fn text_of(token: &Token<'_>) -> Option<usize> {
    match token {
        Token::StringWithEscapes(s)
        | Token::StringWithNoEscapes(s)
        | Token::Float(s)
        | Token::TyDescriptor(s)
        | Token::Identifier(s) => Some(s.len()),
        _ => None,
    }
}

#[test]
fn every_short_text_has_tokens() {
    for text in documents(3) {
        let tokens = tokenize(&text);
        assert!(tokens.len() <= text.len());
        let held: usize = tokens.iter().filter_map(text_of).sum();
        assert!(held <= text.len());
    }
}

#[test]
fn every_short_number_is_an_integer_a_float_or_an_error() {
    for text in texts(&NUMBER_PIECES, 4) {
        let tokens = tokenize(&text);
        assert!(tokens.len() <= text.len());
        if let Ok(value) = text.parse::<i64>() {
            if text.as_bytes()[0].is_ascii_digit() {
                assert_eq!(tokens, vec![Token::Integer(value)]);
            }
        }
        for token in tokens {
            if let Token::Float(literal) = token {
                assert!(literal.parse::<f64>().is_ok());
            }
        }
    }
}

#[test]
fn every_short_document_is_closed_in_order() {
    for text in documents(3) {
        let mut parser = Parser::from_str(&text);
        let mut pending: Vec<KdlString> = Vec::new();
        let mut bracketed: Vec<KdlString> = Vec::new();
        let mut opens = 0;
        let mut closes = 0;
        let mut failed = false;
        let mut calls = 0;
        while let Some(item) = parser.next() {
            calls += 1;
            assert!(calls <= 2 * text.len() + 2);
            match item {
                Err(_) => {
                    failed = true;
                    break;
                }
                Ok(KdlEvent::NodeOpen { name, has_children, .. }) => {
                    opens += 1;
                    if has_children {
                        bracketed.push(name);
                    } else {
                        pending.push(name);
                    }
                }
                Ok(KdlEvent::NodeClose(name)) => {
                    closes += 1;
                    assert_eq!(pending.pop().map(|n| n == name), Some(true));
                }
                Ok(KdlEvent::BracketedNodeClose(name)) => {
                    closes += 1;
                    assert_eq!(bracketed.pop().map(|n| n == name), Some(true));
                }
            }
        }
        if !failed {
            assert!(pending.is_empty());
            assert_eq!(opens, closes + bracketed.len());
        }
    }
}

#[test]
fn every_short_document_assembles_or_fails() {
    for text in documents(3) {
        let mut parser = Parser::from_str(&text);
        let _ = parse_document(&mut parser);
    }
}
