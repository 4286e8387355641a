//! A streaming reader for KDL-style node documents.
//!
//! Text is split into tokens by [`lex`], the tokens are turned into a flat
//! stream of open / close events by [`parser`], and [`assembler`] folds
//! that stream into a tree. String literals keep their escapes until
//! asked; [`unescape`] resolves them.
use vstd::prelude::*;
use crate::ast::{KdlProperty, KdlString, TypedValue};

pub mod ascii;
pub mod assembler;
pub mod ast;
pub mod balance;
pub mod grammar;
pub mod lex;
pub mod parser;
pub mod render;
pub mod syntax;
pub mod text;
pub mod unescape;

verus! {

/// Everything that can go wrong while reading a document or a string literal.
#[derive(Debug, Copy, Clone, PartialEq, Eq, Structural)]
pub enum ParseError {
    /// `key=` was not followed by a value.
    IncompleteProperty,
    /// A `;` or `}` arrived with nothing left for it to close.
    MismatchedNodeClosing,
    /// A node name, or a token that may stand in a node's body, was expected.
    NotANode,
    /// A backslash was followed by a character that names no escape.
    UnrecognizedEscape,
    /// The text ended in the middle of an escape.
    UnexpectedEOF,
    /// A `\u{..}` escape was malformed or named no Unicode scalar value.
    BadUnicodeEscape,
    /// A type annotation was not followed by a value.
    TypeDescriptorWithNoValue,
    /// More nodes were open at once than the parser can keep track of.
    NestingTooDeep,
}

/// Result alias.
pub type ParseResult<T> = Result<T, ParseError>;

/// The list type of the properties and values of a node.
pub type Container<A> = Vec<A>;

/// An event of the parser: a node opens or closes.
#[derive(Debug, Clone, PartialEq)]
pub enum KdlEvent<'input> {
    /// A node opens, with its name, its properties and values in the
    /// order in which they were written, and whether a block of children
    /// follows.
    NodeOpen {
        name: KdlString<'input>,
        attrs: Container<KdlProperty<'input>>,
        values: Container<TypedValue<'input>>,
        has_children: bool,
    },
    /// A node without children closes, at its `;`, its line break or the
    /// end of the document.
    NodeClose(KdlString<'input>),
    /// A node with children closes, at the `}` of its block.
    BracketedNodeClose(KdlString<'input>),
}

/// An event with its lists as sequences.
pub enum EventView<'input> {
    NodeOpen {
        name: KdlString<'input>,
        attrs: Seq<KdlProperty<'input>>,
        values: Seq<TypedValue<'input>>,
        has_children: bool,
    },
    NodeClose(KdlString<'input>),
    BracketedNodeClose(KdlString<'input>),
}

impl<'input> View for KdlEvent<'input> {
    type V = EventView<'input>;

    open spec fn view(&self) -> EventView<'input> {
        match *self {
            KdlEvent::NodeOpen { name, attrs, values, has_children } => EventView::NodeOpen {
                name,
                attrs: attrs@,
                values: values@,
                has_children,
            },
            KdlEvent::NodeClose(name) => EventView::NodeClose(name),
            KdlEvent::BracketedNodeClose(name) => EventView::BracketedNodeClose(name),
        }
    }
}

} // verus!
