//! The syntax of nodes, stated over the tokens of a document.
//!
//! A node is a name, then properties, values and at most one block of
//! children, up to a `;`, a line break or the end of the document. The
//! parser reads one node opening at a time ([`node_at`]) and keeps the
//! names of the nodes that are open on two stacks, one for the nodes that
//! a terminator closes and one for the nodes that a `}` closes. One call
//! of the parser is one [`step`].
use vstd::prelude::*;
use crate::ast::{KdlProperty, KdlString, KdlValue, TypedValue};
use crate::lex::Token;
use crate::{EventView, ParseError};

verus! {

/// The number of nodes that each of the two stacks can hold.
pub const MAX_OPEN_NODES: usize = 256;

/// The value that a literal token stands for.
pub open spec fn token_value<'a>(t: Token<'a>) -> Option<KdlValue<'a>> {
    match t {
        Token::Integer(i) => Some(KdlValue::Integer(i)),
        Token::StringWithEscapes(s) => Some(KdlValue::String(KdlString::Escaped(s))),
        Token::StringWithNoEscapes(s) => Some(KdlValue::String(KdlString::Escapeless(s))),
        Token::Float(f) => Some(KdlValue::Float(f)),
        Token::True => Some(KdlValue::Bool(true)),
        Token::False => Some(KdlValue::Bool(false)),
        Token::Null => Some(KdlValue::Null),
        _ => None,
    }
}

/// The string that a token stands for where a name or a key may stand: a
/// string or a bare word.
pub open spec fn token_name<'a>(t: Token<'a>) -> Option<KdlString<'a>> {
    match t {
        Token::StringWithEscapes(s) => Some(KdlString::Escaped(s)),
        Token::StringWithNoEscapes(s) => Some(KdlString::Escapeless(s)),
        Token::Identifier(s) => Some(KdlString::Escapeless(s)),
        _ => None,
    }
}

/// Whether there is a token at `pos` and it is a line break.
pub open spec fn newline_at<'a>(tokens: Seq<Token<'a>>, pos: int) -> bool {
    0 <= pos < tokens.len() && tokens[pos] is Newline
}

/// Reads the rest of a property with the key `key` from the `=` at `pos`
/// on. Gives the property, or the error, and where the reading stopped. A
/// value must follow the `=`, with or without a type annotation in front
/// of it; the token behind the `=` is taken even where it is none.
pub open spec fn property_at<'a>(tokens: Seq<Token<'a>>, pos: int, key: KdlString<'a>) -> (
    Result<KdlProperty<'a>, ParseError>,
    int,
) {
    if !(0 <= pos + 1 < tokens.len()) {
        (Err(ParseError::IncompleteProperty), pos + 1)
    } else {
        match tokens[pos + 1] {
            Token::TyDescriptor(ty) => if pos + 2 < tokens.len() && token_value(tokens[pos + 2])
                is Some {
                (
                    Ok(
                        KdlProperty {
                            key,
                            value: TypedValue {
                                ty: Some(ty),
                                val: token_value(tokens[pos + 2]).unwrap(),
                            },
                        },
                    ),
                    pos + 3,
                )
            } else {
                (Err(ParseError::IncompleteProperty), pos + 2)
            },
            t => match token_value(t) {
                Some(val) => {
                    let value = TypedValue { ty: None, val };
                    (Ok(KdlProperty { key, value }), pos + 2)
                },
                None => (Err(ParseError::IncompleteProperty), pos + 2),
            },
        }
    }
}

/// Where the block ends whose `{` has been read, from `pos` on and with
/// `depth` blocks open inside it: behind the `}` that closes it, or at the
/// end of the document. Blocks inside the block are skipped whole.
pub open spec fn block_end<'a>(tokens: Seq<Token<'a>>, pos: int, depth: nat) -> int
    decreases tokens.len() - pos,
{
    if !(0 <= pos < tokens.len()) {
        pos
    } else {
        match tokens[pos] {
            Token::BlockOpen => block_end(tokens, pos + 1, depth + 1),
            Token::BlockClose => if depth == 0 {
                pos + 1
            } else {
                block_end(tokens, pos + 1, (depth - 1) as nat)
            },
            _ => block_end(tokens, pos + 1, depth),
        }
    }
}

/// What the reading of a node's body came to.
pub struct Body<'a> {
    /// The properties, in their order.
    pub attrs: Seq<KdlProperty<'a>>,
    /// The values, in their order.
    pub values: Seq<TypedValue<'a>>,
    /// Whether the node opened a block of children.
    pub has_children: bool,
    /// The error that ended the reading, if one did.
    pub error: Option<ParseError>,
    /// Where the reading stopped.
    pub end: int,
}

/// `xs` with `x` behind it, unless `elide` says to drop `x`.
pub open spec fn keep<T>(xs: Seq<T>, x: T, elide: bool) -> Seq<T> {
    if elide {
        xs
    } else {
        xs.push(x)
    }
}

/// Reads the body of a node from `pos` on, with `attrs` and `values` read
/// so far. `elide` is set behind a `/-`: what comes next, a property, a
/// value or the block of children, is then read and dropped.
///
/// - `{` opens the children and ends the body, together with a line break
///   behind it. Behind a `/-` the whole block is skipped instead, blocks
///   inside it included, and the body ends without children.
/// - `\` joins lines: it is skipped, together with a line break behind it.
/// - A line break or a `;` ends the body and is left where it is.
/// - A string or a bare word with `=` behind it begins a property. A
///   string without one is a value; a bare word without one is skipped.
/// - A type annotation must be followed by a value.
/// - A number, a boolean or `null` is a value.
/// - Anything else is no part of a node.
pub open spec fn body_at<'a>(
    tokens: Seq<Token<'a>>,
    pos: int,
    elide: bool,
    attrs: Seq<KdlProperty<'a>>,
    values: Seq<TypedValue<'a>>,
) -> Body<'a>
    decreases tokens.len() - pos,
{
    if !(0 <= pos < tokens.len()) {
        Body { attrs, values, has_children: false, error: None, end: pos }
    } else {
        match tokens[pos] {
            Token::BlockOpen => if elide {
                Body {
                    attrs,
                    values,
                    has_children: false,
                    error: None,
                    end: block_end(tokens, pos + 1, 0),
                }
            } else {
                Body {
                    attrs,
                    values,
                    has_children: true,
                    error: None,
                    end: if newline_at(tokens, pos + 1) {
                        pos + 2
                    } else {
                        pos + 1
                    },
                }
            },
            Token::Backslash => body_at(
                tokens,
                if newline_at(tokens, pos + 1) {
                    pos + 2
                } else {
                    pos + 1
                },
                elide,
                attrs,
                values,
            ),
            Token::Newline | Token::Semicolon => Body {
                attrs,
                values,
                has_children: false,
                error: None,
                end: pos,
            },
            Token::Identifier(_) | Token::StringWithEscapes(_) | Token::StringWithNoEscapes(_) => {
                let key = token_name(tokens[pos]).unwrap();
                if pos + 1 < tokens.len() && tokens[pos + 1] is Equals {
                    match property_at(tokens, pos + 1, key) {
                        (Ok(p), end) => body_at(
                            tokens,
                            end,
                            false,
                            keep(attrs, p, elide),
                            values,
                        ),
                        (Err(e), end) => Body {
                            attrs,
                            values,
                            has_children: false,
                            error: Some(e),
                            end,
                        },
                    }
                } else if tokens[pos] is Identifier {
                    body_at(tokens, pos + 1, elide, attrs, values)
                } else {
                    body_at(
                        tokens,
                        pos + 1,
                        false,
                        attrs,
                        keep(values, TypedValue { ty: None, val: KdlValue::String(key) }, elide),
                    )
                }
            },
            Token::TyDescriptor(ty) => if pos + 1 < tokens.len() && token_value(tokens[pos + 1])
                is Some {
                body_at(
                    tokens,
                    pos + 2,
                    false,
                    attrs,
                    keep(
                        values,
                        TypedValue { ty: Some(ty), val: token_value(tokens[pos + 1]).unwrap() },
                        elide,
                    ),
                )
            } else {
                Body {
                    attrs,
                    values,
                    has_children: false,
                    error: Some(ParseError::TypeDescriptorWithNoValue),
                    end: pos + 1,
                }
            },
            Token::Integer(_) | Token::Float(_) | Token::True | Token::False | Token::Null => {
                body_at(
                    tokens,
                    pos + 1,
                    false,
                    attrs,
                    keep(
                        values,
                        TypedValue { ty: None, val: token_value(tokens[pos]).unwrap() },
                        elide,
                    ),
                )
            },
            Token::SlashDash => body_at(tokens, pos + 1, true, attrs, values),
            _ => Body {
                attrs,
                values,
                has_children: false,
                error: Some(ParseError::NotANode),
                end: pos,
            },
        }
    }
}

/// What the reading of a node opening came to.
pub struct Opening<'a> {
    /// The name of the node.
    pub name: KdlString<'a>,
    /// Its body.
    pub body: Body<'a>,
}

/// Reads a node opening at `pos`: a name, which is a string or a bare
/// word, and the body behind it. Gives the error `NotANode`, with nothing
/// read, where no name stands at `pos`.
pub open spec fn node_at<'a>(tokens: Seq<Token<'a>>, pos: int) -> Result<
    Opening<'a>,
    ParseError,
> {
    if 0 <= pos < tokens.len() && token_name(tokens[pos]) is Some {
        Ok(
            Opening {
                name: token_name(tokens[pos]).unwrap(),
                body: body_at(tokens, pos + 1, false, Seq::empty(), Seq::empty()),
            },
        )
    } else {
        Err(ParseError::NotANode)
    }
}

/// A block ends at or behind the place from which it is read.
pub proof fn lemma_block_end_bounds<'a>(tokens: Seq<Token<'a>>, pos: int, depth: nat)
    requires
        0 <= pos <= tokens.len(),
    ensures
        pos <= block_end(tokens, pos, depth) <= tokens.len(),
    decreases tokens.len() - pos,
{
    if pos < tokens.len() {
        match tokens[pos] {
            Token::BlockOpen => lemma_block_end_bounds(tokens, pos + 1, depth + 1),
            Token::BlockClose => if depth != 0 {
                lemma_block_end_bounds(tokens, pos + 1, (depth - 1) as nat)
            },
            _ => lemma_block_end_bounds(tokens, pos + 1, depth),
        }
    }
}

/// The reading of a body stops at or behind the place where it began,
/// and inside the document.
pub proof fn lemma_body_at_bounds<'a>(
    tokens: Seq<Token<'a>>,
    pos: int,
    elide: bool,
    attrs: Seq<KdlProperty<'a>>,
    values: Seq<TypedValue<'a>>,
)
    requires
        0 <= pos <= tokens.len(),
    ensures
        pos <= body_at(tokens, pos, elide, attrs, values).end <= tokens.len(),
    decreases tokens.len() - pos,
{
    if pos < tokens.len() {
        match tokens[pos] {
            Token::BlockOpen => {
                lemma_block_end_bounds(tokens, pos + 1, 0);
            },
            Token::Backslash => {
                let next = if newline_at(tokens, pos + 1) {
                    pos + 2
                } else {
                    pos + 1
                };
                lemma_body_at_bounds(tokens, next, elide, attrs, values);
            },
            Token::Identifier(_) | Token::StringWithEscapes(_) | Token::StringWithNoEscapes(_) => {
                let key = token_name(tokens[pos]).unwrap();
                if pos + 1 < tokens.len() && tokens[pos + 1] is Equals {
                    if let (Ok(p), end) = property_at(tokens, pos + 1, key) {
                        lemma_body_at_bounds(tokens, end, false, keep(attrs, p, elide), values);
                    }
                } else if tokens[pos] is Identifier {
                    lemma_body_at_bounds(tokens, pos + 1, elide, attrs, values);
                } else {
                    lemma_body_at_bounds(
                        tokens,
                        pos + 1,
                        false,
                        attrs,
                        keep(values, TypedValue { ty: None, val: KdlValue::String(key) }, elide),
                    );
                }
            },
            Token::TyDescriptor(ty) => {
                if pos + 1 < tokens.len() && token_value(tokens[pos + 1]) is Some {
                    lemma_body_at_bounds(
                        tokens,
                        pos + 2,
                        false,
                        attrs,
                        keep(
                            values,
                            TypedValue { ty: Some(ty), val: token_value(tokens[pos + 1]).unwrap() },
                            elide,
                        ),
                    );
                }
            },
            Token::Integer(_) | Token::Float(_) | Token::True | Token::False | Token::Null => {
                lemma_body_at_bounds(
                    tokens,
                    pos + 1,
                    false,
                    attrs,
                    keep(
                        values,
                        TypedValue { ty: None, val: token_value(tokens[pos]).unwrap() },
                        elide,
                    ),
                );
            },
            Token::SlashDash => {
                lemma_body_at_bounds(tokens, pos + 1, true, attrs, values);
            },
            _ => {},
        }
    }
}

/// What the parser holds between two calls.
pub struct ParserState<'a> {
    /// The tokens of the document.
    pub tokens: Seq<Token<'a>>,
    /// How many of them have been read.
    pub pos: int,
    /// The names of the open nodes without children, which a `;`, a line
    /// break or the end of the document closes; the one opened last at
    /// the end.
    pub pending: Seq<KdlString<'a>>,
    /// The names of the open nodes with children, which a `}` closes; the
    /// one opened last at the end.
    pub bracketed: Seq<KdlString<'a>>,
}

impl<'a> ParserState<'a> {
    /// The state at the start of `tokens`.
    pub open spec fn start(tokens: Seq<Token<'a>>) -> Self {
        ParserState { tokens, pos: 0, pending: Seq::empty(), bracketed: Seq::empty() }
    }

    /// The same state with `pos` tokens read.
    pub open spec fn at(self, pos: int) -> Self {
        ParserState { pos, ..self }
    }

    /// The state after the node `name` has opened.
    pub open spec fn opened(self, name: KdlString<'a>, has_children: bool) -> Self {
        if has_children {
            ParserState { bracketed: self.bracketed.push(name), ..self }
        } else {
            ParserState { pending: self.pending.push(name), ..self }
        }
    }

    /// Whether there is room to keep track of one more open node of this
    /// kind.
    pub open spec fn has_room(self, has_children: bool) -> bool {
        if has_children {
            self.bracketed.len() < MAX_OPEN_NODES
        } else {
            self.pending.len() < MAX_OPEN_NODES
        }
    }
}

/// What one call of the parser gives: an event, an error, or `None` at
/// the end.
pub type Yield<'a> = Option<Result<EventView<'a>, ParseError>>;

/// The event with which the node `o` opens.
pub open spec fn open_event<'a>(o: Opening<'a>) -> EventView<'a> {
    EventView::NodeOpen {
        name: o.name,
        attrs: o.body.attrs,
        values: o.body.values,
        has_children: o.body.has_children,
    }
}

/// Where the rest of a node ends whose opening ended at `end`: behind
/// its block of children, with every block inside it, or behind the `;`
/// or the line break that ends it.
pub open spec fn rest_end<'a>(tokens: Seq<Token<'a>>, end: int, has_children: bool) -> int {
    if has_children {
        block_end(tokens, end, 0)
    } else if 0 <= end < tokens.len() && (tokens[end] is Newline || tokens[end] is Semicolon) {
        end + 1
    } else {
        end
    }
}

/// Where the parser goes on behind a node that was read and is dropped
/// as a whole.
pub open spec fn elided_end<'a>(tokens: Seq<Token<'a>>, o: Opening<'a>) -> int {
    rest_end(tokens, o.body.end, o.body.has_children)
}

/// Reads a node opening at the place of `s`. The name of the node goes
/// onto the stack of its kind; where that stack is full the node is read
/// and the error `NestingTooDeep` is given.
pub open spec fn open_node<'a>(s: ParserState<'a>) -> (Yield<'a>, ParserState<'a>) {
    match node_at(s.tokens, s.pos) {
        Err(e) => (Some(Err(e)), s),
        Ok(o) => match o.body.error {
            Some(e) => (Some(Err(e)), s.at(o.body.end)),
            None => if s.has_room(o.body.has_children) {
                (Some(Ok(open_event(o))), s.at(o.body.end).opened(o.name, o.body.has_children))
            } else {
                (Some(Err(ParseError::NestingTooDeep)), s.at(o.body.end))
            },
        },
    }
}

/// One call of the parser: what it gives and the state that it leaves.
///
/// - At the end of the document the open nodes without children close,
///   the one opened last first, one per call; then the parser is done.
/// - `}` closes the node with children that was opened last, and `;` the
///   node without children that was opened last. Where there is none,
///   the token is read and the error `MismatchedNodeClosing` is given.
/// - A line break closes the node without children that was opened last;
///   where there is none it is skipped.
/// - `/-` drops the node behind it as a whole: the node is read, nothing
///   is given for it, and the parser goes on behind it.
/// - Anything else opens a node.
pub open spec fn step<'a>(s: ParserState<'a>) -> (Yield<'a>, ParserState<'a>)
    decreases s.tokens.len() - s.pos,
{
    if !(0 <= s.pos < s.tokens.len()) {
        if s.pending.len() > 0 {
            (
                Some(Ok(EventView::NodeClose(s.pending.last()))),
                ParserState { pending: s.pending.drop_last(), ..s },
            )
        } else {
            (None, s)
        }
    } else {
        match s.tokens[s.pos] {
            Token::BlockClose => if s.bracketed.len() > 0 {
                (
                    Some(Ok(EventView::BracketedNodeClose(s.bracketed.last()))),
                    ParserState { pos: s.pos + 1, bracketed: s.bracketed.drop_last(), ..s },
                )
            } else {
                (Some(Err(ParseError::MismatchedNodeClosing)), s.at(s.pos + 1))
            },
            Token::Semicolon => if s.pending.len() > 0 {
                (
                    Some(Ok(EventView::NodeClose(s.pending.last()))),
                    ParserState { pos: s.pos + 1, pending: s.pending.drop_last(), ..s },
                )
            } else {
                (Some(Err(ParseError::MismatchedNodeClosing)), s.at(s.pos + 1))
            },
            Token::Newline => if s.pending.len() > 0 {
                (
                    Some(Ok(EventView::NodeClose(s.pending.last()))),
                    ParserState { pos: s.pos + 1, pending: s.pending.drop_last(), ..s },
                )
            } else {
                step(s.at(s.pos + 1))
            },
            Token::SlashDash => match node_at(s.tokens, s.pos + 1) {
                Err(e) => (Some(Err(e)), s.at(s.pos + 1)),
                Ok(o) => match o.body.error {
                    Some(e) => (Some(Err(e)), s.at(o.body.end)),
                    None => {
                        proof {
                            lemma_elided_end_bounds(s.tokens, s.pos + 1);
                        }
                        step(s.at(elided_end(s.tokens, o)))
                    },
                },
            },
            _ => open_node(s),
        }
    }
}

/// A node that is dropped ends behind its name, and inside the document.
pub proof fn lemma_elided_end_bounds<'a>(tokens: Seq<Token<'a>>, pos: int)
    requires
        node_at(tokens, pos) is Ok,
    ensures
        pos < node_at(tokens, pos).unwrap().body.end <= tokens.len(),
        node_at(tokens, pos).unwrap().body.end <= elided_end(
            tokens,
            node_at(tokens, pos).unwrap(),
        ) <= tokens.len(),
{
    lemma_body_at_bounds(tokens, pos + 1, false, Seq::empty(), Seq::empty());
    lemma_block_end_bounds(tokens, node_at(tokens, pos).unwrap().body.end, 0);
}

} // verus!
