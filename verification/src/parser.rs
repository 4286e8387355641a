//! The streaming parser: from tokens to open and close events.
use vstd::prelude::*;
use vstd::string::StringSliceAdditionalSpecFns;
use crate::ast::{KdlProperty, KdlString, KdlValue, TypedValue};
use crate::grammar::tokens_of;
use crate::lex::{tokenize, views, Token};
use crate::syntax::{
    block_end, body_at, lemma_elided_end_bounds, newline_at, node_at, open_event, property_at,
    rest_end, step, token_name, token_value, ParserState, Yield, MAX_OPEN_NODES,
};
use crate::{KdlEvent, ParseError, ParseResult};

verus! {

/// `heapless::Deque`: a double-ended queue with room for `N` items.
#[verifier::external_type_specification]
#[verifier::external_body]
#[verifier::reject_recursive_types(T)]
pub struct ExDeque<T, const N: usize>(heapless::Deque<T, N>);

/// A stack of the names of open nodes.
pub type NameStack<'a> = heapless::Deque<KdlString<'a>, MAX_OPEN_NODES>;

/// The names that a stack holds, the one pushed last at the end.
pub uninterp spec fn stack_names(stack: NameStack<'_>) -> Seq<KdlString<'_>>;

/// `heapless::Deque::new`: a queue that holds nothing.
#[verifier::external_body]
fn stack_new<'a>() -> (stack: NameStack<'a>)
    ensures
        stack_names(stack) == Seq::<KdlString<'a>>::empty(),
{
    heapless::Deque::new()
}

/// `heapless::Deque::push_back`: puts `name` at the back if the queue is
/// not full, and hands it back, with the queue as it was, if it is.
#[verifier::external_body]
fn stack_push<'a>(stack: &mut NameStack<'a>, name: KdlString<'a>) -> (r: Result<(), KdlString<'a>>)
    ensures
        stack_names(*old(stack)).len() < MAX_OPEN_NODES ==> r is Ok,
        stack_names(*old(stack)).len() < MAX_OPEN_NODES ==> stack_names(*final(stack))
            == stack_names(*old(stack)).push(name),
        stack_names(*old(stack)).len() >= MAX_OPEN_NODES ==> r is Err && r->Err_0 == name,
        stack_names(*old(stack)).len() >= MAX_OPEN_NODES ==> stack_names(*final(stack))
            == stack_names(*old(stack)),
{
    stack.push_back(name)
}

/// `heapless::Deque::pop_back`: takes the item at the back out and gives
/// it, or gives `None`, with the queue as it was, if nothing is held.
#[verifier::external_body]
fn stack_pop<'a>(stack: &mut NameStack<'a>) -> (r: Option<KdlString<'a>>)
    ensures
        stack_names(*old(stack)).len() > 0 ==> r == Some(stack_names(*old(stack)).last()),
        stack_names(*old(stack)).len() > 0 ==> stack_names(*final(stack)) == stack_names(
            *old(stack),
        ).drop_last(),
        stack_names(*old(stack)).len() == 0 ==> r is None,
        stack_names(*old(stack)).len() == 0 ==> stack_names(*final(stack)) == stack_names(
            *old(stack),
        ),
{
    stack.pop_back()
}

/// The value that a literal token stands for.
fn value_of<'a>(t: Token<'a>) -> (r: Option<KdlValue<'a>>)
    ensures
        r == token_value(t),
{
    match t {
        Token::Integer(i) => Some(KdlValue::Integer(i)),
        Token::StringWithEscapes(s) => Some(KdlValue::String(KdlString::Escaped(s))),
        Token::StringWithNoEscapes(s) => Some(KdlValue::String(KdlString::Escapeless(s))),
        Token::Float(f) => Some(KdlValue::Float(f)),
        Token::True => Some(KdlValue::Bool(true)),
        Token::False => Some(KdlValue::Bool(false)),
        Token::Null => Some(KdlValue::Null),
        _ => None,
    }
}

/// The string that a token stands for where a name or a key may stand.
fn name_of<'a>(t: Token<'a>) -> (r: Option<KdlString<'a>>)
    ensures
        r == token_name(t),
{
    match t {
        Token::StringWithEscapes(s) => Some(KdlString::Escaped(s)),
        Token::StringWithNoEscapes(s) => Some(KdlString::Escapeless(s)),
        Token::Identifier(s) => Some(KdlString::Escapeless(s)),
        _ => None,
    }
}

/// What a call of the parser gave, with the lists of an event as
/// sequences.
pub open spec fn yielded<'a>(r: Option<ParseResult<KdlEvent<'a>>>) -> Yield<'a> {
    match r {
        None => None,
        Some(Err(e)) => Some(Err(e)),
        Some(Ok(event)) => Some(Ok(event@)),
    }
}

/// The tokens of a document and how many of them have been read.
struct Cursor<'input> {
    tokens: Vec<Token<'input>>,
    pos: usize,
}

impl<'input> Cursor<'input> {
    #[verifier::type_invariant]
    spec fn inv(self) -> bool {
        self.pos <= self.tokens@.len()
    }

    /// The tokens of the document.
    spec fn tokens(self) -> Seq<Token<'input>> {
        self.tokens@
    }

    /// How many tokens have been read.
    spec fn position(self) -> int {
        self.pos as int
    }

    /// The token that is read next, if there is one.
    spec fn ahead(self) -> Option<Token<'input>> {
        if 0 <= self.position() < self.tokens().len() {
            Some(self.tokens()[self.position()])
        } else {
            None
        }
    }

    /// The cursor with the same tokens, `pos` of them read.
    spec fn is_at(self, before: Self, pos: int) -> bool {
        self.tokens() == before.tokens() && self.position() == pos
    }

    /// A cursor at the start of `tokens`.
    fn new(tokens: Vec<Token<'input>>) -> (r: Cursor<'input>)
        ensures
            r.tokens() == tokens@,
            r.position() == 0,
    {
        Cursor { tokens, pos: 0 }
    }

    /// The token that is read next, if there is one. Nothing is read.
    fn peek(&self) -> (r: Option<Token<'input>>)
        ensures
            r == self.ahead(),
            0 <= self.position() <= self.tokens().len(),
    {
        proof {
            use_type_invariant(self);
        }
        if self.pos < self.tokens.len() {
            Some(self.tokens[self.pos])
        } else {
            None
        }
    }

    /// Reads one token, if there is one.
    fn next(&mut self) -> (r: Option<Token<'input>>)
        ensures
            r == old(self).ahead(),
            final(self).is_at(
                *old(self),
                if r is Some {
                    old(self).position() + 1
                } else {
                    old(self).position()
                },
            ),
            0 <= final(self).position() <= final(self).tokens().len(),
    {
        proof {
            use_type_invariant(&*self);
        }
        if self.pos < self.tokens.len() {
            let token = self.tokens[self.pos];
            self.pos = self.pos + 1;
            Some(token)
        } else {
            None
        }
    }

    /// Reads the next token if it is a line break.
    fn next_if_newline(&mut self)
        ensures
            final(self).is_at(
                *old(self),
                if newline_at(old(self).tokens(), old(self).position()) {
                    old(self).position() + 1
                } else {
                    old(self).position()
                },
            ),
            0 <= final(self).position() <= final(self).tokens().len(),
    {
        if let Some(Token::Newline) = self.peek() {
            self.next();
        }
    }

    /// Reads the next token if it is a literal, and gives its value.
    fn next_if_value(&mut self) -> (r: Option<KdlValue<'input>>)
        ensures
            r == match old(self).ahead() {
                Some(t) => token_value(t),
                None => None,
            },
            final(self).is_at(
                *old(self),
                if r is Some {
                    old(self).position() + 1
                } else {
                    old(self).position()
                },
            ),
            0 <= final(self).position() <= final(self).tokens().len(),
    {
        match self.peek() {
            Some(token) => {
                let value = value_of(token);
                if value.is_some() {
                    self.next();
                }
                value
            },
            None => None,
        }
    }

    /// Reads up to the end of the block whose `{` has been read.
    fn skip_block(&mut self)
        ensures
            final(self).is_at(*old(self), block_end(old(self).tokens(), old(self).position(), 0)),
            0 <= final(self).position() <= final(self).tokens().len(),
    {
        let mut depth: usize = 0;
        proof {
            use_type_invariant(&*self);
        }
        loop
            invariant
                self.tokens() == old(self).tokens(),
                old(self).position() <= self.position() <= self.tokens().len(),
                depth <= self.position() - old(self).position(),
                block_end(old(self).tokens(), old(self).position(), 0) == block_end(
                    self.tokens(),
                    self.position(),
                    depth as nat,
                ),
            decreases self.tokens().len() - self.position(),
        {
            match self.next() {
                None => {
                    return ;
                },
                Some(Token::BlockOpen) => {
                    depth = depth + 1;
                },
                Some(Token::BlockClose) => {
                    if depth == 0 {
                        return ;
                    }
                    depth = depth - 1;
                },
                Some(_) => {},
            }
        }
    }
}

/// The parser: a reader of the open and close events of a document, one
/// per call of [`Parser::next`].
pub struct Parser<'input> {
    inner: Cursor<'input>,
    nodes_to_close: NameStack<'input>,
    bracketed_nodes_to_close: NameStack<'input>,
}

impl<'input> View for Parser<'input> {
    type V = ParserState<'input>;

    closed spec fn view(&self) -> ParserState<'input> {
        ParserState {
            tokens: self.inner.tokens(),
            pos: self.inner.position(),
            pending: stack_names(self.nodes_to_close),
            bracketed: stack_names(self.bracketed_nodes_to_close),
        }
    }
}

impl<'input> Parser<'input> {
    /// A parser of the text `to_parse`.
    pub fn from_str(to_parse: &'input str) -> (r: Parser<'input>)
        ensures
            r@ == ParserState::start(r@.tokens),
            views(r@.tokens) == tokens_of(to_parse.spec_bytes()),
    {
        Parser::new(tokenize(to_parse))
    }

    /// A parser of the document with the tokens `inner`.
    pub fn new(inner: Vec<Token<'input>>) -> (r: Parser<'input>)
        ensures
            r@ == ParserState::start(inner@),
    {
        Parser {
            inner: Cursor::new(inner),
            nodes_to_close: stack_new(),
            bracketed_nodes_to_close: stack_new(),
        }
    }

    /// Reads the rest of a property with the key `ident`, from the `=`
    /// on.
    fn property(&mut self, ident: KdlString<'input>) -> (r: ParseResult<KdlProperty<'input>>)
        requires
            old(self)@.pos < old(self)@.tokens.len(),
        ensures
            r == property_at(old(self)@.tokens, old(self)@.pos, ident).0,
            final(self)@ == old(self)@.at(property_at(old(self)@.tokens, old(self)@.pos, ident).1),
    {
        self.inner.next();
        let mut ty_desc: Option<&'input str> = None;
        let value = match self.inner.next() {
            None => {
                return Err(ParseError::IncompleteProperty);
            },
            Some(Token::TyDescriptor(desc)) => {
                ty_desc = Some(desc);
                match self.inner.next_if_value() {
                    Some(value) => value,
                    None => {
                        return Err(ParseError::IncompleteProperty);
                    },
                }
            },
            Some(other) => match value_of(other) {
                Some(value) => value,
                None => {
                    return Err(ParseError::IncompleteProperty);
                },
            },
        };
        Ok(KdlProperty { key: ident, value: TypedValue { ty: ty_desc, val: value } })
    }

    /// Reads a node opening: its name and its body, up to the terminator
    /// or into the block of children.
    fn node_open(&mut self) -> (r: ParseResult<KdlEvent<'input>>)
        ensures
            match node_at(old(self)@.tokens, old(self)@.pos) {
                Err(e) => r is Err && r->Err_0 == e && final(self)@ == old(self)@,
                Ok(o) => final(self)@ == old(self)@.at(o.body.end) && match o.body.error {
                    Some(e) => r is Err && r->Err_0 == e,
                    None => r is Ok && r->Ok_0@ == open_event(o),
                },
            },
    {
        let name = match self.inner.peek() {
            Some(token) => match name_of(token) {
                Some(name) => name,
                None => {
                    return Err(ParseError::NotANode);
                },
            },
            None => {
                return Err(ParseError::NotANode);
            },
        };
        self.inner.next();

        let mut attrs: Vec<KdlProperty<'input>> = Vec::new();
        let mut values: Vec<TypedValue<'input>> = Vec::new();
        let mut slash_dashed = false;
        let ghost goal = node_at(old(self)@.tokens, old(self)@.pos).unwrap().body;

        loop
            invariant
                node_at(old(self)@.tokens, old(self)@.pos) is Ok,
                node_at(old(self)@.tokens, old(self)@.pos).unwrap().name == name,
                node_at(old(self)@.tokens, old(self)@.pos).unwrap().body == goal,
                self@ == old(self)@.at(self@.pos),
                0 <= self@.pos <= self@.tokens.len(),
                goal == body_at(self@.tokens, self@.pos, slash_dashed, attrs@, values@),
            decreases self@.tokens.len() - self@.pos,
        {
            let token = match self.inner.peek() {
                Some(token) => token,
                None => {
                    return Ok(KdlEvent::NodeOpen { name, attrs, values, has_children: false });
                },
            };
            match token {
                Token::BlockOpen => {
                    self.inner.next();
                    if slash_dashed {
                        self.inner.skip_block();
                        return Ok(KdlEvent::NodeOpen { name, attrs, values, has_children: false });
                    } else {
                        self.inner.next_if_newline();
                        return Ok(KdlEvent::NodeOpen { name, attrs, values, has_children: true });
                    }
                },
                Token::Backslash => {
                    self.inner.next();
                    self.inner.next_if_newline();
                },
                Token::Newline | Token::Semicolon => {
                    return Ok(KdlEvent::NodeOpen { name, attrs, values, has_children: false });
                },
                Token::Identifier(_) | Token::StringWithEscapes(_) | Token::StringWithNoEscapes(
                    _,
                ) => {
                    let is_ident = matches!(token, Token::Identifier(_));
                    let ident = match name_of(token) {
                        Some(ident) => ident,
                        None => {
                            return Err(ParseError::NotANode);
                        },
                    };
                    self.inner.next();
                    if let Some(Token::Equals) = self.inner.peek() {
                        match self.property(ident) {
                            Ok(property) => {
                                if slash_dashed {
                                    slash_dashed = false;
                                } else {
                                    attrs.push(property);
                                }
                            },
                            Err(e) => {
                                return Err(e);
                            },
                        }
                    } else if !is_ident {
                        if slash_dashed {
                            slash_dashed = false;
                        } else {
                            values.push(TypedValue { ty: None, val: KdlValue::String(ident) });
                        }
                    }
                },
                Token::TyDescriptor(ty) => {
                    self.inner.next();
                    match self.inner.next_if_value() {
                        Some(val) => {
                            if slash_dashed {
                                slash_dashed = false;
                            } else {
                                values.push(TypedValue { ty: Some(ty), val });
                            }
                        },
                        None => {
                            return Err(ParseError::TypeDescriptorWithNoValue);
                        },
                    }
                },
                Token::Integer(_) | Token::Float(_) | Token::True | Token::False | Token::Null => {
                    match self.inner.next_if_value() {
                        Some(val) => {
                            if slash_dashed {
                                slash_dashed = false;
                            } else {
                                values.push(TypedValue { ty: None, val });
                            }
                        },
                        None => {
                            return Err(ParseError::NotANode);
                        },
                    }
                },
                Token::SlashDash => {
                    slash_dashed = true;
                    self.inner.next();
                },
                _ => {
                    return Err(ParseError::NotANode);
                },
            }
        }
    }

    /// Puts the name of the node that `event` opens onto the stack of its
    /// kind, and gives the event; gives the error `NestingTooDeep` where
    /// that stack is full.
    fn track(&mut self, event: KdlEvent<'input>) -> (r: ParseResult<KdlEvent<'input>>)
        requires
            event@ is NodeOpen,
        ensures
            old(self)@.has_room(event@->has_children) ==> r is Ok && r->Ok_0 == event,
            old(self)@.has_room(event@->has_children) ==> final(self)@ == old(self)@.opened(
                event@->NodeOpen_name,
                event@->has_children,
            ),
            !old(self)@.has_room(event@->has_children) ==> r is Err && r->Err_0
                == ParseError::NestingTooDeep && final(self)@ == old(self)@,
    {
        let (name, has_children) = match &event {
            KdlEvent::NodeOpen { name, has_children, .. } => (*name, *has_children),
            KdlEvent::NodeClose(name) => (*name, false),
            KdlEvent::BracketedNodeClose(name) => (*name, true),
        };
        let pushed = if has_children {
            stack_push(&mut self.bracketed_nodes_to_close, name)
        } else {
            stack_push(&mut self.nodes_to_close, name)
        };
        match pushed {
            Ok(()) => Ok(event),
            Err(_) => Err(ParseError::NestingTooDeep),
        }
    }

    /// Goes on behind the rest of a node that is dropped as a whole and
    /// whose opening has been read.
    fn skip_rest(&mut self, has_children: bool)
        ensures
            final(self)@ == old(self)@.at(
                rest_end(old(self)@.tokens, old(self)@.pos, has_children),
            ),
    {
        if has_children {
            self.inner.skip_block();
        } else {
            match self.inner.peek() {
                Some(Token::Newline) | Some(Token::Semicolon) => {
                    self.inner.next();
                },
                _ => {},
            }
        }
    }

    /// The next event of the document: `None` when every token has been
    /// read and every node without children is closed.
    pub fn next(&mut self) -> (r: Option<ParseResult<KdlEvent<'input>>>)
        ensures
            yielded(r) == step(old(self)@).0,
            final(self)@ == step(old(self)@).1,
    {
        loop
            invariant
                step(old(self)@) == step(self@),
            decreases self@.tokens.len() - self@.pos,
        {
            let token = match self.inner.peek() {
                Some(token) => token,
                None => {
                    return match stack_pop(&mut self.nodes_to_close) {
                        Some(to_close) => Some(Ok(KdlEvent::NodeClose(to_close))),
                        None => None,
                    };
                },
            };
            match token {
                Token::BlockClose => {
                    self.inner.next();
                    return match stack_pop(&mut self.bracketed_nodes_to_close) {
                        Some(to_close) => Some(Ok(KdlEvent::BracketedNodeClose(to_close))),
                        None => Some(Err(ParseError::MismatchedNodeClosing)),
                    };
                },
                Token::Semicolon => {
                    self.inner.next();
                    return match stack_pop(&mut self.nodes_to_close) {
                        Some(to_close) => Some(Ok(KdlEvent::NodeClose(to_close))),
                        None => Some(Err(ParseError::MismatchedNodeClosing)),
                    };
                },
                Token::Newline => {
                    self.inner.next();
                    match stack_pop(&mut self.nodes_to_close) {
                        Some(to_close) => {
                            return Some(Ok(KdlEvent::NodeClose(to_close)));
                        },
                        None => {},
                    }
                },
                Token::SlashDash => {
                    self.inner.next();
                    let ghost at_name = self@.pos;
                    match self.node_open() {
                        Err(e) => {
                            return Some(Err(e));
                        },
                        Ok(event) => {
                            proof {
                                lemma_elided_end_bounds(self@.tokens, at_name);
                            }
                            let has_children = match event {
                                KdlEvent::NodeOpen { has_children, .. } => has_children,
                                _ => false,
                            };
                            self.skip_rest(has_children);
                        },
                    }
                },
                _ => {
                    return match self.node_open() {
                        Err(e) => Some(Err(e)),
                        Ok(event) => Some(self.track(event)),
                    };
                },
            }
        }
    }
}

} // verus!
