//! Every node that opens is closed again, and in the right order.
//!
//! The events of a document are related to the two stacks of the parser:
//! an open event puts a name onto one of them, and a close event takes
//! the name that it carries off the top of the one that its kind of
//! closing belongs to. [`lemma_closes_match_opens`] shows this for every
//! run of the parser, from any state; [`lemma_document_balances`] draws
//! the conclusion for a whole document.
use vstd::prelude::*;
use crate::ast::KdlString;
use crate::lex::Token;
use crate::syntax::{
    lemma_elided_end_bounds, lemma_body_at_bounds, node_at, open_node, step, ParserState,
};
use crate::{EventView, ParseError};

verus! {

/// What the parser gives when it is called again and again: the events
/// up to the first error or the end, that error if there was one, and the
/// state that is left.
pub struct Run<'a> {
    pub events: Seq<EventView<'a>>,
    pub error: Option<ParseError>,
    pub last: ParserState<'a>,
}

/// A number that every call that gives an event makes smaller: twice the
/// number of tokens still to read, and the number of open nodes without
/// children.
pub open spec fn work_left<'a>(s: ParserState<'a>) -> int {
    (if 0 <= s.pos <= s.tokens.len() {
        2 * (s.tokens.len() - s.pos)
    } else {
        0
    }) + s.pending.len()
}

/// What one event does to the two stacks: `t` is what `s` becomes by the
/// event `ev`. An open event puts its name onto the stack of its kind. A
/// close event carries the name on top of the stack of its kind and
/// takes it off.
pub open spec fn moves<'a>(s: ParserState<'a>, ev: EventView<'a>, t: ParserState<'a>) -> bool {
    match ev {
        EventView::NodeOpen { name, has_children, .. } => {
            &&& t.pending == if has_children {
                s.pending
            } else {
                s.pending.push(name)
            }
            &&& t.bracketed == if has_children {
                s.bracketed.push(name)
            } else {
                s.bracketed
            }
        },
        EventView::NodeClose(name) => {
            &&& s.pending.len() > 0
            &&& name == s.pending.last()
            &&& t.pending == s.pending.drop_last()
            &&& t.bracketed == s.bracketed
        },
        EventView::BracketedNodeClose(name) => {
            &&& s.bracketed.len() > 0
            &&& name == s.bracketed.last()
            &&& t.bracketed == s.bracketed.drop_last()
            &&& t.pending == s.pending
        },
    }
}

/// One call of the parser keeps the tokens. Where it gives an event, the
/// event moves the stacks as `moves` says and there is less work left;
/// where it gives an error or nothing, the stacks stay as they are and
/// there is no more work left than before.
pub proof fn lemma_step_moves<'a>(s: ParserState<'a>)
    ensures
        step(s).1.tokens == s.tokens,
        match step(s).0 {
            Some(Ok(ev)) => moves(s, ev, step(s).1) && work_left(step(s).1) < work_left(s),
            _ => step(s).1.pending == s.pending && step(s).1.bracketed == s.bracketed
                && work_left(step(s).1) <= work_left(s),
        },
        step(s).0 is None ==> s.pending.len() == 0 && !(0 <= step(s).1.pos < s.tokens.len()),
    decreases s.tokens.len() - s.pos,
{
    if 0 <= s.pos < s.tokens.len() {
        match s.tokens[s.pos] {
            Token::BlockClose => {},
            Token::Semicolon => {},
            Token::Newline => {
                if s.pending.len() == 0 {
                    lemma_step_moves(s.at(s.pos + 1));
                }
            },
            Token::SlashDash => {
                if let Ok(o) = node_at(s.tokens, s.pos + 1) {
                    lemma_elided_end_bounds(s.tokens, s.pos + 1);
                    if o.body.error is None {
                        lemma_step_moves(s.at(crate::syntax::elided_end(s.tokens, o)));
                    }
                }
            },
            _ => {
                if node_at(s.tokens, s.pos) is Ok {
                    lemma_body_at_bounds(s.tokens, s.pos + 1, false, Seq::empty(), Seq::empty());
                }
                assert(step(s) == open_node(s));
            },
        }
    }
}

/// The run of the parser from the state `s`.
pub open spec fn run<'a>(s: ParserState<'a>) -> Run<'a>
    decreases work_left(s),
{
    match step(s) {
        (None, t) => Run { events: Seq::empty(), error: None, last: t },
        (Some(Err(e)), t) => Run { events: Seq::empty(), error: Some(e), last: t },
        (Some(Ok(ev)), t) => {
            proof {
                lemma_step_moves(s);
            }
            let rest = run(t);
            Run { events: seq![ev] + rest.events, error: rest.error, last: rest.last }
        },
    }
}

/// The two stacks after the events `events`, begun with `pending` and
/// `bracketed`; `None` where a close event does not carry the name on
/// top of its stack.
pub open spec fn replay<'a>(
    events: Seq<EventView<'a>>,
    pending: Seq<KdlString<'a>>,
    bracketed: Seq<KdlString<'a>>,
) -> Option<(Seq<KdlString<'a>>, Seq<KdlString<'a>>)>
    decreases events.len(),
{
    if events.len() == 0 {
        Some((pending, bracketed))
    } else {
        let rest = events.drop_first();
        match events[0] {
            EventView::NodeOpen { name, has_children, .. } => if has_children {
                replay(rest, pending, bracketed.push(name))
            } else {
                replay(rest, pending.push(name), bracketed)
            },
            EventView::NodeClose(name) => if pending.len() > 0 && pending.last() == name {
                replay(rest, pending.drop_last(), bracketed)
            } else {
                None
            },
            EventView::BracketedNodeClose(name) => if bracketed.len() > 0 && bracketed.last()
                == name {
                replay(rest, pending, bracketed.drop_last())
            } else {
                None
            },
        }
    }
}

/// The number of open events among `events`.
pub open spec fn opens<'a>(events: Seq<EventView<'a>>) -> nat
    decreases events.len(),
{
    if events.len() == 0 {
        0
    } else {
        opens(events.drop_first()) + if events[0] is NodeOpen {
            1nat
        } else {
            0nat
        }
    }
}

/// The number of close events among `events`, of both kinds.
pub open spec fn closes<'a>(events: Seq<EventView<'a>>) -> nat
    decreases events.len(),
{
    if events.len() == 0 {
        0
    } else {
        closes(events.drop_first()) + if events[0] is NodeOpen {
            0nat
        } else {
            1nat
        }
    }
}

/// In every run of the parser the close events match the open events:
/// each close event carries the name of the node of its kind that was
/// opened last and is still open, so that the events, replayed on the
/// stacks with which the run began, leave the stacks with which it
/// ended. The nodes open at the start and those opened since are
/// together the nodes closed and those still open. A run that ends
/// without an error leaves no node without children open.
pub proof fn lemma_closes_match_opens<'a>(s: ParserState<'a>)
    ensures
        replay(run(s).events, s.pending, s.bracketed) == Some(
            (run(s).last.pending, run(s).last.bracketed),
        ),
        s.pending.len() + s.bracketed.len() + opens(run(s).events) == closes(run(s).events) + run(
            s,
        ).last.pending.len() + run(s).last.bracketed.len(),
        run(s).error is None ==> run(s).last.pending.len() == 0,
        run(s).last.tokens == s.tokens,
    decreases work_left(s),
{
    lemma_step_moves(s);
    match step(s) {
        (Some(Ok(ev)), t) => {
            lemma_closes_match_opens(t);
            let events = run(s).events;
            assert(events.drop_first() =~= run(t).events);
            assert(events[0] == ev);
        },
        _ => {},
    }
}

/// The close events of the nodes `pending`, the one opened last first.
pub open spec fn closing<'a>(pending: Seq<KdlString<'a>>) -> Seq<EventView<'a>> {
    Seq::new(pending.len(), |i: int| EventView::NodeClose(pending[pending.len() - 1 - i]))
}

/// At the end of the document every node without children that is still
/// open is closed, each exactly once and the one opened last first, and
/// without an error. The nodes with children stay as they are: only a
/// `}` closes them.
pub proof fn lemma_end_of_input_closes_pending<'a>(s: ParserState<'a>)
    requires
        !(0 <= s.pos < s.tokens.len()),
    ensures
        run(s).events == closing(s.pending),
        run(s).error is None,
        run(s).last == (ParserState { pending: Seq::empty(), ..s }),
    decreases s.pending.len(),
{
    if s.pending.len() > 0 {
        let t = ParserState { pending: s.pending.drop_last(), ..s };
        lemma_end_of_input_closes_pending(t);
        assert(run(s).events =~= closing(s.pending));
    } else {
        assert(run(s).events =~= closing(s.pending));
        assert(s.pending =~= Seq::empty());
    }
}

/// In a well-formed document, one that is read to its end without an
/// error and in which every block is closed, there are as many close
/// events as open events, and the close events come in the order of the
/// stacks: replayed from empty stacks, the events leave them empty.
pub proof fn lemma_document_balances<'a>(tokens: Seq<Token<'a>>)
    requires
        run(ParserState::start(tokens)).error is None,
        run(ParserState::start(tokens)).last.bracketed.len() == 0,
    ensures
        opens(run(ParserState::start(tokens)).events) == closes(
            run(ParserState::start(tokens)).events,
        ),
        replay(
            run(ParserState::start(tokens)).events,
            Seq::empty(),
            Seq::empty(),
        ) == Some((Seq::<KdlString<'a>>::empty(), Seq::<KdlString<'a>>::empty())),
{
    let s = ParserState::start(tokens);
    lemma_closes_match_opens(s);
    assert(run(s).last.pending =~= Seq::empty());
    assert(run(s).last.bracketed =~= Seq::empty());
}

} // verus!
