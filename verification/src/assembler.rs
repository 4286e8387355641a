//! Folding the events of a document into a tree of nodes.
use vstd::prelude::*;
use std::borrow::Cow;
use crate::ast::{KdlProperty, TypedValue};
use crate::balance::{lemma_step_moves, work_left};
use crate::parser::Parser;
use crate::syntax::{step, ParserState};
use crate::{EventView, KdlEvent, ParseError, ParseResult};

verus! {

/// A node of a document with everything inside it.
#[derive(Debug)]
pub struct KdlNode<'a> {
    /// The name, with its escapes resolved.
    pub name: Cow<'a, str>,
    /// The properties, in their order.
    pub attrs: Vec<KdlProperty<'a>>,
    /// The values, in their order.
    pub values: Vec<TypedValue<'a>>,
    /// The nodes of its block of children, in their order.
    pub children: Vec<KdlNode<'a>>,
}

/// A node with its lists as sequences.
pub struct NodeView<'a> {
    pub name: Seq<char>,
    pub attrs: Seq<KdlProperty<'a>>,
    pub values: Seq<TypedValue<'a>>,
    pub children: Seq<NodeView<'a>>,
}

/// The node `n` with its lists as sequences.
pub open spec fn node_view<'a>(n: KdlNode<'a>) -> NodeView<'a>
    decreases n,
{
    NodeView {
        name: n.name@,
        attrs: n.attrs@,
        values: n.values@,
        children: node_views(n.children@),
    }
}

/// The nodes of `nodes`, each with its lists as sequences.
pub open spec fn node_views<'a>(nodes: Seq<KdlNode<'a>>) -> Seq<NodeView<'a>>
    decreases nodes,
{
    if nodes.len() == 0 {
        Seq::empty()
    } else {
        node_views(nodes.drop_last()).push(node_view(nodes.last()))
    }
}

impl<'a> View for KdlNode<'a> {
    type V = NodeView<'a>;

    open spec fn view(&self) -> NodeView<'a> {
        node_view(*self)
    }
}

/// The views of a list with one more node are the views of the list
/// with the view of that node behind them.
pub proof fn lemma_node_views_push<'a>(nodes: Seq<KdlNode<'a>>, n: KdlNode<'a>)
    ensures
        node_views(nodes.push(n)) == node_views(nodes).push(n@),
{
    assert(nodes.push(n).drop_last() =~= nodes);
}

/// What the assembling of a list of sibling nodes came to.
pub struct Assembled<'a> {
    /// The nodes that were completed, in their order.
    pub nodes: Seq<NodeView<'a>>,
    /// The error that ended the assembling, if one did.
    pub error: Option<ParseError>,
    /// The state in which the parser was left.
    pub last: ParserState<'a>,
}

/// The sibling nodes that the events of the parser describe from the
/// state `s` on, up to the `}` that closes their parent or the end of
/// the document.
///
/// An open event begins a node; if the node has children, they are the
/// siblings that follow, up to the `}` of its block. The close event of
/// a node without children is passed over. The first error of the
/// parser, or of a name whose escapes are malformed, ends the
/// assembling; the nodes completed before it are kept.
pub open spec fn siblings<'a>(s: ParserState<'a>) -> Assembled<'a>
    decreases work_left(s),
{
    match step(s) {
        (None, t) => Assembled { nodes: Seq::empty(), error: None, last: t },
        (Some(Err(e)), t) => Assembled { nodes: Seq::empty(), error: Some(e), last: t },
        (Some(Ok(ev)), t) => {
            proof {
                lemma_step_moves(s);
            }
            match ev {
                EventView::NodeClose(_) => siblings(t),
                EventView::BracketedNodeClose(_) => Assembled {
                    nodes: Seq::empty(),
                    error: None,
                    last: t,
                },
                EventView::NodeOpen { name, attrs, values, has_children } => match name.text() {
                    Err(e) => Assembled { nodes: Seq::empty(), error: Some(e), last: t },
                    Ok(text) => {
                        let inner = if has_children {
                            siblings(t)
                        } else {
                            Assembled { nodes: Seq::empty(), error: None, last: t }
                        };
                        let node = NodeView { name: text, attrs, values, children: inner.nodes };
                        if inner.error is Some {
                            Assembled { nodes: Seq::empty(), error: inner.error, last: inner.last }
                        } else if work_left(inner.last) < work_left(s) {
                            let rest = siblings(inner.last);
                            Assembled {
                                nodes: seq![node] + rest.nodes,
                                error: rest.error,
                                last: rest.last,
                            }
                        } else {
                            Assembled { nodes: seq![node], error: None, last: inner.last }
                        }
                    },
                },
            }
        },
    }
}

/// Assembling leaves no more work than there was, and keeps the tokens.
pub proof fn lemma_siblings_progress<'a>(s: ParserState<'a>)
    ensures
        work_left(siblings(s).last) <= work_left(s),
        siblings(s).last.tokens == s.tokens,
    decreases work_left(s),
{
    lemma_step_moves(s);
    match step(s) {
        (Some(Ok(ev)), t) => match ev {
            EventView::NodeClose(_) => {
                lemma_siblings_progress(t);
            },
            EventView::BracketedNodeClose(_) => {},
            EventView::NodeOpen { name, attrs, values, has_children } => {
                if name.text() is Ok {
                    if has_children {
                        lemma_siblings_progress(t);
                    }
                    let inner = if has_children {
                        siblings(t)
                    } else {
                        Assembled { nodes: Seq::empty(), error: None, last: t }
                    };
                    if inner.error is None {
                        lemma_siblings_progress(inner.last);
                    }
                }
            },
        },
        _ => {},
    }
}

/// The top-level nodes of the document that `parser` reads, or the
/// first error.
pub fn parse_document<'a>(parser: &mut Parser<'a>) -> (r: ParseResult<Vec<KdlNode<'a>>>)
    ensures
        final(parser)@ == siblings(old(parser)@).last,
        match siblings(old(parser)@).error {
            Some(e) => r is Err && r->Err_0 == e,
            None => r is Ok && node_views(r->Ok_0@) == siblings(old(parser)@).nodes,
        },
{
    let mut output: Vec<KdlNode<'a>> = Vec::new();
    match add_children(parser, &mut output) {
        Ok(()) => {
            assert(node_views(output@) =~= siblings(old(parser)@).nodes);
            Ok(output)
        },
        Err(e) => Err(e),
    }
}

/// Appends to `children` the sibling nodes that `parser` reads, up to
/// the `}` that closes their parent or the end of the document.
pub fn add_children<'a>(parser: &mut Parser<'a>, children: &mut Vec<KdlNode<'a>>) -> (r:
    ParseResult<()>)
    ensures
        final(parser)@ == siblings(old(parser)@).last,
        match siblings(old(parser)@).error {
            Some(e) => r is Err && r->Err_0 == e,
            None => r is Ok,
        },
        node_views(final(children)@) == node_views(old(children)@) + siblings(
            old(parser)@,
        ).nodes,
    decreases work_left(old(parser)@),
{
    assert(node_views(children@) + siblings(parser@).nodes =~= node_views(old(children)@)
        + siblings(old(parser)@).nodes);
    loop
        invariant
            work_left(parser@) <= work_left(old(parser)@),
            siblings(parser@).last == siblings(old(parser)@).last,
            siblings(parser@).error == siblings(old(parser)@).error,
            node_views(children@) + siblings(parser@).nodes == node_views(old(children)@)
                + siblings(old(parser)@).nodes,
        decreases work_left(parser@),
    {
        let ghost s = parser@;
        let ghost before = node_views(children@);
        proof {
            lemma_step_moves(s);
        }
        match parser.next() {
            None => {
                assert(before + Seq::<NodeView<'a>>::empty() =~= before);
                return Ok(());
            },
            Some(Err(e)) => {
                assert(before + Seq::<NodeView<'a>>::empty() =~= before);
                return Err(e);
            },
            Some(Ok(event)) => match event {
                KdlEvent::NodeOpen { name, attrs, values, has_children } => {
                    let ghost t = parser@;
                    let text = match name.unescape() {
                        Ok(text) => text,
                        Err(e) => {
                            assert(before + Seq::<NodeView<'a>>::empty() =~= before);
                            return Err(e);
                        },
                    };
                    let mut inside: Vec<KdlNode<'a>> = Vec::new();
                    if has_children {
                        match add_children(parser, &mut inside) {
                            Ok(()) => {},
                            Err(e) => {
                                assert(before + Seq::<NodeView<'a>>::empty() =~= before);
                                return Err(e);
                            },
                        }
                    }
                    let child = KdlNode { name: text, children: inside, attrs, values };
                    proof {
                        let inner = if has_children {
                            siblings(t)
                        } else {
                            Assembled { nodes: Seq::empty(), error: None, last: t }
                        };
                        if has_children {
                            lemma_siblings_progress(t);
                        }
                        assert(node_views(Seq::<KdlNode<'a>>::empty()) + inner.nodes
                            =~= inner.nodes);
                        assert(child@.children == inner.nodes);
                        assert(work_left(inner.last) < work_left(s));
                        let rest = siblings(inner.last);
                        assert(siblings(s).nodes == seq![child@] + rest.nodes);
                    }
                    let ghost pushed = child;
                    let ghost earlier = children@;
                    children.push(child);
                    proof {
                        lemma_node_views_push(earlier, pushed);
                        assert(node_views(children@) =~= before.push(child@));
                        assert(before.push(child@) + siblings(parser@).nodes =~= before + (
                            seq![child@] + siblings(parser@).nodes));
                    }
                },
                KdlEvent::BracketedNodeClose(_) => {
                    assert(before + Seq::<NodeView<'a>>::empty() =~= before);
                    return Ok(());
                },
                KdlEvent::NodeClose(_) => {},
            },
        }
    }
}

} // verus!
