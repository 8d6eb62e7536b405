//! A parsed page as a flat pre-order sequence of nodes, each with its depth.
//!
//! Node `i`'s descendants are the nodes after it whose depth exceeds its own,
//! up to the first node that is not that deep; its following siblings are the
//! nodes after it at its own depth, up to the first node shallower than it.

use vstd::prelude::*;

verus! {

/// What a node is: an element with its tag name and `href` attribute, a
/// run of text, or anything else (a comment, a doctype, the document root).
#[derive(Debug, Clone, PartialEq, Eq)]
pub enum NodeKind {
    Element { name: String, href: Option<String> },
    Text { text: String },
    Other,
}

/// The mathematical form of a `NodeKind`.
pub ghost enum KindView {
    Element { name: Seq<char>, href: Option<Seq<char>> },
    Text { text: Seq<char> },
    Other,
}

pub open spec fn opt_view(o: Option<String>) -> Option<Seq<char>> {
    match o {
        Some(s) => Some(s@),
        None => None,
    }
}

impl View for NodeKind {
    type V = KindView;

    open spec fn view(&self) -> KindView {
        match self {
            NodeKind::Element { name, href } => KindView::Element { name: name@, href: opt_view(*href) },
            NodeKind::Text { text } => KindView::Text { text: text@ },
            NodeKind::Other => KindView::Other,
        }
    }
}

/// One node of a document, with its depth below the root.
#[derive(Debug, Clone, PartialEq, Eq)]
pub struct DomNode {
    pub kind: NodeKind,
    pub depth: usize,
}

/// The mathematical form of a `DomNode`.
pub ghost struct NodeView {
    pub kind: KindView,
    pub depth: nat,
}

impl View for DomNode {
    type V = NodeView;

    open spec fn view(&self) -> NodeView {
        NodeView { kind: self.kind@, depth: self.depth as nat }
    }
}

/// A document: its nodes in pre-order.
#[derive(Debug, Clone)]
pub struct Document {
    pub nodes: Vec<DomNode>,
}

impl View for Document {
    type V = Seq<NodeView>;

    open spec fn view(&self) -> Seq<NodeView> {
        self.nodes@.map_values(|n: DomNode| n@)
    }
}

/// One step of a depth-first walk of a parsed tree: a node is entered, or
/// the node entered last and not yet left is left.
#[derive(Debug, Clone)]
pub enum HtmlEvent {
    Open(NodeKind),
    Close,
}

/// The result of `Html::parse_document`, walked depth first from the
/// document root.
pub uninterp spec fn html_walk(body: Seq<char>) -> Seq<HtmlEvent>;

/// Relies on scraper's `Html::parse_document` (best effort, never fails) and
/// ego-tree's `traverse`, which opens and closes every node of the tree in
/// document order.
#[verifier::external_body]
fn walk_html(body: &str) -> (r: Vec<HtmlEvent>)
    ensures
        r@ == html_walk(body@),
{
    let doc = scraper::Html::parse_document(body);
    doc.tree.root().traverse().map(|edge| match edge {
        ego_tree::iter::Edge::Open(n) => HtmlEvent::Open(match n.value() {
            scraper::Node::Element(e) => NodeKind::Element {
                name: e.name().to_string(),
                href: e.attr("href").map(|h| h.to_string()),
            },
            scraper::Node::Text(t) => NodeKind::Text { text: t.to_string() },
            _ => NodeKind::Other,
        }),
        ego_tree::iter::Edge::Close(_) => HtmlEvent::Close,
    }).collect()
}

/// The depth at which the next opened node stands, after `events`.
pub open spec fn depth_after(events: Seq<HtmlEvent>) -> nat
    decreases events.len(),
{
    if events.len() == 0 {
        0
    } else {
        let d = depth_after(events.drop_last());
        match events.last() {
            HtmlEvent::Open(_) => d + 1,
            HtmlEvent::Close => if d > 0 { (d - 1) as nat } else { 0 },
        }
    }
}

/// The nodes that `events` open, in order, each at its depth.
pub open spec fn nodes_of(events: Seq<HtmlEvent>) -> Seq<NodeView>
    decreases events.len(),
{
    if events.len() == 0 {
        Seq::empty()
    } else {
        let prev = nodes_of(events.drop_last());
        match events.last() {
            HtmlEvent::Open(k) => prev.push(
                NodeView { kind: k@, depth: depth_after(events.drop_last()) },
            ),
            HtmlEvent::Close => prev,
        }
    }
}

proof fn lemma_depth_bound(events: Seq<HtmlEvent>)
    ensures
        depth_after(events) <= events.len(),
    decreases events.len(),
{
    if events.len() > 0 {
        lemma_depth_bound(events.drop_last());
    }
}

impl Document {
    /// Lays out the nodes that a depth-first walk opens, in order, each at
    /// the depth where it was opened.
    pub fn from_events(events: Vec<HtmlEvent>) -> (r: Document)
        ensures
            r@ == nodes_of(events@),
    {
        let ghost all = events@;
        let total: usize = events.len();
        let mut source = events;
        let mut rest: Vec<HtmlEvent> = Vec::new();
        while source.len() > 0
            invariant
                rest.len() + source.len() == all.len(),
                source@ == all.take(source.len() as int),
                forall|k: int| 0 <= k < rest.len() ==> #[trigger] rest@[k] == all[all.len() - 1 - k],
            decreases source.len(),
        {
            let ev = source.pop().unwrap();
            rest.push(ev);
            assert(source@ =~= all.take(source.len() as int));
        }
        let mut nodes: Vec<DomNode> = Vec::new();
        let mut depth: usize = 0;
        let mut i: usize = 0;
        while rest.len() > 0
            invariant
                total == all.len(),
                i + rest.len() == all.len(),
                forall|k: int| 0 <= k < rest.len() ==> #[trigger] rest@[k] == all[all.len() - 1 - k],
                depth == depth_after(all.take(i as int)),
                nodes@.map_values(|n: DomNode| n@) == nodes_of(all.take(i as int)),
            decreases rest.len(),
        {
            let ev = rest.pop().unwrap();
            proof {
                assert(ev == all[i as int]);
                assert(all.take(i + 1).drop_last() =~= all.take(i as int));
                lemma_depth_bound(all.take(i as int));
            }
            match ev {
                HtmlEvent::Open(kind) => {
                    nodes.push(DomNode { kind, depth });
                    depth = depth + 1;
                },
                HtmlEvent::Close => {
                    if depth > 0 {
                        depth = depth - 1;
                    }
                },
            }
            i = i + 1;
            assert(nodes@.map_values(|n: DomNode| n@) =~= nodes_of(all.take(i as int)));
        }
        assert(all.take(i as int) =~= all);
        Document { nodes }
    }
}

/// Parses `body` as HTML into a flat document.
pub fn parse_html(body: &str) -> (r: Document)
    ensures
        r@ == nodes_of(html_walk(body@)),
{
    Document::from_events(walk_html(body))
}

} // verus!
