//! The DOM produced by the HTML tree builder.

use vstd::prelude::*;

use crate::diagnostic::Diagnostic;
use crate::span::TextRange;

verus! {

/// How the parsed fragment is classified.
#[derive(Debug, Clone, Copy, PartialEq, Eq, Structural)]
pub enum DomKind {
    /// The source carried a `<!DOCTYPE …>`.
    Document,
    /// Some top-level content that is not just whitespace.
    Fragment,
    /// Nothing but whitespace text at the top level.
    Empty,
}

/// Whether an element can have children.
#[derive(Debug, Clone, Copy, PartialEq, Eq, Structural)]
pub enum ElementKind {
    Normal,
    /// A void element (`br`, `img`, …): never has children or a close tag.
    Void,
}

#[derive(Debug, Clone)]
pub struct Attribute {
    /// The name as written (its case kept).
    pub name: String,
    pub value: Option<String>,
    pub range: TextRange,
}

#[derive(Debug, Clone)]
pub struct Text {
    pub value: String,
    pub range: TextRange,
}

#[derive(Debug, Clone)]
pub struct Comment {
    pub value: String,
    pub range: TextRange,
}

#[derive(Debug)]
pub struct Element {
    /// The tag name, ASCII-lowercased.
    pub name: String,
    pub kind: ElementKind,
    pub attributes: Vec<Attribute>,
    pub children: Vec<Node>,
    /// From the `<` of the open tag to the end of the close tag (or of the
    /// last child when implicitly closed).
    pub range: TextRange,
    pub open_tag_range: TextRange,
}

#[derive(Debug)]
pub enum Node {
    Element(Element),
    Text(Text),
    Comment(Comment),
}

#[derive(Debug)]
pub struct Dom {
    pub kind: DomKind,
    pub children: Vec<Node>,
}

/// The tree plus the recoverable problems found while building it.
#[derive(Debug)]
pub struct ParseResult {
    pub dom: Dom,
    pub diagnostics: Vec<Diagnostic>,
}

impl Node {
    pub open spec fn spec_range(self) -> TextRange {
        match self {
            Node::Element(e) => e.range,
            Node::Text(t) => t.range,
            Node::Comment(c) => c.range,
        }
    }

    /// The node's source range.
    pub fn range(&self) -> (r: TextRange)
        ensures
            r == self.spec_range(),
    {
        match self {
            Node::Element(e) => e.range,
            Node::Text(t) => t.range,
            Node::Comment(c) => c.range,
        }
    }
}

/// Every range in the subtree is not reversed and satisfies `ok` at both ends.
pub open spec fn snode_ranges_ok(n: SNode, ok: spec_fn(int) -> bool) -> bool
    decreases n,
{
    match n {
        SNode::Element(e) => {
            &&& range_ok(e.range, ok)
            &&& range_ok(e.open_tag_range, ok)
            &&& forall|i: int| 0 <= i < e.attributes.len() ==> range_ok(#[trigger] e.attributes[i].range, ok)
            &&& forall|i: int| 0 <= i < e.children.len() ==> snode_ranges_ok(#[trigger] e.children[i], ok)
        },
        SNode::Text(_, r) => range_ok(r, ok),
        SNode::Comment(_, r) => range_ok(r, ok),
    }
}

/// The range is not reversed and satisfies `ok` at both ends.
pub open spec fn range_ok(r: TextRange, ok: spec_fn(int) -> bool) -> bool {
    r.lo() <= r.hi() && ok(r.lo()) && ok(r.hi())
}

// ---------------------------------------------------------------------------
// The abstract view of the tree: strings become their character sequences.

pub struct SAttr {
    pub name: Seq<char>,
    pub value: Option<Seq<char>>,
    pub range: TextRange,
}

pub struct SElement {
    pub name: Seq<char>,
    pub kind: ElementKind,
    pub attributes: Seq<SAttr>,
    pub children: Seq<SNode>,
    pub range: TextRange,
    pub open_tag_range: TextRange,
}

pub enum SNode {
    Element(SElement),
    Text(Seq<char>, TextRange),
    Comment(Seq<char>, TextRange),
}

pub open spec fn opt_view(o: Option<String>) -> Option<Seq<char>> {
    match o {
        Some(s) => Some(s@),
        None => None,
    }
}

pub open spec fn attr_abs(a: Attribute) -> SAttr {
    SAttr { name: a.name@, value: opt_view(a.value), range: a.range }
}

pub open spec fn attrs_abs(s: Seq<Attribute>) -> Seq<SAttr> {
    s.map_values(|a: Attribute| attr_abs(a))
}

pub open spec fn node_abs(n: Node) -> SNode
    decreases n,
{
    match n {
        Node::Element(e) => SNode::Element(
            SElement {
                name: e.name@,
                kind: e.kind,
                attributes: attrs_abs(e.attributes@),
                children: nodes_abs(e.children@),
                range: e.range,
                open_tag_range: e.open_tag_range,
            },
        ),
        Node::Text(t) => SNode::Text(t.value@, t.range),
        Node::Comment(c) => SNode::Comment(c.value@, c.range),
    }
}

pub open spec fn nodes_abs(s: Seq<Node>) -> Seq<SNode>
    decreases s,
{
    if s.len() == 0 {
        Seq::empty()
    } else {
        nodes_abs(s.drop_last()).push(node_abs(s.last()))
    }
}

pub proof fn lemma_nodes_abs_push(s: Seq<Node>, n: Node)
    ensures
        nodes_abs(s.push(n)) == nodes_abs(s).push(node_abs(n)),
{
    assert(s.push(n).drop_last() =~= s);
}

pub proof fn lemma_nodes_abs_len(s: Seq<Node>)
    ensures
        nodes_abs(s).len() == s.len(),
    decreases s.len(),
{
    if s.len() > 0 {
        lemma_nodes_abs_len(s.drop_last());
    }
}

} // verus!
