//! Moving a parsed tree's ranges by a base offset, so that a tree parsed from
//! a block addresses the file the block was cut from.

use vstd::prelude::*;

use crate::html::dom::{
    attr_abs, attrs_abs, node_abs, nodes_abs, range_ok, snode_ranges_ok, Attribute, Comment, Element,
    Node, SAttr, SElement, SNode, Text,
};
use crate::span::{TextRange, TextSize};

verus! {

pub open spec fn shift_range(r: TextRange, base: int) -> TextRange {
    TextRange {
        start: TextSize { raw: (r.lo() + base) as u32 },
        end: TextSize { raw: (r.hi() + base) as u32 },
    }
}

pub open spec fn shift_attrs(s: Seq<SAttr>, base: int) -> Seq<SAttr> {
    s.map_values(|a: SAttr| SAttr { range: shift_range(a.range, base), ..a })
}

/// The node with every range in its subtree moved by `base`.
pub open spec fn shift_node(n: SNode, base: int) -> SNode
    decreases n,
{
    match n {
        SNode::Element(e) => SNode::Element(
            SElement {
                attributes: shift_attrs(e.attributes, base),
                children: shift_nodes(e.children, base),
                range: shift_range(e.range, base),
                open_tag_range: shift_range(e.open_tag_range, base),
                ..e
            },
        ),
        SNode::Text(t, r) => SNode::Text(t, shift_range(r, base)),
        SNode::Comment(t, r) => SNode::Comment(t, shift_range(r, base)),
    }
}

pub open spec fn shift_nodes(s: Seq<SNode>, base: int) -> Seq<SNode>
    decreases s,
{
    if s.len() == 0 {
        Seq::empty()
    } else {
        shift_nodes(s.drop_last(), base).push(shift_node(s.last(), base))
    }
}

/// Offsets that stay within `u32` when moved by `base`.
pub open spec fn fits_after(base: int) -> spec_fn(int) -> bool {
    |i: int| 0 <= i && i + base <= u32::MAX
}

fn shifted(r: TextRange, base: TextSize) -> (s: TextRange)
    requires
        range_ok(r, fits_after(base.raw as int)),
    ensures
        s == shift_range(r, base.raw as int),
{
    TextRange {
        start: TextSize { raw: r.start.raw + base.raw },
        end: TextSize { raw: r.end.raw + base.raw },
    }
}

fn copy_opt(o: &Option<String>) -> (r: Option<String>)
    ensures
        crate::html::dom::opt_view(r) == crate::html::dom::opt_view(*o),
{
    match o {
        Some(s) => Some(s.clone()),
        None => None,
    }
}

/// A copy of the node with every range in its subtree moved by `base`.
pub fn rebased_node(n: &Node, base: TextSize) -> (r: Node)
    requires
        snode_ranges_ok(node_abs(*n), fits_after(base.raw as int)),
    ensures
        node_abs(r) == shift_node(node_abs(*n), base.raw as int),
    decreases n,
{
    let ghost b = base.raw as int;
    match n {
        Node::Element(e) => {
            let ghost av = attrs_abs(e.attributes@);
            let mut attributes: Vec<Attribute> = Vec::new();
            let mut i: usize = 0;
            while i < e.attributes.len()
                invariant
                    i <= e.attributes@.len(),
                    av == attrs_abs(e.attributes@),
                    snode_ranges_ok(node_abs(*n), fits_after(b)),
                    node_abs(*n) == SNode::Element(
                        SElement {
                            name: e.name@,
                            kind: e.kind,
                            attributes: av,
                            children: nodes_abs(e.children@),
                            range: e.range,
                            open_tag_range: e.open_tag_range,
                        },
                    ),
                    b == base.raw,
                    attrs_abs(attributes@) == shift_attrs(av.take(i as int), b),
                decreases e.attributes@.len() - i,
            {
                let a = &e.attributes[i];
                assert(av[i as int] == attr_abs(*a));
                assert(range_ok(av[i as int].range, fits_after(b)));
                let moved = Attribute { name: a.name.clone(), value: copy_opt(&a.value), range: shifted(a.range, base) };
                let ghost before = attributes@;
                attributes.push(moved);
                assert(attr_abs(moved) == SAttr { range: shift_range(av[i as int].range, b), ..av[i as int] });
                assert(attrs_abs(attributes@) =~= attrs_abs(before).push(attr_abs(moved)));
                assert(av.take(i + 1) =~= av.take(i as int).push(av[i as int]));
                assert(shift_attrs(av.take(i + 1), b) =~= shift_attrs(av.take(i as int), b).push(
                    SAttr { range: shift_range(av[i as int].range, b), ..av[i as int] },
                ));
                assert(attrs_abs(attributes@) =~= shift_attrs(av.take(i + 1), b));
                i += 1;
            }
            assert(av.take(e.attributes@.len() as int) =~= av);
            let children = rebased_nodes(&e.children, base);
            Node::Element(
                Element {
                    name: e.name.clone(),
                    kind: e.kind,
                    attributes,
                    children,
                    range: shifted(e.range, base),
                    open_tag_range: shifted(e.open_tag_range, base),
                },
            )
        },
        Node::Text(t) => Node::Text(Text { value: t.value.clone(), range: shifted(t.range, base) }),
        Node::Comment(c) => Node::Comment(
            Comment { value: c.value.clone(), range: shifted(c.range, base) },
        ),
    }
}

/// Copies of the nodes with every range moved by `base`.
pub fn rebased_nodes(s: &Vec<Node>, base: TextSize) -> (r: Vec<Node>)
    requires
        forall|i: int|
            0 <= i < nodes_abs(s@).len() ==> snode_ranges_ok(
                #[trigger] nodes_abs(s@)[i],
                fits_after(base.raw as int),
            ),
    ensures
        nodes_abs(r@) == shift_nodes(nodes_abs(s@), base.raw as int),
    decreases s,
{
    let mut out: Vec<Node> = Vec::new();
    let mut i: usize = 0;
    proof {
        crate::html::dom::lemma_nodes_abs_len(s@);
        assert(s@.take(0) =~= Seq::<Node>::empty());
    }
    while i < s.len()
        invariant
            i <= s@.len(),
            nodes_abs(s@).len() == s@.len(),
            forall|k: int|
                0 <= k < nodes_abs(s@).len() ==> snode_ranges_ok(
                    #[trigger] nodes_abs(s@)[k],
                    fits_after(base.raw as int),
                ),
            nodes_abs(out@) == shift_nodes(nodes_abs(s@.take(i as int)), base.raw as int),
        decreases s@.len() - i,
    {
        proof {
            lemma_nodes_abs_index(s@, i as int);
        }
        let moved = rebased_node(&s[i], base);
        let ghost before = out@;
        out.push(moved);
        proof {
            crate::html::dom::lemma_nodes_abs_push(before, moved);
            assert(s@.take(i + 1) =~= s@.take(i as int).push(s@[i as int]));
            crate::html::dom::lemma_nodes_abs_push(s@.take(i as int), s@[i as int]);
            let x = nodes_abs(s@.take(i as int));
            let y = node_abs(s@[i as int]);
            assert(x.push(y).drop_last() =~= x);
            assert(shift_nodes(x.push(y), base.raw as int) == shift_nodes(x, base.raw as int).push(
                shift_node(y, base.raw as int),
            ));
        }
        i += 1;
    }
    assert(s@.take(s@.len() as int) =~= s@);
    out
}

proof fn lemma_nodes_abs_index(s: Seq<Node>, i: int)
    requires
        0 <= i < s.len(),
    ensures
        nodes_abs(s)[i] == node_abs(s[i]),
        nodes_abs(s).len() == s.len(),
    decreases s.len(),
{
    crate::html::dom::lemma_nodes_abs_len(s);
    if i < s.len() - 1 {
        lemma_nodes_abs_index(s.drop_last(), i);
        crate::html::dom::lemma_nodes_abs_len(s.drop_last());
    }
}

pub proof fn lemma_shift_nodes_len(s: Seq<SNode>, base: int)
    ensures
        shift_nodes(s, base).len() == s.len(),
    decreases s.len(),
{
    if s.len() > 0 {
        lemma_shift_nodes_len(s.drop_last(), base);
    }
}

pub proof fn lemma_shift_nodes_index(s: Seq<SNode>, base: int, i: int)
    requires
        0 <= i < s.len(),
    ensures
        shift_nodes(s, base)[i] == shift_node(s[i], base),
    decreases s.len(),
{
    lemma_shift_nodes_len(s.drop_last(), base);
    if i < s.len() - 1 {
        lemma_shift_nodes_index(s.drop_last(), base, i);
        assert(s.drop_last()[i] == s[i]);
    }
}

/// Moving a tree by `base` moves each of its ranges: when every offset that
/// satisfies `p` fits and lands, moved, on an offset satisfying `q`, every
/// range of the moved tree satisfies `q`.
pub proof fn lemma_shift_ranges_ok(n: SNode, base: int, p: spec_fn(int) -> bool, q: spec_fn(int) -> bool)
    requires
        snode_ranges_ok(n, p),
        forall|i: int| #[trigger] p(i) ==> 0 <= i && 0 <= i + base <= u32::MAX && q(i + base),
    ensures
        snode_ranges_ok(shift_node(n, base), q),
    decreases n,
{
    match n {
        SNode::Element(e) => {
            let m = shift_node(n, base);
            let shifted_children = shift_nodes(e.children, base);
            lemma_shift_nodes_len(e.children, base);
            assert forall|i: int| 0 <= i < shifted_children.len() implies snode_ranges_ok(
                #[trigger] shifted_children[i],
                q,
            ) by {
                lemma_shift_nodes_index(e.children, base, i);
                lemma_shift_ranges_ok(e.children[i], base, p, q);
            }
            let sa = shift_attrs(e.attributes, base);
            assert forall|i: int| 0 <= i < sa.len() implies range_ok(#[trigger] sa[i].range, q) by {
                assert(range_ok(e.attributes[i].range, p));
            }
            assert(range_ok(e.range, p));
            assert(range_ok(e.open_tag_range, p));
        },
        SNode::Text(_, r) => {
            assert(range_ok(r, p));
        },
        SNode::Comment(_, r) => {
            assert(range_ok(r, p));
        },
    }
}

} // verus!
