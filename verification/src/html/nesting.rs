//! Containment in the tree the HTML parser builds, and the document kind it
//! reports: an element's open tag and
//! its children lie within the element's range, and a void element has no
//! children, for any source text. Its
//! attributes lie within its open tag whenever every open tag in the text is
//! closed by `>` or `/>`; an open tag cut off by the end of the text ends at
//! its name, before the attributes that follow it.

use vstd::prelude::*;

use crate::diagnostic::{SDiag, Severity};
use crate::html::dom::{range_ok, snode_ranges_ok, DomKind, ElementKind, SAttr, SElement, SNode};
use crate::html::lexer::{spec_tokens, Token, TokenKind};
use crate::html::parser::{
    has_name_ci, is_void_name, last_named, lemma_collect_advances, lemma_finalize_len,
    s_close_above, s_close_at_eof, s_close_element, s_collect, s_diag, s_final, s_finalize,
    s_initial, s_open_element, s_push_node, s_run, snode_range, SOpen, SState, s_kind, is_blank_node,
};
use crate::html::sound::{
    cursor, good_at, lemma_close_above_ok, lemma_close_at_eof_ok, lemma_close_element_ok, lemma_collect_ok,
    lemma_cursor_after, lemma_diag_ok, lemma_finalize_ok, lemma_last_named_index,
    lemma_open_element_ok, lemma_push_node_ok, lemma_state_weaken, lemma_token_range_ok,
    lemma_tokens_from_ok, open_ok, state_ok, tokens_ok,
};
use crate::span::{TextRange, TextSize};
use crate::text::{lower_chars, range_text};

verus! {

/// `inner` lies within `outer`.
pub open spec fn within(inner: TextRange, outer: TextRange) -> bool {
    outer.lo() <= inner.lo() && inner.hi() <= outer.hi()
}

/// Every element in the subtree has its open tag and its children within its
/// own range.
pub open spec fn nested(n: SNode) -> bool
    decreases n,
{
    match n {
        SNode::Element(e) => {
            &&& within(e.open_tag_range, e.range)
            &&& forall|i: int|
                0 <= i < e.children.len() ==> within(snode_range(#[trigger] e.children[i]), e.range)
                    && nested(e.children[i])
        },
        _ => true,
    }
}

/// Every element in the subtree has its attributes within its open tag.
pub open spec fn attrs_within(n: SNode) -> bool
    decreases n,
{
    match n {
        SNode::Element(e) => {
            &&& forall|i: int|
                0 <= i < e.attributes.len() ==> within(#[trigger] e.attributes[i].range, e.open_tag_range)
            &&& forall|i: int| 0 <= i < e.children.len() ==> attrs_within(#[trigger] e.children[i])
        },
        _ => true,
    }
}

/// Every void element in the subtree is empty.
pub open spec fn voids_empty(n: SNode) -> bool
    decreases n,
{
    match n {
        SNode::Element(e) => {
            &&& e.kind == ElementKind::Void ==> e.children.len() == 0
            &&& forall|i: int| 0 <= i < e.children.len() ==> voids_empty(#[trigger] e.children[i])
        },
        _ => true,
    }
}

/// No two attributes share a name, ignoring ASCII case.
pub open spec fn names_distinct(a: Seq<SAttr>) -> bool {
    forall|i: int, j: int|
        0 <= i < j < a.len() ==> lower_chars(#[trigger] a[i].name) != lower_chars(#[trigger] a[j].name)
}

/// Every element in the subtree has attributes with distinct names.
pub open spec fn attrs_distinct(n: SNode) -> bool
    decreases n,
{
    match n {
        SNode::Element(e) => {
            &&& names_distinct(e.attributes)
            &&& forall|i: int| 0 <= i < e.children.len() ==> attrs_distinct(#[trigger] e.children[i])
        },
        _ => true,
    }
}

pub open spec fn is_tag_end(k: TokenKind) -> bool {
    k is OpenTagEnd || k is SelfCloseTagEnd
}

/// The open tag started by token `k` is closed by a later `>` or `/>`, with
/// only attributes (or stray bytes) in between.
pub open spec fn tag_closed_after(toks: Seq<Token>, k: int) -> bool {
    exists|l: int|
        k < l < toks.len() && is_tag_end(#[trigger] toks[l].kind) && forall|j: int|
            k < j < l ==> (#[trigger] toks[j].kind is Attribute || toks[j].kind is Error)
}

/// Every open tag in the token stream is closed by `>` or `/>`.
pub open spec fn open_tags_closed(toks: Seq<Token>) -> bool {
    forall|k: int|
        0 <= k < toks.len() && (#[trigger] toks[k].kind is OpenTagStart) ==> tag_closed_after(toks, k)
}

/// A built node: contained, with empty void elements, and with attributes
/// contained when `closed`.
pub open spec fn node_nest(n: SNode, closed: bool) -> bool {
    nested(n) && voids_empty(n) && attrs_distinct(n) && (closed ==> attrs_within(n))
}

/// An open element whose open tag ends by `c`, whose attributes lie within
/// its open tag when `closed`, and whose children follow its open tag and
/// one another, ending by `c`.
pub open spec fn open_nest(o: SOpen, c: int, closed: bool) -> bool {
    &&& o.open_tag_range.hi() <= c
    &&& names_distinct(o.attributes)
    &&& forall|i: int|
        0 <= i < o.attributes.len() ==> o.open_tag_range.lo() <= (#[trigger] o.attributes[i].range).lo()
    &&& closed ==> forall|i: int|
        0 <= i < o.attributes.len() ==> (#[trigger] o.attributes[i].range).hi() <= o.open_tag_range.hi()
    &&& forall|i: int|
        0 <= i < o.children.len() ==> node_nest(#[trigger] o.children[i], closed)
            && o.open_tag_range.hi() <= snode_range(o.children[i]).lo()
            && snode_range(o.children[i]).hi() <= c
    &&& forall|i: int, j: int|
        0 <= i < j < o.children.len() ==> snode_range(#[trigger] o.children[i]).hi()
            <= snode_range(#[trigger] o.children[j]).lo()
}

/// Nothing an element above on the stack holds reaches past where that
/// element starts.
pub open spec fn before_start(st: SState, l: int) -> bool {
    &&& forall|i: int| 0 <= i < st.roots.len() ==> snode_range(#[trigger] st.roots[i]).hi() <= st.stack[l].start.raw
    &&& forall|k: int|
        0 <= k < l ==> (#[trigger] st.stack[k]).open_tag_range.hi() <= st.stack[l].start.raw
            && forall|i: int|
            0 <= i < st.stack[k].children.len() ==> snode_range(#[trigger] st.stack[k].children[i]).hi()
                <= st.stack[l].start.raw
}

/// The containment invariant of the builder at cursor `c`.
pub open spec fn nest_ok(st: SState, c: int, closed: bool) -> bool {
    &&& forall|i: int|
        0 <= i < st.roots.len() ==> node_nest(#[trigger] st.roots[i], closed)
            && snode_range(st.roots[i]).hi() <= c
    &&& forall|k: int| 0 <= k < st.stack.len() ==> open_nest(#[trigger] st.stack[k], c, closed)
    &&& forall|l: int| 0 <= l < st.stack.len() ==> #[trigger] before_start(st, l)
}

proof fn lemma_nest_weaken(st: SState, c: int, c2: int, closed: bool)
    requires
        nest_ok(st, c, closed),
        c <= c2,
    ensures
        nest_ok(st, c2, closed),
{
    assert forall|k: int| 0 <= k < st.stack.len() implies open_nest(#[trigger] st.stack[k], c2, closed) by {
        assert(open_nest(st.stack[k], c, closed));
    }
}

proof fn lemma_diag_nest(st: SState, range: TextRange, severity: Severity, message: Seq<char>, c: int, closed: bool)
    requires
        nest_ok(st, c, closed),
    ensures
        nest_ok(s_diag(st, range, severity, message), c, closed),
{
    let r = s_diag(st, range, severity, message);
    assert forall|l: int| 0 <= l < r.stack.len() implies #[trigger] before_start(r, l) by {
        assert(before_start(st, l));
    }
}

proof fn lemma_push_nest(b: Seq<u8>, st: SState, n: SNode, c: int, closed: bool)
    requires
        state_ok(b, st, c),
        nest_ok(st, c, closed),
        snode_ranges_ok(n, good_at(b)),
        node_nest(n, closed),
        snode_range(n).hi() <= c,
        st.stack.len() > 0 ==> {
            let top = st.stack.last();
            &&& top.open_tag_range.hi() <= snode_range(n).lo()
            &&& forall|i: int|
                0 <= i < top.children.len() ==> snode_range(#[trigger] top.children[i]).hi()
                    <= snode_range(n).lo()
        },
    ensures
        nest_ok(s_push_node(st, n), c, closed),
{
    let r = s_push_node(st, n);
    if st.stack.len() == 0 {
        assert forall|i: int| 0 <= i < r.roots.len() implies node_nest(#[trigger] r.roots[i], closed)
            && snode_range(r.roots[i]).hi() <= c by {
            if i < st.roots.len() {
                assert(r.roots[i] == st.roots[i]);
            }
        }
    } else {
        let last = st.stack.len() - 1;
        let top = st.stack[last];
        assert(open_nest(top, c, closed));
        let top2 = SOpen { children: top.children.push(n), ..top };
        assert forall|i: int| 0 <= i < top2.children.len() implies node_nest(#[trigger] top2.children[i], closed)
            && top2.open_tag_range.hi() <= snode_range(top2.children[i]).lo()
            && snode_range(top2.children[i]).hi() <= c by {
            if i < top.children.len() {
                assert(top2.children[i] == top.children[i]);
            }
        }
        assert forall|i: int, j: int| 0 <= i < j < top2.children.len() implies snode_range(
            #[trigger] top2.children[i],
        ).hi() <= snode_range(#[trigger] top2.children[j]).lo() by {
            assert(top2.children[i] == top.children[i]);
            if j < top.children.len() {
                assert(top2.children[j] == top.children[j]);
            }
        }
        assert(open_nest(top2, c, closed));
        assert(r.stack == st.stack.drop_last().push(top2));
        assert forall|k: int| 0 <= k < r.stack.len() implies open_nest(#[trigger] r.stack[k], c, closed) by {
            if k < last {
                assert(r.stack[k] == st.stack[k]);
            }
        }
        assert forall|l: int| 0 <= l < r.stack.len() implies #[trigger] before_start(r, l) by {
            assert(before_start(st, l));
            assert forall|k: int| 0 <= k < l implies (#[trigger] r.stack[k]).open_tag_range.hi()
                <= r.stack[l].start.raw && forall|i: int|
                0 <= i < r.stack[k].children.len() ==> snode_range(#[trigger] r.stack[k].children[i]).hi()
                    <= r.stack[l].start.raw by {
                assert(r.stack[k] == st.stack[k]);
            }
        }
    }
}

proof fn lemma_finalize_nest(
    b: Seq<u8>,
    st: SState,
    close_end: Option<TextSize>,
    c: int,
    c2: int,
    closed: bool,
)
    requires
        state_ok(b, st, c),
        nest_ok(st, c, closed),
        st.stack.len() > 0,
        c <= c2,
        close_end matches Some(e) ==> c <= e.raw <= c2 && crate::html::sound::good(b, e.raw as int),
    ensures
        nest_ok(s_finalize(st, close_end).0, c2, closed),
{
    let last = st.stack.len() - 1;
    let open = st.stack[last];
    assert(open_ok(b, open));
    assert(open_nest(open, c, closed));
    let end = match close_end {
        Some(e) => e,
        None => if open.children.len() > 0 {
            snode_range(open.children.last()).end
        } else {
            open.open_tag_range.end
        },
    };
    let range = TextRange { start: open.start, end };
    let el = SNode::Element(
        SElement {
            name: open.name,
            kind: ElementKind::Normal,
            attributes: open.attributes,
            children: open.children,
            range,
            open_tag_range: open.open_tag_range,
        },
    );
    let st1 = SState { stack: st.stack.drop_last(), ..st };
    assert(s_finalize(st, close_end).0 == s_push_node(st1, el));
    let n = open.children.len();
    assert(range_ok(open.open_tag_range, good_at(b)));
    if close_end is None && n > 0 {
        assert(snode_ranges_ok(open.children[n - 1], good_at(b)));
        assert(range_ok(snode_range(open.children[n - 1]), good_at(b)));
    }
    assert forall|i: int| 0 <= i < n implies within(snode_range(#[trigger] open.children[i]), range)
        && nested(open.children[i]) by {
        assert(node_nest(open.children[i], closed));
        assert(snode_ranges_ok(open.children[i], good_at(b)));
        assert(range_ok(snode_range(open.children[i]), good_at(b)));
        if i < n - 1 {
            assert(snode_range(open.children[i]).hi() <= snode_range(open.children[n - 1]).lo());
            assert(snode_ranges_ok(open.children[n - 1], good_at(b)));
            assert(range_ok(snode_range(open.children[n - 1]), good_at(b)));
        }
    }
    assert(nested(el));
    assert forall|i: int| 0 <= i < open.children.len() implies voids_empty(#[trigger] open.children[i]) by {
        assert(node_nest(open.children[i], closed));
    }
    assert(voids_empty(el));
    assert forall|i: int| 0 <= i < open.children.len() implies attrs_distinct(#[trigger] open.children[i]) by {
        assert(node_nest(open.children[i], closed));
    }
    assert(attrs_distinct(el));
    if closed {
        assert forall|i: int| 0 <= i < open.children.len() implies attrs_within(#[trigger] open.children[i]) by {
            assert(node_nest(open.children[i], closed));
        }
        assert forall|i: int| 0 <= i < open.attributes.len() implies within(
            #[trigger] open.attributes[i].range,
            open.open_tag_range,
        ) by {
            assert(range_ok(open.attributes[i].range, good_at(b)));
        }
        assert(attrs_within(el));
    }
    lemma_nest_weaken(st, c, c2, closed);
    assert forall|k: int| 0 <= k < st1.stack.len() implies open_nest(#[trigger] st1.stack[k], c2, closed) by {
        assert(st1.stack[k] == st.stack[k]);
    }
    assert forall|l: int| 0 <= l < st1.stack.len() implies #[trigger] before_start(st1, l) by {
        assert(before_start(st, l));
        assert forall|k: int| 0 <= k < l implies (#[trigger] st1.stack[k]).open_tag_range.hi()
            <= st1.stack[l].start.raw && forall|i: int|
            0 <= i < st1.stack[k].children.len() ==> snode_range(#[trigger] st1.stack[k].children[i]).hi()
                <= st1.stack[l].start.raw by {
            assert(st1.stack[k] == st.stack[k]);
        }
    }
    lemma_state_weaken(b, st, c, c2);
    assert(state_ok(b, st1, c2));
    assert(before_start(st, last));
    if st1.stack.len() > 0 {
        assert(st1.stack.last() == st.stack[last - 1]);
        assert(st.stack[last - 1].open_tag_range.hi() <= open.start.raw);
        assert forall|i: int| 0 <= i < st1.stack.last().children.len() implies snode_range(
            #[trigger] st1.stack.last().children[i],
        ).hi() <= snode_range(el).lo() by {
            assert(st.stack[last - 1] == st1.stack.last());
        }
    }
    assert(range_ok(range, good_at(b)));
    assert(snode_ranges_ok(el, good_at(b)));
    lemma_push_nest(b, st1, el, c2, closed);
}

proof fn lemma_close_above_nest(
    b: Seq<u8>,
    st: SState,
    index: int,
    close: TextRange,
    written: Seq<char>,
    c: int,
    closed: bool,
)
    requires
        state_ok(b, st, c),
        nest_ok(st, c, closed),
        range_ok(close, good_at(b)),
    ensures
        nest_ok(s_close_above(st, index, close, written), c, closed),
    decreases st.stack.len(),
{
    if index >= 0 && st.stack.len() > index + 1 {
        lemma_finalize_len(st, None);
        lemma_finalize_ok(b, st, None, c);
        lemma_finalize_nest(b, st, None, c, c, closed);
        let (st2, unclosed) = s_finalize(st, None);
        let st3 = match unclosed {
            Some(n) => s_diag(
                st2,
                close,
                Severity::Warning,
                "`<"@ + n + ">` implicitly closed by `</"@ + written + ">`"@,
            ),
            None => st2,
        };
        if let Some(n) = unclosed {
            let msg = "`<"@ + n + ">` implicitly closed by `</"@ + written + ">`"@;
            lemma_diag_ok(b, st2, close, Severity::Warning, msg, c);
            lemma_diag_nest(st2, close, Severity::Warning, msg, c, closed);
        }
        lemma_close_above_nest(b, st3, index, close, written, c, closed);
    }
}

proof fn lemma_close_element_nest(
    b: Seq<u8>,
    st: SState,
    written: Seq<char>,
    close: TextRange,
    c: int,
    c2: int,
    closed: bool,
)
    requires
        state_ok(b, st, c),
        nest_ok(st, c, closed),
        range_ok(close, good_at(b)),
        c <= close.lo(),
        close.hi() <= c2,
    ensures
        nest_ok(s_close_element(st, written, close), c2, closed),
{
    let name = lower_chars(written);
    lemma_last_named_index(st.stack, name);
    match last_named(st.stack, name) {
        None => {
            let msg = "stray closing tag `</"@ + name + ">`"@;
            lemma_diag_nest(st, close, Severity::Error, msg, c, closed);
            lemma_nest_weaken(s_diag(st, close, Severity::Error, msg), c, c2, closed);
        },
        Some(i) => {
            lemma_close_above_ok(b, st, i, close, written, c);
            lemma_close_above_nest(b, st, i, close, written, c, closed);
            let st2 = s_close_above(st, i, close, written);
            assert(st2.stack[st2.stack.len() - 1].start.raw <= c);
            lemma_finalize_nest(b, st2, Some(close.end), c, c2, closed);
        },
    }
}

proof fn lemma_close_at_eof_nest(b: Seq<u8>, st: SState, c: int, closed: bool)
    requires
        state_ok(b, st, c),
        nest_ok(st, c, closed),
    ensures
        nest_ok(s_close_at_eof(st), c, closed),
    decreases st.stack.len(),
{
    if st.stack.len() > 0 {
        lemma_finalize_len(st, None);
        lemma_finalize_ok(b, st, None, c);
        lemma_finalize_nest(b, st, None, c, c, closed);
        let tag = st.stack.last().open_tag_range;
        assert(open_ok(b, st.stack[st.stack.len() - 1]));
        let (st2, unclosed) = s_finalize(st, None);
        let st3 = match unclosed {
            Some(n) => s_diag(st2, tag, Severity::Warning, "unclosed element `<"@ + n + ">`"@),
            None => st2,
        };
        if let Some(n) = unclosed {
            let msg = "unclosed element `<"@ + n + ">`"@;
            lemma_diag_ok(b, st2, tag, Severity::Warning, msg, c);
            lemma_diag_nest(st2, tag, Severity::Warning, msg, c, closed);
        }
        lemma_close_at_eof_nest(b, st3, c, closed);
    }
}

proof fn lemma_collect_after(
    b: Seq<u8>,
    toks: Seq<Token>,
    pos: int,
    attrs: Seq<SAttr>,
    diags: Seq<SDiag>,
    end_range: TextRange,
    lo: int,
)
    requires
        tokens_ok(b, toks, 0, b.len() as int),
        0 <= pos <= toks.len(),
        lo <= cursor(b, toks, pos),
        forall|i: int| 0 <= i < attrs.len() ==> lo <= (#[trigger] attrs[i].range).lo(),
    ensures
        ({
            let r = s_collect(b, toks, pos, attrs, diags, end_range);
            &&& forall|i: int| 0 <= i < r.0.len() ==> lo <= (#[trigger] r.0[i].range).lo()
            &&& r.1 == end_range || r.1.hi() <= cursor(b, toks, r.3)
        }),
    decreases toks.len() - pos,
{
    lemma_collect_advances(b, toks, pos, attrs, diags, end_range);
    if pos < toks.len() {
        let t = toks[pos];
        lemma_cursor_after(b, toks, pos, pos + 1);
        match t.kind {
            TokenKind::Attribute { name, value } => {
                let written = range_text(b, name);
                if has_name_ci(attrs, lower_chars(written)) {
                    let d2 = diags.push(
                        SDiag {
                            range: t.range,
                            severity: Severity::Warning,
                            message: "duplicate attribute `"@ + written + "`"@,
                        },
                    );
                    lemma_collect_after(b, toks, pos + 1, attrs, d2, end_range, lo);
                } else {
                    let v = match value {
                        Some(r) => Some(range_text(b, r)),
                        None => None,
                    };
                    let a2 = attrs.push(SAttr { name: written, value: v, range: t.range });
                    assert forall|i: int| 0 <= i < a2.len() implies lo <= (#[trigger] a2[i].range).lo() by {
                        if i < attrs.len() {
                            assert(a2[i] == attrs[i]);
                        }
                    }
                    lemma_collect_after(b, toks, pos + 1, a2, diags, end_range, lo);
                }
            },
            TokenKind::Error => lemma_collect_after(b, toks, pos + 1, attrs, diags, end_range, lo),
            _ => {},
        }
    }
}

proof fn lemma_collect_distinct(
    b: Seq<u8>,
    toks: Seq<Token>,
    pos: int,
    attrs: Seq<SAttr>,
    diags: Seq<SDiag>,
    end_range: TextRange,
)
    requires
        names_distinct(attrs),
    ensures
        names_distinct(s_collect(b, toks, pos, attrs, diags, end_range).0),
    decreases toks.len() - pos,
{
    if 0 <= pos < toks.len() {
        let t = toks[pos];
        match t.kind {
            TokenKind::Attribute { name, value } => {
                let written = range_text(b, name);
                if has_name_ci(attrs, lower_chars(written)) {
                    let d2 = diags.push(
                        SDiag {
                            range: t.range,
                            severity: Severity::Warning,
                            message: "duplicate attribute `"@ + written + "`"@,
                        },
                    );
                    lemma_collect_distinct(b, toks, pos + 1, attrs, d2, end_range);
                } else {
                    let v = match value {
                        Some(r) => Some(range_text(b, r)),
                        None => None,
                    };
                    let a2 = attrs.push(SAttr { name: written, value: v, range: t.range });
                    assert forall|i: int, j: int| 0 <= i < j < a2.len() implies lower_chars(
                        #[trigger] a2[i].name,
                    ) != lower_chars(#[trigger] a2[j].name) by {
                        if j == attrs.len() {
                            assert(a2[i] == attrs[i]);
                            if lower_chars(attrs[i].name) == lower_chars(written) {
                                assert(has_name_ci(attrs, lower_chars(written)));
                            }
                        } else {
                            assert(a2[i] == attrs[i] && a2[j] == attrs[j]);
                        }
                    }
                    lemma_collect_distinct(b, toks, pos + 1, a2, diags, end_range);
                }
            },
            TokenKind::Error => lemma_collect_distinct(b, toks, pos + 1, attrs, diags, end_range),
            _ => {},
        }
    }
}

proof fn lemma_collect_closed(
    b: Seq<u8>,
    toks: Seq<Token>,
    pos: int,
    attrs: Seq<SAttr>,
    diags: Seq<SDiag>,
    end_range: TextRange,
    l: int,
)
    requires
        tokens_ok(b, toks, 0, b.len() as int),
        0 <= pos <= l < toks.len(),
        is_tag_end(toks[l].kind),
        forall|j: int| pos <= j < l ==> (#[trigger] toks[j].kind is Attribute || toks[j].kind is Error),
        forall|i: int| 0 <= i < attrs.len() ==> (#[trigger] attrs[i].range).hi() <= cursor(b, toks, pos),
    ensures
        ({
            let r = s_collect(b, toks, pos, attrs, diags, end_range);
            &&& r.1 == toks[l].range
            &&& forall|i: int| 0 <= i < r.0.len() ==> (#[trigger] r.0[i].range).hi() <= toks[l].range.lo()
        }),
    decreases l - pos,
{
    let t = toks[pos];
    if pos < l {
        lemma_cursor_after(b, toks, pos, pos + 1);
        assert(t.kind is Attribute || t.kind is Error);
        match t.kind {
            TokenKind::Attribute { name, value } => {
                let written = range_text(b, name);
                assert forall|i: int| 0 <= i < attrs.len() implies (#[trigger] attrs[i].range).hi()
                    <= cursor(b, toks, pos + 1) by {}
                if has_name_ci(attrs, lower_chars(written)) {
                    let d2 = diags.push(
                        SDiag {
                            range: t.range,
                            severity: Severity::Warning,
                            message: "duplicate attribute `"@ + written + "`"@,
                        },
                    );
                    lemma_collect_closed(b, toks, pos + 1, attrs, d2, end_range, l);
                } else {
                    let v = match value {
                        Some(r) => Some(range_text(b, r)),
                        None => None,
                    };
                    let a2 = attrs.push(SAttr { name: written, value: v, range: t.range });
                    assert forall|i: int| 0 <= i < a2.len() implies (#[trigger] a2[i].range).hi()
                        <= cursor(b, toks, pos + 1) by {
                        if i < attrs.len() {
                            assert(a2[i] == attrs[i]);
                        }
                    }
                    lemma_collect_closed(b, toks, pos + 1, a2, diags, end_range, l);
                }
            },
            TokenKind::Error => {
                lemma_collect_closed(b, toks, pos + 1, attrs, diags, end_range, l);
            },
            _ => {},
        }
    }
}

proof fn lemma_open_element_nest(
    st: SState,
    b: Seq<u8>,
    toks: Seq<Token>,
    pos: int,
    name: TextRange,
    start: TextRange,
    closed: bool,
)
    requires
        tokens_ok(b, toks, 0, b.len() as int),
        1 <= pos <= toks.len(),
        start == toks[pos - 1].range,
        toks[pos - 1].kind is OpenTagStart,
        state_ok(b, st, start.lo()),
        nest_ok(st, start.lo(), closed),
        closed ==> open_tags_closed(toks),
    ensures
        nest_ok(
            s_open_element(st, b, toks, pos, name, start).0,
            cursor(b, toks, s_open_element(st, b, toks, pos, name, start).1),
            closed,
        ),
{
    let c = start.lo();
    lemma_token_range_ok(b, toks, pos - 1);
    lemma_collect_ok(b, toks, pos, Seq::empty(), st.diags, toks[pos - 1].range);
    lemma_collect_after(b, toks, pos, Seq::empty(), st.diags, toks[pos - 1].range, c);
    lemma_collect_distinct(b, toks, pos, Seq::empty(), st.diags, toks[pos - 1].range);
    let (attrs, end_range, self_closed, np, diags) = s_collect(
        b,
        toks,
        pos,
        Seq::empty(),
        st.diags,
        toks[pos - 1].range,
    );
    let c2 = cursor(b, toks, np);
    lemma_cursor_after(b, toks, pos - 1, np);
    if closed {
        assert(toks[pos - 1].kind is OpenTagStart);
        assert(tag_closed_after(toks, pos - 1));
        let l = choose|l: int|
            pos - 1 < l < toks.len() && is_tag_end(#[trigger] toks[l].kind) && forall|j: int|
                pos - 1 < j < l ==> (#[trigger] toks[j].kind is Attribute || toks[j].kind is Error);
        lemma_collect_closed(b, toks, pos, Seq::empty(), st.diags, toks[pos - 1].range, l);
        lemma_token_range_ok(b, toks, l);
    }
    let st1 = SState { diags, ..st };
    assert(state_ok(b, st1, c));
    assert(nest_ok(st1, c, closed)) by {
        assert forall|l: int| 0 <= l < st1.stack.len() implies #[trigger] before_start(st1, l) by {
            assert(before_start(st, l));
        }
    }
    let raw = range_text(b, name);
    let lowered = lower_chars(raw);
    let otr = TextRange { start: start.start, end: end_range.end };
    assert(range_ok(otr, good_at(b)));
    assert(otr.hi() <= c2);
    lemma_state_weaken(b, st1, c, c2);
    lemma_nest_weaken(st1, c, c2, closed);
    if is_void_name(lowered) || self_closed {
        let kind = if is_void_name(lowered) {
            ElementKind::Void
        } else {
            ElementKind::Normal
        };
        let el = SNode::Element(
            SElement {
                name: lowered,
                kind,
                attributes: attrs,
                children: Seq::empty(),
                range: otr,
                open_tag_range: otr,
            },
        );
        assert(snode_ranges_ok(el, good_at(b)));
        assert(nested(el));
        assert(voids_empty(el));
        assert(attrs_distinct(el));
        if closed {
            assert(attrs_within(el));
        }
        if st1.stack.len() > 0 {
            let top = st1.stack[st1.stack.len() - 1];
            assert(open_nest(top, c, closed));
            assert(top.open_tag_range.hi() <= c);
            assert forall|i: int| 0 <= i < top.children.len() implies snode_range(
                #[trigger] top.children[i],
            ).hi() <= snode_range(el).lo() by {}
        }
        lemma_push_nest(b, st1, el, c2, closed);
    } else {
        let o = SOpen {
            name: lowered,
            raw_name: raw,
            attributes: attrs,
            children: Seq::empty(),
            start: start.start,
            open_tag_range: otr,
        };
        let st2 = SState { stack: st1.stack.push(o), ..st1 };
        assert(open_nest(o, c2, closed));
        assert forall|k: int| 0 <= k < st2.stack.len() implies open_nest(#[trigger] st2.stack[k], c2, closed) by {
            if k < st1.stack.len() {
                assert(st2.stack[k] == st1.stack[k]);
            }
        }
        assert forall|l: int| 0 <= l < st2.stack.len() implies #[trigger] before_start(st2, l) by {
            if l < st1.stack.len() {
                assert(before_start(st1, l));
                assert forall|k: int| 0 <= k < l implies (#[trigger] st2.stack[k]).open_tag_range.hi()
                    <= st2.stack[l].start.raw && forall|i: int|
                    0 <= i < st2.stack[k].children.len() ==> snode_range(
                        #[trigger] st2.stack[k].children[i],
                    ).hi() <= st2.stack[l].start.raw by {
                    assert(st2.stack[k] == st1.stack[k]);
                    assert(st2.stack[l] == st1.stack[l]);
                }
            } else {
                assert forall|k: int| 0 <= k < l implies (#[trigger] st2.stack[k]).open_tag_range.hi()
                    <= st2.stack[l].start.raw && forall|i: int|
                    0 <= i < st2.stack[k].children.len() ==> snode_range(
                        #[trigger] st2.stack[k].children[i],
                    ).hi() <= st2.stack[l].start.raw by {
                    assert(st2.stack[k] == st1.stack[k]);
                    assert(open_nest(st1.stack[k], c, closed));
                }
            }
        }
        assert(s_open_element(st, b, toks, pos, name, start).0 == st2);
    }
}

proof fn lemma_run_nest(b: Seq<u8>, toks: Seq<Token>, pos: int, st: SState, closed: bool)
    requires
        tokens_ok(b, toks, 0, b.len() as int),
        0 <= pos <= toks.len(),
        state_ok(b, st, cursor(b, toks, pos)),
        nest_ok(st, cursor(b, toks, pos), closed),
        closed ==> open_tags_closed(toks),
    ensures
        nest_ok(s_run(b, toks, pos, st), b.len() as int, closed),
    decreases toks.len() - pos,
{
    if pos >= toks.len() {
        return;
    }
    let t = toks[pos];
    let c = cursor(b, toks, pos);
    lemma_token_range_ok(b, toks, pos);
    lemma_cursor_after(b, toks, pos, pos + 1);
    let c1 = cursor(b, toks, pos + 1);
    match t.kind {
        TokenKind::Doctype => {
            let st2 = SState { has_doctype: true, ..st };
            assert forall|l: int| 0 <= l < st2.stack.len() implies #[trigger] before_start(st2, l) by {
                assert(before_start(st, l));
            }
            lemma_state_weaken(b, st2, c, c1);
            lemma_nest_weaken(st2, c, c1, closed);
            lemma_run_nest(b, toks, pos + 1, st2, closed);
        },
        TokenKind::Text | TokenKind::RawText | TokenKind::Comment { .. } => {
            let n = match t.kind {
                TokenKind::Comment { content } => SNode::Comment(range_text(b, content), t.range),
                _ => SNode::Text(range_text(b, t.range), t.range),
            };
            if st.stack.len() > 0 {
                let top = st.stack[st.stack.len() - 1];
                assert(open_nest(top, c, closed));
                assert forall|i: int| 0 <= i < top.children.len() implies snode_range(
                    #[trigger] top.children[i],
                ).hi() <= snode_range(n).lo() by {}
                assert(st.stack[st.stack.len() - 1].start.raw <= c);
            }
            lemma_state_weaken(b, st, c, c1);
            lemma_nest_weaken(st, c, c1, closed);
            lemma_push_node_ok(b, st, n, c1);
            lemma_push_nest(b, st, n, c1, closed);
            lemma_run_nest(b, toks, pos + 1, s_push_node(st, n), closed);
        },
        TokenKind::OpenTagStart { name } => {
            lemma_open_element_ok(st, b, toks, pos + 1, name, t.range);
            lemma_open_element_nest(st, b, toks, pos + 1, name, t.range, closed);
            let (st2, np) = s_open_element(st, b, toks, pos + 1, name, t.range);
            if np < toks.len() {
                lemma_cursor_after(b, toks, pos, np);
            }
            lemma_state_weaken(b, st2, c, cursor(b, toks, np));
            lemma_run_nest(b, toks, np, st2, closed);
        },
        TokenKind::CloseTag { name } => {
            let st2 = s_close_element(st, range_text(b, name), t.range);
            lemma_close_element_ok(b, st, range_text(b, name), t.range, c);
            lemma_close_element_nest(b, st, range_text(b, name), t.range, c, c1, closed);
            lemma_state_weaken(b, st2, c, c1);
            lemma_run_nest(b, toks, pos + 1, st2, closed);
        },
        _ => {
            lemma_state_weaken(b, st, c, c1);
            lemma_nest_weaken(st, c, c1, closed);
            lemma_run_nest(b, toks, pos + 1, st, closed);
        },
    }
}

/// Containment in the tree `parse` builds: for any source text, every
/// element's open tag and every one of its children lie within the
/// element's range, no void element has children, and no element has two
/// attributes of one name (ignoring ASCII case). When every open tag
/// in the text is closed by `>` or `/>`, every attribute also lies within
/// its element's open tag.
pub proof fn law_parse_nesting(b: Seq<u8>)
    requires
        b.len() <= u32::MAX,
    ensures
        forall|i: int| 0 <= i < s_final(b).roots.len() ==> nested(#[trigger] s_final(b).roots[i]),
        forall|i: int| 0 <= i < s_final(b).roots.len() ==> voids_empty(#[trigger] s_final(b).roots[i]),
        forall|i: int| 0 <= i < s_final(b).roots.len() ==> attrs_distinct(#[trigger] s_final(b).roots[i]),
        open_tags_closed(spec_tokens(b)) ==> forall|i: int|
            0 <= i < s_final(b).roots.len() ==> attrs_within(#[trigger] s_final(b).roots[i]),
{
    let toks = spec_tokens(b);
    let closed = open_tags_closed(toks);
    lemma_tokens_from_ok(b, 0);
    let st0 = s_initial();
    assert(state_ok(b, st0, cursor(b, toks, 0)));
    assert(nest_ok(st0, cursor(b, toks, 0), closed));
    crate::html::sound::lemma_run_ok(b, toks, 0, st0);
    lemma_run_nest(b, toks, 0, st0, closed);
    let st1 = s_run(b, toks, 0, st0);
    lemma_close_at_eof_ok(b, st1, b.len() as int);
    lemma_close_at_eof_nest(b, st1, b.len() as int, closed);
    let fin = s_final(b);
    assert forall|i: int| 0 <= i < fin.roots.len() implies nested(#[trigger] fin.roots[i]) && voids_empty(
        fin.roots[i],
    ) && attrs_distinct(fin.roots[i]) by {
        assert(node_nest(fin.roots[i], closed));
    }
    if closed {
        assert forall|i: int| 0 <= i < fin.roots.len() implies attrs_within(#[trigger] fin.roots[i]) by {
            assert(node_nest(fin.roots[i], closed));
        }
    }
}

// ---------------------------------------------------------------------------
// The document kind.

pub open spec fn has_doctype_token(toks: Seq<Token>, pos: int) -> bool {
    exists|k: int| pos <= k < toks.len() && (#[trigger] toks[k].kind) is Doctype
}

proof fn lemma_collect_consumes(
    b: Seq<u8>,
    toks: Seq<Token>,
    pos: int,
    attrs: Seq<SAttr>,
    diags: Seq<SDiag>,
    end_range: TextRange,
)
    requires
        0 <= pos <= toks.len(),
    ensures
        forall|k: int|
            pos <= k < s_collect(b, toks, pos, attrs, diags, end_range).3 ==> !((#[trigger] toks[k].kind) is Doctype),
    decreases toks.len() - pos,
{
    lemma_collect_advances(b, toks, pos, attrs, diags, end_range);
    if pos < toks.len() {
        let t = toks[pos];
        match t.kind {
            TokenKind::Attribute { name, value } => {
                let written = range_text(b, name);
                if has_name_ci(attrs, lower_chars(written)) {
                    let d2 = diags.push(
                        SDiag {
                            range: t.range,
                            severity: Severity::Warning,
                            message: "duplicate attribute `"@ + written + "`"@,
                        },
                    );
                    lemma_collect_consumes(b, toks, pos + 1, attrs, d2, end_range);
                } else {
                    let v = match value {
                        Some(r) => Some(range_text(b, r)),
                        None => None,
                    };
                    let a2 = attrs.push(SAttr { name: written, value: v, range: t.range });
                    lemma_collect_consumes(b, toks, pos + 1, a2, diags, end_range);
                }
            },
            TokenKind::Error => lemma_collect_consumes(b, toks, pos + 1, attrs, diags, end_range),
            _ => {},
        }
    }
}

proof fn lemma_close_above_doctype(st: SState, index: int, close: TextRange, written: Seq<char>)
    ensures
        s_close_above(st, index, close, written).has_doctype == st.has_doctype,
    decreases st.stack.len(),
{
    if index >= 0 && st.stack.len() > index + 1 {
        lemma_finalize_len(st, None);
        let (st2, unclosed) = s_finalize(st, None);
        let st3 = match unclosed {
            Some(n) => s_diag(
                st2,
                close,
                Severity::Warning,
                "`<"@ + n + ">` implicitly closed by `</"@ + written + ">`"@,
            ),
            None => st2,
        };
        lemma_close_above_doctype(st3, index, close, written);
    }
}

proof fn lemma_close_at_eof_doctype(st: SState)
    ensures
        s_close_at_eof(st).has_doctype == st.has_doctype,
    decreases st.stack.len(),
{
    if st.stack.len() > 0 {
        lemma_finalize_len(st, None);
        let tag = st.stack.last().open_tag_range;
        let (st2, unclosed) = s_finalize(st, None);
        let st3 = match unclosed {
            Some(n) => s_diag(st2, tag, Severity::Warning, "unclosed element `<"@ + n + ">`"@),
            None => st2,
        };
        lemma_close_at_eof_doctype(st3);
    }
}

proof fn lemma_run_doctype(b: Seq<u8>, toks: Seq<Token>, pos: int, st: SState)
    requires
        0 <= pos <= toks.len(),
    ensures
        s_run(b, toks, pos, st).has_doctype == (st.has_doctype || has_doctype_token(toks, pos)),
    decreases toks.len() - pos,
{
    if pos < toks.len() {
        let t = toks[pos];
        assert(has_doctype_token(toks, pos) == ((t.kind is Doctype) || has_doctype_token(toks, pos + 1))) by {
            if has_doctype_token(toks, pos) {
                let k = choose|k: int| pos <= k < toks.len() && (#[trigger] toks[k].kind) is Doctype;
                if k > pos {
                    assert(has_doctype_token(toks, pos + 1));
                }
            }
        }
        match t.kind {
            TokenKind::Doctype => lemma_run_doctype(b, toks, pos + 1, SState { has_doctype: true, ..st }),
            TokenKind::Text | TokenKind::RawText => lemma_run_doctype(
                b,
                toks,
                pos + 1,
                s_push_node(st, SNode::Text(range_text(b, t.range), t.range)),
            ),
            TokenKind::Comment { content } => lemma_run_doctype(
                b,
                toks,
                pos + 1,
                s_push_node(st, SNode::Comment(range_text(b, content), t.range)),
            ),
            TokenKind::OpenTagStart { name } => {
                lemma_collect_advances(b, toks, pos + 1, Seq::empty(), st.diags, toks[pos].range);
                lemma_collect_consumes(b, toks, pos + 1, Seq::empty(), st.diags, toks[pos].range);
                let (st2, np) = s_open_element(st, b, toks, pos + 1, name, t.range);
                assert(st2.has_doctype == st.has_doctype);
                assert(has_doctype_token(toks, pos + 1) == has_doctype_token(toks, np)) by {
                    if has_doctype_token(toks, pos + 1) {
                        let k = choose|k: int| pos + 1 <= k < toks.len() && (#[trigger] toks[k].kind) is Doctype;
                        assert(k >= np);
                    }
                }
                lemma_run_doctype(b, toks, np, st2);
            },
            TokenKind::CloseTag { name } => {
                let written = range_text(b, name);
                let lname = lower_chars(written);
                match last_named(st.stack, lname) {
                    Some(i) => {
                        lemma_close_above_doctype(st, i, t.range, written);
                    },
                    None => {},
                }
                lemma_run_doctype(b, toks, pos + 1, s_close_element(st, written, t.range));
            },
            _ => lemma_run_doctype(b, toks, pos + 1, st),
        }
    }
}

/// The document kind `parse` reports: a document exactly when a doctype
/// token occurs in the text; otherwise empty when every top-level node is
/// whitespace-only text, and a fragment if not.
pub proof fn law_parse_kind(b: Seq<u8>)
    ensures
        s_final(b).has_doctype == has_doctype_token(spec_tokens(b), 0),
        s_kind(s_final(b)) == if has_doctype_token(spec_tokens(b), 0) {
            DomKind::Document
        } else if forall|i: int|
            0 <= i < s_final(b).roots.len() ==> is_blank_node(#[trigger] s_final(b).roots[i]) {
            DomKind::Empty
        } else {
            DomKind::Fragment
        },
{
    lemma_run_doctype(b, spec_tokens(b), 0, s_initial());
    lemma_close_at_eof_doctype(s_run(b, spec_tokens(b), 0, s_initial()));
}

} // verus!
