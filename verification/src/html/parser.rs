//! Stack-based tree builder over the token stream.
//!
//! The builder's behaviour is written out as a state machine over abstract
//! states (`SState`) in which strings are character sequences; `parse`
//! returns the tree and diagnostics that machine computes (`s_final`). Every
//! range it builds can be used to slice the source (see `sound`), and the
//! tree nests its ranges (see `nesting`).

use vstd::prelude::*;
use vstd::string::{StringExecFns, StringSliceAdditionalSpecFns};

use crate::diagnostic::{diag_abs, diags_abs, Diagnostic, SDiag, Severity};
use crate::html::dom::{
    attrs_abs, node_abs, nodes_abs, opt_view, range_ok, snode_ranges_ok, Attribute, Comment, Dom,
    DomKind, Element, ElementKind, Node, ParseResult, SAttr, SElement, SNode, Text,
};
use crate::html::lexer::{
    comment_open_at, doctype_open_at, is_name_start, is_raw_name, lemma_scan_name_bounds,
    lemma_text_end_bounds, past_gt, rng, scan_name, skip_ws, spec_attributes, spec_step, spec_tokens,
    spec_tokens_from, text_end, tok, tokenize, Token, TokenKind,
};
use crate::html::nesting::{
    attrs_distinct, attrs_within, law_parse_nesting, nested, open_tags_closed, voids_empty,
};
use crate::html::sound::{boundary_at, law_parse_ranges_sound};
use crate::span::{TextRange, TextSize};
use crate::text::{
    all_white, concat3, concat5, is_blank, lower_chars, range_text, slice_owned, str_is,
    to_ascii_lowercase,
};

verus! {

// ---------------------------------------------------------------------------
// Element classes.

/// The void elements: never pushed on the stack, never expect a close tag.
pub open spec fn is_void_name(s: Seq<char>) -> bool {
    s == seq!['a', 'r', 'e', 'a'] || s == seq!['b', 'a', 's', 'e'] || s == seq!['b', 'r'] || s
        == seq!['c', 'o', 'l'] || s == seq!['e', 'm', 'b', 'e', 'd'] || s == seq!['h', 'r'] || s
        == seq!['i', 'm', 'g'] || s == seq!['i', 'n', 'p', 'u', 't'] || s == seq!['l', 'i', 'n', 'k']
        || s == seq!['m', 'e', 't', 'a'] || s == seq!['p', 'a', 'r', 'a', 'm'] || s == seq![
        's',
        'o',
        'u',
        'r',
        'c',
        'e',
    ] || s == seq!['t', 'r', 'a', 'c', 'k'] || s == seq!['w', 'b', 'r']
}

/// The raw-text elements, whose content is a single text node.
pub open spec fn is_raw_text_name(s: Seq<char>) -> bool {
    s == seq!['s', 'c', 'r', 'i', 'p', 't'] || s == seq!['s', 't', 'y', 'l', 'e'] || s == seq![
        't',
        'i',
        't',
        'l',
        'e',
    ] || s == seq!['t', 'e', 'x', 't', 'a', 'r', 'e', 'a']
}

/// Whether `name` (lowercase) is a void element.
pub fn is_void_element(name: &str) -> (r: bool)
    ensures
        r == is_void_name(name@),
{
    let area: [char; 4] = ['a', 'r', 'e', 'a'];
    let base: [char; 4] = ['b', 'a', 's', 'e'];
    let br: [char; 2] = ['b', 'r'];
    let col: [char; 3] = ['c', 'o', 'l'];
    let embed: [char; 5] = ['e', 'm', 'b', 'e', 'd'];
    let hr: [char; 2] = ['h', 'r'];
    let img: [char; 3] = ['i', 'm', 'g'];
    let input: [char; 5] = ['i', 'n', 'p', 'u', 't'];
    let link: [char; 4] = ['l', 'i', 'n', 'k'];
    let meta: [char; 4] = ['m', 'e', 't', 'a'];
    let param: [char; 5] = ['p', 'a', 'r', 'a', 'm'];
    let source: [char; 6] = ['s', 'o', 'u', 'r', 'c', 'e'];
    let track: [char; 5] = ['t', 'r', 'a', 'c', 'k'];
    let wbr: [char; 3] = ['w', 'b', 'r'];
    assert(area@ =~= seq!['a', 'r', 'e', 'a']);
    assert(base@ =~= seq!['b', 'a', 's', 'e']);
    assert(br@ =~= seq!['b', 'r']);
    assert(col@ =~= seq!['c', 'o', 'l']);
    assert(embed@ =~= seq!['e', 'm', 'b', 'e', 'd']);
    assert(hr@ =~= seq!['h', 'r']);
    assert(img@ =~= seq!['i', 'm', 'g']);
    assert(input@ =~= seq!['i', 'n', 'p', 'u', 't']);
    assert(link@ =~= seq!['l', 'i', 'n', 'k']);
    assert(meta@ =~= seq!['m', 'e', 't', 'a']);
    assert(param@ =~= seq!['p', 'a', 'r', 'a', 'm']);
    assert(source@ =~= seq!['s', 'o', 'u', 'r', 'c', 'e']);
    assert(track@ =~= seq!['t', 'r', 'a', 'c', 'k']);
    assert(wbr@ =~= seq!['w', 'b', 'r']);
    str_is(name, &area) || str_is(name, &base) || str_is(name, &br) || str_is(name, &col)
        || str_is(name, &embed) || str_is(name, &hr) || str_is(name, &img) || str_is(name, &input)
        || str_is(name, &link) || str_is(name, &meta) || str_is(name, &param) || str_is(
        name,
        &source,
    ) || str_is(name, &track) || str_is(name, &wbr)
}

/// Whether `name` (lowercase) is a raw-text element.
pub fn is_raw_text_element(name: &str) -> (r: bool)
    ensures
        r == is_raw_text_name(name@),
{
    let script: [char; 6] = ['s', 'c', 'r', 'i', 'p', 't'];
    let style: [char; 5] = ['s', 't', 'y', 'l', 'e'];
    let title: [char; 5] = ['t', 'i', 't', 'l', 'e'];
    let textarea: [char; 8] = ['t', 'e', 'x', 't', 'a', 'r', 'e', 'a'];
    assert(script@ =~= seq!['s', 'c', 'r', 'i', 'p', 't']);
    assert(style@ =~= seq!['s', 't', 'y', 'l', 'e']);
    assert(title@ =~= seq!['t', 'i', 't', 'l', 'e']);
    assert(textarea@ =~= seq!['t', 'e', 'x', 't', 'a', 'r', 'e', 'a']);
    str_is(name, &script) || str_is(name, &style) || str_is(name, &title) || str_is(
        name,
        &textarea,
    )
}

// ---------------------------------------------------------------------------
// The builder as a state machine over abstract states.

/// An element whose children are still being collected.
pub struct SOpen {
    pub name: Seq<char>,
    /// The name as written, for diagnostics.
    pub raw_name: Seq<char>,
    pub attributes: Seq<SAttr>,
    pub children: Seq<SNode>,
    pub start: TextSize,
    pub open_tag_range: TextRange,
}

pub struct SState {
    pub stack: Seq<SOpen>,
    pub roots: Seq<SNode>,
    pub diags: Seq<SDiag>,
    pub has_doctype: bool,
}

pub open spec fn snode_range(n: SNode) -> TextRange {
    match n {
        SNode::Element(e) => e.range,
        SNode::Text(_, r) => r,
        SNode::Comment(_, r) => r,
    }
}

pub open spec fn s_initial() -> SState {
    SState { stack: Seq::empty(), roots: Seq::empty(), diags: Seq::empty(), has_doctype: false }
}

/// Appends a finished node to whatever container is on top.
pub open spec fn s_push_node(st: SState, n: SNode) -> SState {
    if st.stack.len() == 0 {
        SState { roots: st.roots.push(n), ..st }
    } else {
        let top = st.stack.last();
        SState { stack: st.stack.drop_last().push(SOpen { children: top.children.push(n), ..top }), ..st }
    }
}

pub open spec fn s_diag(st: SState, range: TextRange, severity: Severity, message: Seq<char>) -> SState {
    SState { diags: st.diags.push(SDiag { range, severity, message }), ..st }
}

/// Pops the top open element, builds it, and appends it to its parent. With
/// `close_end` absent the element was implicitly closed: it ends where its
/// last child (or its open tag) does, and its name as written is returned.
pub open spec fn s_finalize(st: SState, close_end: Option<TextSize>) -> (SState, Option<Seq<char>>) {
    if st.stack.len() == 0 {
        (st, None)
    } else {
        let open = st.stack.last();
        let end = match close_end {
            Some(e) => e,
            None => if open.children.len() > 0 {
                snode_range(open.children.last()).end
            } else {
                open.open_tag_range.end
            },
        };
        let el = SNode::Element(
            SElement {
                name: open.name,
                kind: ElementKind::Normal,
                attributes: open.attributes,
                children: open.children,
                range: TextRange { start: open.start, end },
                open_tag_range: open.open_tag_range,
            },
        );
        let st2 = s_push_node(SState { stack: st.stack.drop_last(), ..st }, el);
        (st2, if close_end is None { Some(open.raw_name) } else { None })
    }
}

pub proof fn lemma_finalize_len(st: SState, close_end: Option<TextSize>)
    requires
        st.stack.len() > 0,
    ensures
        s_finalize(st, close_end).0.stack.len() == st.stack.len() - 1,
        close_end is None ==> s_finalize(st, close_end).1 is Some,
{
}

/// Implicitly closes the open elements above `index`.
pub open spec fn s_close_above(st: SState, index: int, close: TextRange, written: Seq<char>) -> SState
    decreases st.stack.len(),
{
    if index >= 0 && st.stack.len() > index + 1 {
        proof {
            lemma_finalize_len(st, None);
        }
        let (st2, unclosed) = s_finalize(st, None);
        let st3 = match unclosed {
            Some(n) => s_diag(
                st2,
                close,
                Severity::Warning,
                "`<"@ + n + ">` implicitly closed by `</"@ + written + ">`"@,
            ),
            None => st2,
        };
        s_close_above(st3, index, close, written)
    } else {
        st
    }
}

/// The topmost open element named `name`.
pub open spec fn last_named(stack: Seq<SOpen>, name: Seq<char>) -> Option<int>
    decreases stack.len(),
{
    if stack.len() == 0 {
        None
    } else if stack.last().name == name {
        Some(stack.len() - 1)
    } else {
        last_named(stack.drop_last(), name)
    }
}

/// A close tag `</written>` whose token covers `close`.
pub open spec fn s_close_element(st: SState, written: Seq<char>, close: TextRange) -> SState {
    let name = lower_chars(written);
    match last_named(st.stack, name) {
        None => s_diag(st, close, Severity::Error, "stray closing tag `</"@ + name + ">`"@),
        Some(i) => s_finalize(s_close_above(st, i, close, written), Some(close.end)).0,
    }
}

/// Closes every element still open at the end of input.
pub open spec fn s_close_at_eof(st: SState) -> SState
    decreases st.stack.len(),
{
    if st.stack.len() == 0 {
        st
    } else {
        proof {
            lemma_finalize_len(st, None);
        }
        let tag = st.stack.last().open_tag_range;
        let (st2, unclosed) = s_finalize(st, None);
        let st3 = match unclosed {
            Some(n) => s_diag(st2, tag, Severity::Warning, "unclosed element `<"@ + n + ">`"@),
            None => st2,
        };
        s_close_at_eof(st3)
    }
}

/// Some attribute's name equals `lowered` ignoring ASCII case.
pub open spec fn has_name_ci(attrs: Seq<SAttr>, lowered: Seq<char>) -> bool {
    exists|i: int| 0 <= i < attrs.len() && lower_chars(#[trigger] attrs[i].name) == lowered
}

/// The attribute tokens following an open-tag start at `pos`, plus its closing
/// delimiter: (attributes, delimiter range, self-closed, next position,
/// diagnostics).
pub open spec fn s_collect(
    b: Seq<u8>,
    toks: Seq<Token>,
    pos: int,
    attrs: Seq<SAttr>,
    diags: Seq<SDiag>,
    end_range: TextRange,
) -> (Seq<SAttr>, TextRange, bool, int, Seq<SDiag>)
    decreases toks.len() - pos,
{
    if pos < 0 || pos >= toks.len() {
        (attrs, end_range, false, pos, diags)
    } else {
        let t = toks[pos];
        match t.kind {
            TokenKind::Attribute { name, value } => {
                let written = range_text(b, name);
                if has_name_ci(attrs, lower_chars(written)) {
                    s_collect(
                        b,
                        toks,
                        pos + 1,
                        attrs,
                        diags.push(
                            SDiag {
                                range: t.range,
                                severity: Severity::Warning,
                                message: "duplicate attribute `"@ + written + "`"@,
                            },
                        ),
                        end_range,
                    )
                } else {
                    let v = match value {
                        Some(r) => Some(range_text(b, r)),
                        None => None,
                    };
                    s_collect(
                        b,
                        toks,
                        pos + 1,
                        attrs.push(SAttr { name: written, value: v, range: t.range }),
                        diags,
                        end_range,
                    )
                }
            },
            TokenKind::OpenTagEnd => (attrs, t.range, false, pos + 1, diags),
            TokenKind::SelfCloseTagEnd => (attrs, t.range, true, pos + 1, diags),
            TokenKind::Error => s_collect(b, toks, pos + 1, attrs, diags, end_range),
            _ => (attrs, end_range, false, pos, diags),
        }
    }
}

/// The number of attribute tokens among `toks[lo..hi]`.
pub open spec fn attr_tokens(toks: Seq<Token>, lo: int, hi: int) -> nat
    decreases hi - lo,
{
    if lo >= hi || lo < 0 || lo >= toks.len() {
        0
    } else {
        (if toks[lo].kind is Attribute {
            1nat
        } else {
            0nat
        }) + attr_tokens(toks, lo + 1, hi)
    }
}

/// Collecting an open tag's attributes never replaces one already kept (the
/// first value of a name wins) and never drops a diagnostic; every
/// diagnostic it adds is a warning; and each attribute token is either kept
/// or warned about, exactly once.
pub proof fn law_duplicate_attributes(
    b: Seq<u8>,
    toks: Seq<Token>,
    pos: int,
    attrs: Seq<SAttr>,
    diags: Seq<SDiag>,
    end_range: TextRange,
)
    requires
        0 <= pos <= toks.len(),
    ensures
        ({
            let r = s_collect(b, toks, pos, attrs, diags, end_range);
            &&& r.0.len() >= attrs.len()
            &&& r.0.subrange(0, attrs.len() as int) == attrs
            &&& r.4.len() >= diags.len()
            &&& r.4.subrange(0, diags.len() as int) == diags
            &&& forall|k: int| diags.len() <= k < r.4.len() ==> (#[trigger] r.4[k]).severity == Severity::Warning
            &&& (r.0.len() - attrs.len()) + (r.4.len() - diags.len()) == attr_tokens(toks, pos, r.3)
        }),
    decreases toks.len() - pos,
{
    lemma_collect_advances(b, toks, pos, attrs, diags, end_range);
    let r = s_collect(b, toks, pos, attrs, diags, end_range);
    if pos < toks.len() {
        let t = toks[pos];
        match t.kind {
            TokenKind::Attribute { name, value } => {
                let written = range_text(b, name);
                if has_name_ci(attrs, lower_chars(written)) {
                    let d2 = diags.push(
                        SDiag {
                            range: t.range,
                            severity: Severity::Warning,
                            message: "duplicate attribute `"@ + written + "`"@,
                        },
                    );
                    law_duplicate_attributes(b, toks, pos + 1, attrs, d2, end_range);
                    lemma_collect_advances(b, toks, pos + 1, attrs, d2, end_range);
                    assert(attr_tokens(toks, pos, r.3) == 1 + attr_tokens(toks, pos + 1, r.3));
                    assert(r.4.subrange(0, diags.len() as int) =~= r.4.subrange(0, d2.len() as int).subrange(
                        0,
                        diags.len() as int,
                    ));
                    assert(r.4[diags.len() as int] == r.4.subrange(0, d2.len() as int)[diags.len() as int]);
                } else {
                    let v = match value {
                        Some(rr) => Some(range_text(b, rr)),
                        None => None,
                    };
                    let a2 = attrs.push(SAttr { name: written, value: v, range: t.range });
                    law_duplicate_attributes(b, toks, pos + 1, a2, diags, end_range);
                    lemma_collect_advances(b, toks, pos + 1, a2, diags, end_range);
                    assert(attr_tokens(toks, pos, r.3) == 1 + attr_tokens(toks, pos + 1, r.3));
                    assert(r.0.subrange(0, attrs.len() as int) =~= r.0.subrange(0, a2.len() as int).subrange(
                        0,
                        attrs.len() as int,
                    ));
                }
            },
            TokenKind::OpenTagEnd => {
                assert(attr_tokens(toks, pos + 1, pos + 1) == 0);
                assert(r.0.subrange(0, attrs.len() as int) =~= attrs);
                assert(r.4.subrange(0, diags.len() as int) =~= diags);
            },
            TokenKind::SelfCloseTagEnd => {
                assert(attr_tokens(toks, pos + 1, pos + 1) == 0);
                assert(r.0.subrange(0, attrs.len() as int) =~= attrs);
                assert(r.4.subrange(0, diags.len() as int) =~= diags);
            },
            TokenKind::Error => {
                law_duplicate_attributes(b, toks, pos + 1, attrs, diags, end_range);
                lemma_collect_advances(b, toks, pos + 1, attrs, diags, end_range);
                assert(attr_tokens(toks, pos, r.3) == attr_tokens(toks, pos + 1, r.3));
            },
            _ => {
                assert(r.0.subrange(0, attrs.len() as int) =~= attrs);
                assert(r.4.subrange(0, diags.len() as int) =~= diags);
            },
        }
    } else {
        assert(r.0.subrange(0, attrs.len() as int) =~= attrs);
        assert(r.4.subrange(0, diags.len() as int) =~= diags);
    }
}

pub proof fn lemma_collect_advances(
    b: Seq<u8>,
    toks: Seq<Token>,
    pos: int,
    attrs: Seq<SAttr>,
    diags: Seq<SDiag>,
    end_range: TextRange,
)
    requires
        0 <= pos <= toks.len(),
    ensures
        pos <= s_collect(b, toks, pos, attrs, diags, end_range).3 <= toks.len(),
    decreases toks.len() - pos,
{
    if pos < toks.len() {
        let t = toks[pos];
        match t.kind {
            TokenKind::Attribute { name, value } => {
                let written = range_text(b, name);
                if has_name_ci(attrs, lower_chars(written)) {
                    lemma_collect_advances(
                        b,
                        toks,
                        pos + 1,
                        attrs,
                        diags.push(
                            SDiag {
                                range: t.range,
                                severity: Severity::Warning,
                                message: "duplicate attribute `"@ + written + "`"@,
                            },
                        ),
                        end_range,
                    );
                } else {
                    let v = match value {
                        Some(r) => Some(range_text(b, r)),
                        None => None,
                    };
                    lemma_collect_advances(
                        b,
                        toks,
                        pos + 1,
                        attrs.push(SAttr { name: written, value: v, range: t.range }),
                        diags,
                        end_range,
                    );
                }
            },
            TokenKind::Error => lemma_collect_advances(b, toks, pos + 1, attrs, diags, end_range),
            _ => {},
        }
    }
}

/// An open tag whose `OpenTagStart` token (name `name`, range `start`) was
/// just consumed; `pos` is the next token.
pub open spec fn s_open_element(
    st: SState,
    b: Seq<u8>,
    toks: Seq<Token>,
    pos: int,
    name: TextRange,
    start: TextRange,
) -> (SState, int) {
    let (attrs, end_range, self_closed, np, diags) = s_collect(
        b,
        toks,
        pos,
        Seq::empty(),
        st.diags,
        toks[pos - 1].range,
    );
    let st1 = SState { diags, ..st };
    let raw = range_text(b, name);
    let lowered = lower_chars(raw);
    let otr = TextRange { start: start.start, end: end_range.end };
    if is_void_name(lowered) || self_closed {
        let kind = if is_void_name(lowered) {
            ElementKind::Void
        } else {
            ElementKind::Normal
        };
        (
            s_push_node(
                st1,
                SNode::Element(
                    SElement {
                        name: lowered,
                        kind,
                        attributes: attrs,
                        children: Seq::empty(),
                        range: otr,
                        open_tag_range: otr,
                    },
                ),
            ),
            np,
        )
    } else {
        (
            SState {
                stack: st1.stack.push(
                    SOpen {
                        name: lowered,
                        raw_name: raw,
                        attributes: attrs,
                        children: Seq::empty(),
                        start: start.start,
                        open_tag_range: otr,
                    },
                ),
                ..st1
            },
            np,
        )
    }
}

/// Consumes the tokens from `pos` on.
pub open spec fn s_run(b: Seq<u8>, toks: Seq<Token>, pos: int, st: SState) -> SState
    decreases toks.len() - pos,
{
    if pos < 0 || pos >= toks.len() {
        st
    } else {
        let t = toks[pos];
        match t.kind {
            TokenKind::Doctype => s_run(b, toks, pos + 1, SState { has_doctype: true, ..st }),
            TokenKind::Text => s_run(
                b,
                toks,
                pos + 1,
                s_push_node(st, SNode::Text(range_text(b, t.range), t.range)),
            ),
            TokenKind::RawText => s_run(
                b,
                toks,
                pos + 1,
                s_push_node(st, SNode::Text(range_text(b, t.range), t.range)),
            ),
            TokenKind::Comment { content } => s_run(
                b,
                toks,
                pos + 1,
                s_push_node(st, SNode::Comment(range_text(b, content), t.range)),
            ),
            TokenKind::OpenTagStart { name } => {
                proof {
                    lemma_collect_advances(b, toks, pos + 1, Seq::empty(), st.diags, toks[pos].range);
                }
                let (st2, np) = s_open_element(st, b, toks, pos + 1, name, t.range);
                s_run(b, toks, np, st2)
            },
            TokenKind::CloseTag { name } => s_run(
                b,
                toks,
                pos + 1,
                s_close_element(st, range_text(b, name), t.range),
            ),
            _ => s_run(b, toks, pos + 1, st),
        }
    }
}

pub open spec fn is_blank_node(n: SNode) -> bool {
    match n {
        SNode::Text(v, _) => all_white(v),
        _ => false,
    }
}

pub open spec fn s_kind(st: SState) -> DomKind {
    if st.has_doctype {
        DomKind::Document
    } else if forall|i: int| 0 <= i < st.roots.len() ==> is_blank_node(#[trigger] st.roots[i]) {
        DomKind::Empty
    } else {
        DomKind::Fragment
    }
}

/// The final state for the source bytes `b`.
pub open spec fn s_final(b: Seq<u8>) -> SState {
    s_close_at_eof(s_run(b, spec_tokens(b), 0, s_initial()))
}

// ---------------------------------------------------------------------------
// The builder.

/// Parses an HTML fragment. Never fails: problems are reported as diagnostics
/// and the tree is built with browser-like recovery.
pub fn parse(source: &str) -> (r: ParseResult)
    requires
        source.spec_bytes().len() <= u32::MAX,
    ensures
        r.dom.kind == s_kind(s_final(source.spec_bytes())),
        nodes_abs(r.dom.children@) == s_final(source.spec_bytes()).roots,
        diags_abs(r.diagnostics@) == s_final(source.spec_bytes()).diags,
        forall|i: int|
            0 <= i < nodes_abs(r.dom.children@).len() ==> snode_ranges_ok(
                #[trigger] nodes_abs(r.dom.children@)[i],
                boundary_at(source.spec_bytes()),
            ),
        forall|i: int|
            0 <= i < diags_abs(r.diagnostics@).len() ==> range_ok(
                #[trigger] diags_abs(r.diagnostics@)[i].range,
                boundary_at(source.spec_bytes()),
            ),
        forall|i: int|
            0 <= i < nodes_abs(r.dom.children@).len() ==> nested(
                #[trigger] nodes_abs(r.dom.children@)[i],
            ) && voids_empty(nodes_abs(r.dom.children@)[i]) && attrs_distinct(nodes_abs(r.dom.children@)[i]),
        open_tags_closed(spec_tokens(source.spec_bytes())) ==> forall|i: int|
            0 <= i < nodes_abs(r.dom.children@).len() ==> attrs_within(
                #[trigger] nodes_abs(r.dom.children@)[i],
            ),
{
    proof {
        vstd::utf8::encode_utf8_valid_utf8(source@);
        law_parse_ranges_sound(source.spec_bytes());
        law_parse_nesting(source.spec_bytes());
    }
    let tokens = tokenize(source);
    Builder::new(source, tokens).run()
}

/// Parses an HTML fragment (see [`parse`]).
pub fn parse_html(source: &str) -> (r: ParseResult)
    requires
        source.spec_bytes().len() <= u32::MAX,
    ensures
        r.dom.kind == s_kind(s_final(source.spec_bytes())),
        nodes_abs(r.dom.children@) == s_final(source.spec_bytes()).roots,
        diags_abs(r.diagnostics@) == s_final(source.spec_bytes()).diags,
        forall|i: int|
            0 <= i < nodes_abs(r.dom.children@).len() ==> snode_ranges_ok(
                #[trigger] nodes_abs(r.dom.children@)[i],
                boundary_at(source.spec_bytes()),
            ),
        forall|i: int|
            0 <= i < diags_abs(r.diagnostics@).len() ==> range_ok(
                #[trigger] diags_abs(r.diagnostics@)[i].range,
                boundary_at(source.spec_bytes()),
            ),
        forall|i: int|
            0 <= i < nodes_abs(r.dom.children@).len() ==> nested(
                #[trigger] nodes_abs(r.dom.children@)[i],
            ) && voids_empty(nodes_abs(r.dom.children@)[i]) && attrs_distinct(nodes_abs(r.dom.children@)[i]),
        open_tags_closed(spec_tokens(source.spec_bytes())) ==> forall|i: int|
            0 <= i < nodes_abs(r.dom.children@).len() ==> attrs_within(
                #[trigger] nodes_abs(r.dom.children@)[i],
            ),
{
    parse(source)
}

struct OpenElement {
    name: String,
    raw_name: String,
    attributes: Vec<Attribute>,
    children: Vec<Node>,
    start: TextSize,
    open_tag_range: TextRange,
}

spec fn open_abs(o: OpenElement) -> SOpen {
    SOpen {
        name: o.name@,
        raw_name: o.raw_name@,
        attributes: attrs_abs(o.attributes@),
        children: nodes_abs(o.children@),
        start: o.start,
        open_tag_range: o.open_tag_range,
    }
}

spec fn opens_abs(s: Seq<OpenElement>) -> Seq<SOpen> {
    s.map_values(|o: OpenElement| open_abs(o))
}

struct Builder<'a> {
    source: &'a str,
    tokens: Vec<Token>,
    pos: usize,
    stack: Vec<OpenElement>,
    roots: Vec<Node>,
    diagnostics: Vec<Diagnostic>,
    has_doctype: bool,
}

impl<'a> Builder<'a> {
    spec fn b(&self) -> Seq<u8> {
        self.source.spec_bytes()
    }

    spec fn abs(&self) -> SState {
        SState {
            stack: opens_abs(self.stack@),
            roots: nodes_abs(self.roots@),
            diags: diags_abs(self.diagnostics@),
            has_doctype: self.has_doctype,
        }
    }

    /// The parts of the builder a step leaves alone.
    spec fn same_input(&self, other: &Self) -> bool {
        self.source == other.source && self.tokens@ == other.tokens@
    }

    fn new(source: &'a str, tokens: Vec<Token>) -> (r: Builder<'a>)
        ensures
            r.source == source,
            r.tokens@ == tokens@,
            r.pos == 0,
            r.abs() == s_initial(),
    {
        let r = Builder {
            source,
            tokens,
            pos: 0,
            stack: Vec::new(),
            roots: Vec::new(),
            diagnostics: Vec::new(),
            has_doctype: false,
        };
        proof {
            assert(opens_abs(r.stack@) =~= Seq::empty());
            assert(diags_abs(r.diagnostics@) =~= Seq::empty());
        }
        r
    }

    /// Appends a finished node to whatever container is currently on top.
    fn push_node(&mut self, node: Node)
        ensures
            final(self).same_input(old(self)),
            final(self).pos == old(self).pos,
            final(self).abs() == s_push_node(old(self).abs(), node_abs(node)),
    {
        let ghost n = node_abs(node);
        match self.stack.pop() {
            Some(top) => {
                let mut top = top;
                proof {
                    lemma_nodes_abs_push_any(top.children@, node);
                }
                top.children.push(node);
                self.stack.push(top);
                proof {
                    assert(opens_abs(self.stack@) =~= opens_abs(old(self).stack@).drop_last().push(
                        open_abs(top),
                    ));
                }
            },
            None => {
                proof {
                    lemma_nodes_abs_push_any(self.roots@, node);
                }
                self.roots.push(node);
            },
        }
    }

    fn add_diag(&mut self, d: Diagnostic)
        ensures
            final(self).same_input(old(self)),
            final(self).pos == old(self).pos,
            final(self).stack@ == old(self).stack@,
            final(self).roots@ == old(self).roots@,
            final(self).has_doctype == old(self).has_doctype,
            final(self).abs() == s_diag(old(self).abs(), d.range, d.severity, d.message@),
    {
        self.diagnostics.push(d);
        proof {
            assert(diags_abs(self.diagnostics@) =~= diags_abs(old(self).diagnostics@).push(
                diag_abs(d),
            ));
        }
    }

    fn run(self) -> (r: ParseResult)
        requires
            self.pos == 0,
            self.abs() == s_initial(),
            self.tokens@ == spec_tokens(self.b()),
        ensures
            r.dom.kind == s_kind(s_final(self.b())),
            nodes_abs(r.dom.children@) == s_final(self.b()).roots,
            diags_abs(r.diagnostics@) == s_final(self.b()).diags,
    {
        let mut this = self;
        let ghost b = this.b();
        let ghost toks = this.tokens@;
        let ghost goal = s_run(b, toks, 0, s_initial());
        while this.pos < this.tokens.len()
            invariant
                this.b() == b,
                this.tokens@ == toks,
                this.pos <= toks.len(),
                s_run(b, toks, this.pos as int, this.abs()) == goal,
            decreases toks.len() - this.pos,
        {
            let token = this.tokens[this.pos];
            this.pos += 1;
            match token.kind {
                TokenKind::Doctype => this.has_doctype = true,
                TokenKind::Text => {
                    let value = slice_owned(this.source, token.range);
                    this.push_node(Node::Text(Text { value, range: token.range }));
                },
                TokenKind::Comment { content } => {
                    let value = slice_owned(this.source, content);
                    this.push_node(Node::Comment(Comment { value, range: token.range }));
                },
                TokenKind::RawText => {
                    let value = slice_owned(this.source, token.range);
                    this.push_node(Node::Text(Text { value, range: token.range }));
                },
                TokenKind::OpenTagStart { name } => {
                    proof {
                        lemma_collect_advances(
                            b,
                            toks,
                            this.pos as int,
                            Seq::empty(),
                            this.abs().diags,
                            toks[this.pos - 1].range,
                        );
                    }
                    this.open_element(name, token.range);
                },
                TokenKind::CloseTag { name } => this.close_element(name, token.range),
                // The delimiters and stray errors are consumed alongside their
                // open tag; meeting them standalone means nothing to do.
                _ => {},
            }
        }
        this.close_unclosed_at_eof();
        let kind = if this.has_doctype {
            DomKind::Document
        } else if this.all_roots_blank() {
            DomKind::Empty
        } else {
            DomKind::Fragment
        };
        ParseResult { dom: Dom { kind, children: this.roots }, diagnostics: this.diagnostics }
    }

    fn all_roots_blank(&self) -> (r: bool)
        ensures
            r == forall|i: int|
                0 <= i < self.abs().roots.len() ==> is_blank_node(#[trigger] self.abs().roots[i]),
    {
        proof {
            crate::html::dom::lemma_nodes_abs_len(self.roots@);
        }
        let mut i: usize = 0;
        while i < self.roots.len()
            invariant
                i <= self.roots@.len(),
                nodes_abs(self.roots@).len() == self.roots@.len(),
                forall|k: int| 0 <= k < i ==> is_blank_node(#[trigger] nodes_abs(self.roots@)[k]),
            decreases self.roots@.len() - i,
        {
            proof {
                lemma_nodes_abs_index(self.roots@, i as int);
            }
            let blank = match &self.roots[i] {
                Node::Text(t) => is_blank(t.value.as_str()),
                _ => false,
            };
            if !blank {
                proof {
                    assert(!is_blank_node(self.abs().roots[i as int]));
                }
                return false;
            }
            i += 1;
        }
        true
    }

    fn open_element(&mut self, name_range: TextRange, start_range: TextRange)
        requires
            0 < old(self).pos <= old(self).tokens@.len(),
        ensures
            final(self).same_input(old(self)),
            (final(self).abs(), final(self).pos as int) == s_open_element(
                old(self).abs(),
                old(self).b(),
                old(self).tokens@,
                old(self).pos as int,
                name_range,
                start_range,
            ),
    {
        let raw_name = slice_owned(self.source, name_range);
        let name = to_ascii_lowercase(raw_name.as_str());
        let (attributes, end_range, self_closed) = self.collect_attributes();
        let open_tag_range = TextRange { start: start_range.start, end: end_range.end };
        if is_void_element(name.as_str()) {
            let element = Element {
                name,
                kind: ElementKind::Void,
                attributes,
                children: Vec::new(),
                range: open_tag_range,
                open_tag_range,
            };
            proof {
                assert(nodes_abs(element.children@) =~= Seq::empty());
            }
            self.push_node(Node::Element(element));
            return;
        }
        if self_closed {
            let element = Element {
                name,
                kind: ElementKind::Normal,
                attributes,
                children: Vec::new(),
                range: open_tag_range,
                open_tag_range,
            };
            proof {
                assert(nodes_abs(element.children@) =~= Seq::empty());
            }
            self.push_node(Node::Element(element));
            return;
        }
        let open = OpenElement {
            name,
            raw_name,
            attributes,
            children: Vec::new(),
            start: start_range.start,
            open_tag_range,
        };
        proof {
            assert(nodes_abs(open.children@) =~= Seq::empty());
        }
        self.stack.push(open);
        proof {
            assert(opens_abs(self.stack@) =~= opens_abs(old(self).stack@).push(open_abs(open)));
        }
    }

    /// Consumes attribute tokens following an `OpenTagStart` plus the closing
    /// delimiter: the attributes, the delimiter's range, and whether the tag
    /// self-closed.
    fn collect_attributes(&mut self) -> (r: (Vec<Attribute>, TextRange, bool))
        requires
            0 < old(self).pos <= old(self).tokens@.len(),
        ensures
            final(self).same_input(old(self)),
            final(self).stack@ == old(self).stack@,
            final(self).roots@ == old(self).roots@,
            final(self).has_doctype == old(self).has_doctype,
            ({
                let (attrs, end_range, self_closed, np, diags) = s_collect(
                    old(self).b(),
                    old(self).tokens@,
                    old(self).pos as int,
                    Seq::empty(),
                    old(self).abs().diags,
                    old(self).tokens@[old(self).pos - 1].range,
                );
                &&& attrs_abs(r.0@) == attrs
                &&& r.1 == end_range
                &&& r.2 == self_closed
                &&& final(self).pos == np
                &&& final(self).abs().diags == diags
            }),
    {
        let ghost b = self.b();
        let ghost toks = self.tokens@;
        let mut attributes: Vec<Attribute> = Vec::new();
        // Fall back to the previous token's end if the stream ends abruptly.
        let mut end_range = self.tokens[self.pos - 1].range;
        let ghost goal = s_collect(
            b,
            toks,
            self.pos as int,
            Seq::empty(),
            self.abs().diags,
            end_range,
        );
        proof {
            assert(attrs_abs(attributes@) =~= Seq::empty());
        }
        while self.pos < self.tokens.len()
            invariant
                self.b() == b,
                self.tokens@ == toks,
                self.same_input(old(self)),
                self.stack@ == old(self).stack@,
                self.roots@ == old(self).roots@,
                self.has_doctype == old(self).has_doctype,
                self.pos <= toks.len(),
                goal == s_collect(
                    old(self).b(),
                    old(self).tokens@,
                    old(self).pos as int,
                    Seq::empty(),
                    old(self).abs().diags,
                    old(self).tokens@[old(self).pos - 1].range,
                ),
                s_collect(
                    b,
                    toks,
                    self.pos as int,
                    attrs_abs(attributes@),
                    self.abs().diags,
                    end_range,
                ) == goal,
            decreases toks.len() - self.pos,
        {
            let token = self.tokens[self.pos];
            let ghost p0 = self.pos as int;
            let ghost a0 = attrs_abs(attributes@);
            let ghost d0 = self.abs().diags;
            match token.kind {
                TokenKind::Attribute { name, value } => {
                    self.pos += 1;
                    let attr_name = slice_owned(self.source, name);
                    let lowered = to_ascii_lowercase(attr_name.as_str());
                    if has_attr_named(&attributes, &lowered) {
                        let message = concat3("duplicate attribute `", attr_name.as_str(), "`");
                        self.add_diag(Diagnostic::warning(token.range, message.as_str()));
                        proof {
                            assert(has_name_ci(a0, lower_chars(range_text(b, name))));
                            assert(self.abs().diags == d0.push(SDiag {
                                range: token.range,
                                severity: Severity::Warning,
                                message: "duplicate attribute `"@ + range_text(b, name) + "`"@,
                            }));
                            assert(s_collect(b, toks, p0, a0, d0, end_range) == s_collect(b, toks, p0 + 1, a0, self.abs().diags, end_range));
                        }
                    } else {
                        let v = match value {
                            Some(r) => Some(slice_owned(self.source, r)),
                            None => None,
                        };
                        let attr = Attribute { name: attr_name, value: v, range: token.range };
                        let ghost before = attributes@;
                        attributes.push(attr);
                        proof {
                            assert(attrs_abs(attributes@) =~= attrs_abs(before).push(
                                crate::html::dom::attr_abs(attr),
                            ));
                            assert(!has_name_ci(a0, lower_chars(range_text(b, name))));
                        }
                    }
                },
                TokenKind::OpenTagEnd => {
                    end_range = token.range;
                    self.pos += 1;
                    return (attributes, end_range, false);
                },
                TokenKind::SelfCloseTagEnd => {
                    end_range = token.range;
                    self.pos += 1;
                    return (attributes, end_range, true);
                },
                TokenKind::Error => {
                    self.pos += 1;
                },
                // Any other token means the open tag was never properly closed
                // (e.g. the input ended mid-tag); stop without consuming it.
                _ => {
                    return (attributes, end_range, false);
                },
            }
        }
        (attributes, end_range, false)
    }

    fn close_element(&mut self, name_range: TextRange, close_range: TextRange)
        ensures
            final(self).same_input(old(self)),
            final(self).pos == old(self).pos,
            final(self).abs() == s_close_element(
                old(self).abs(),
                range_text(old(self).b(), name_range),
                close_range,
            ),
    {
        let written = slice_owned(self.source, name_range);
        let name = to_ascii_lowercase(written.as_str());
        match self.last_named(&name) {
            None => {
                let message = concat3("stray closing tag `</", name.as_str(), ">`");
                self.add_diag(Diagnostic::error(close_range, message.as_str()));
            },
            Some(index) => {
                // Implicitly close any elements above the match.
                let ghost goal = s_close_above(self.abs(), index as int, close_range, written@);
                while self.stack.len() > index + 1
                    invariant
                        index + 1 <= usize::MAX,
                        self.same_input(old(self)),
                        self.pos == old(self).pos,
                        s_close_above(self.abs(), index as int, close_range, written@) == goal,
                    decreases self.stack@.len(),
                {
                    let ghost st = self.abs();
                    proof {
                        lemma_finalize_len(st, None);
                    }
                    let unclosed = self.finalize_top(None);
                    if let Some(n) = unclosed {
                        let message = concat5(
                            "`<",
                            n.as_str(),
                            ">` implicitly closed by `</",
                            written.as_str(),
                            ">`",
                        );
                        self.add_diag(Diagnostic::warning(close_range, message.as_str()));
                    }
                }
                self.finalize_top(Some(close_range.end));
            },
        }
    }

    /// The index of the topmost open element named `name`.
    fn last_named(&self, name: &String) -> (r: Option<usize>)
        ensures
            r matches Some(i) ==> last_named(self.abs().stack, name@) == Some(i as int) && i
                < self.stack.len(),
            r is None ==> last_named(self.abs().stack, name@) is None,
    {
        let mut i = self.stack.len();
        proof {
            assert(self.stack@.subrange(0, i as int) =~= self.stack@);
        }
        while i > 0
            invariant
                i <= self.stack@.len(),
                last_named(self.abs().stack, name@) == last_named(
                    opens_abs(self.stack@.subrange(0, i as int)),
                    name@,
                ),
            decreases i,
        {
            proof {
                let pre = self.stack@.subrange(0, i as int);
                assert(opens_abs(pre).drop_last() =~= opens_abs(self.stack@.subrange(0, i - 1)));
                assert(opens_abs(pre).last() == open_abs(self.stack@[i - 1]));
            }
            if self.stack[i - 1].name == *name {
                return Some(i - 1);
            }
            i -= 1;
        }
        proof {
            assert(opens_abs(self.stack@.subrange(0, 0)) =~= Seq::empty());
        }
        None
    }

    /// Pops the top open element, builds an `Element` node, and appends it to
    /// its parent. Returns the element's name as written when it was closed
    /// implicitly (`close_end` absent).
    fn finalize_top(&mut self, close_end: Option<TextSize>) -> (r: Option<String>)
        ensures
            final(self).same_input(old(self)),
            final(self).pos == old(self).pos,
            (final(self).abs(), opt_view(r)) == s_finalize(old(self).abs(), close_end),
    {
        let open = match self.stack.pop() {
            Some(open) => open,
            None => return None,
        };
        proof {
            assert(opens_abs(self.stack@) =~= opens_abs(old(self).stack@).drop_last());
        }
        let auto_closed = close_end.is_none();
        let end = match close_end {
            Some(e) => e,
            None => {
                let n = open.children.len();
                if n > 0 {
                    proof {
                        lemma_nodes_abs_index(open.children@, n - 1);
                        crate::html::dom::lemma_nodes_abs_len(open.children@);
                    }
                    open.children[n - 1].range().end
                } else {
                    open.open_tag_range.end
                }
            },
        };
        let range = TextRange { start: open.start, end };
        let element = Element {
            name: open.name,
            kind: ElementKind::Normal,
            attributes: open.attributes,
            children: open.children,
            range,
            open_tag_range: open.open_tag_range,
        };
        self.push_node(Node::Element(element));
        if auto_closed {
            Some(open.raw_name)
        } else {
            None
        }
    }

    fn close_unclosed_at_eof(&mut self)
        ensures
            final(self).same_input(old(self)),
            final(self).abs() == s_close_at_eof(old(self).abs()),
    {
        let ghost goal = s_close_at_eof(self.abs());
        while self.stack.len() > 0
            invariant
                self.same_input(old(self)),
                s_close_at_eof(self.abs()) == goal,
            decreases self.stack@.len(),
        {
            let ghost st = self.abs();
            proof {
                lemma_finalize_len(st, None);
            }
            let tag_range = self.stack[self.stack.len() - 1].open_tag_range;
            if let Some(name) = self.finalize_top(None) {
                let message = concat3("unclosed element `<", name.as_str(), ">`");
                self.add_diag(Diagnostic::warning(tag_range, message.as_str()));
            }
        }
    }
}

/// Some attribute in `attrs` has a name equal to `lowered` ignoring ASCII case.
fn has_attr_named(attrs: &Vec<Attribute>, lowered: &String) -> (r: bool)
    ensures
        r == has_name_ci(attrs_abs(attrs@), lowered@),
{
    let mut i: usize = 0;
    while i < attrs.len()
        invariant
            i <= attrs@.len(),
            forall|k: int| 0 <= k < i ==> lower_chars(#[trigger] attrs@[k].name@) != lowered@,
        decreases attrs@.len() - i,
    {
        let l = to_ascii_lowercase(attrs[i].name.as_str());
        if l == *lowered {
            proof {
                assert(attrs_abs(attrs@)[i as int].name == attrs@[i as int].name@);
            }
            return true;
        }
        i += 1;
    }
    proof {
        assert forall|k: int| 0 <= k < attrs_abs(attrs@).len() implies lower_chars(
            #[trigger] attrs_abs(attrs@)[k].name,
        ) != lowered@ by {
            assert(attrs_abs(attrs@)[k].name == attrs@[k].name@);
        }
    }
    false
}

proof fn lemma_nodes_abs_push_any(s: Seq<Node>, n: Node)
    ensures
        nodes_abs(s.push(n)) == nodes_abs(s).push(node_abs(n)),
{
    crate::html::dom::lemma_nodes_abs_push(s, n);
}

proof fn lemma_nodes_abs_index(s: Seq<Node>, i: int)
    requires
        0 <= i < s.len(),
    ensures
        nodes_abs(s).len() == s.len(),
        nodes_abs(s)[i] == node_abs(s[i]),
    decreases s.len(),
{
    crate::html::dom::lemma_nodes_abs_len(s);
    if i < s.len() - 1 {
        lemma_nodes_abs_index(s.drop_last(), i);
    }
}


/// The names of the open elements, bottom to top.
pub open spec fn open_names(stack: Seq<SOpen>) -> Seq<Seq<char>> {
    stack.map_values(|o: SOpen| o.name)
}

/// The tokens from `pos` on nest properly, with `names` open: only text,
/// open tags of non-void elements that end right after their name (no
/// attributes, not self-closed), and close tags that close the innermost
/// open element (its name matched ignoring ASCII case); everything open is
/// closed by the end.
pub open spec fn balanced_from(b: Seq<u8>, toks: Seq<Token>, pos: int, names: Seq<Seq<char>>) -> bool
    decreases toks.len() - pos,
{
    if pos < 0 || pos >= toks.len() {
        names.len() == 0
    } else {
        match toks[pos].kind {
            TokenKind::Text => balanced_from(b, toks, pos + 1, names),
            TokenKind::OpenTagStart { name } => {
                let lowered = lower_chars(range_text(b, name));
                &&& pos + 1 < toks.len()
                &&& toks[pos + 1].kind is OpenTagEnd
                &&& !is_void_name(lowered)
                &&& balanced_from(b, toks, pos + 2, names.push(lowered))
            },
            TokenKind::CloseTag { name } => {
                &&& names.len() > 0
                &&& names.last() == lower_chars(range_text(b, name))
                &&& balanced_from(b, toks, pos + 1, names.drop_last())
            },
            _ => false,
        }
    }
}

proof fn lemma_push_node_names(st: SState, n: SNode)
    ensures
        open_names(s_push_node(st, n).stack) == open_names(st.stack),
        s_push_node(st, n).diags == st.diags,
{
    if st.stack.len() > 0 {
        let top = st.stack.last();
        let s2 = st.stack.drop_last().push(SOpen { children: top.children.push(n), ..top });
        assert(open_names(s2) =~= open_names(st.stack));
    }
}

proof fn lemma_balanced_run(b: Seq<u8>, toks: Seq<Token>, pos: int, st: SState)
    requires
        0 <= pos,
        balanced_from(b, toks, pos, open_names(st.stack)),
    ensures
        s_close_at_eof(s_run(b, toks, pos, st)).diags == st.diags,
    decreases toks.len() - pos,
{
    if pos >= toks.len() {
        assert(st.stack.len() == 0);
    } else {
        let t = toks[pos];
        match t.kind {
            TokenKind::Text => {
                let n = SNode::Text(range_text(b, t.range), t.range);
                lemma_push_node_names(st, n);
                lemma_balanced_run(b, toks, pos + 1, s_push_node(st, n));
            },
            TokenKind::OpenTagStart { name } => {
                lemma_collect_advances(b, toks, pos + 1, Seq::empty(), st.diags, toks[pos].range);
                let (st2, np) = s_open_element(st, b, toks, pos + 1, name, t.range);
                let lowered = lower_chars(range_text(b, name));
                assert(np == pos + 2);
                assert(st2.diags == st.diags);
                assert(open_names(st2.stack) =~= open_names(st.stack).push(lowered));
                lemma_balanced_run(b, toks, pos + 2, st2);
            },
            TokenKind::CloseTag { name } => {
                let written = range_text(b, name);
                let lowered = lower_chars(written);
                let k = st.stack.len() - 1;
                assert(st.stack.last().name == open_names(st.stack).last());
                assert(last_named(st.stack, lowered) == Some(k));
                assert(s_close_above(st, k, t.range, written) == st);
                let base = SState { stack: st.stack.drop_last(), ..st };
                let open = st.stack.last();
                let el = SNode::Element(
                    SElement {
                        name: open.name,
                        kind: ElementKind::Normal,
                        attributes: open.attributes,
                        children: open.children,
                        range: TextRange { start: open.start, end: t.range.end },
                        open_tag_range: open.open_tag_range,
                    },
                );
                let st3 = s_close_element(st, written, t.range);
                assert(st3 == s_push_node(base, el));
                lemma_push_node_names(base, el);
                assert(open_names(base.stack) =~= open_names(st.stack).drop_last());
                lemma_balanced_run(b, toks, pos + 1, st3);
            },
            _ => {},
        }
    }
}

/// A source whose tokens nest properly (see [`balanced_from`]) builds with
/// no diagnostics.
pub proof fn law_balanced_no_diagnostics(b: Seq<u8>)
    requires
        balanced_from(b, spec_tokens(b), 0, Seq::empty()),
    ensures
        s_final(b).diags.len() == 0,
{
    assert(open_names(s_initial().stack) =~= Seq::<Seq<char>>::empty());
    lemma_balanced_run(b, spec_tokens(b), 0, s_initial());
}


/// The source from `pos` on nests properly, with `names` open: runs of text,
/// open tags `<name>` of non-void, non-raw-text elements (no attributes),
/// and close tags `</name>` that close the innermost open element (names
/// matched ignoring ASCII case); everything open is closed by the end.
pub open spec fn source_balanced(b: Seq<u8>, pos: int, names: Seq<Seq<char>>) -> bool
    decreases b.len() - pos,
{
    if pos < 0 || pos >= b.len() {
        names.len() == 0
    } else if b[pos] != 60 {
        proof {
            lemma_text_end_bounds(b, pos + 1);
        }
        source_balanced(b, text_end(b, pos + 1), names)
    } else if pos + 1 < b.len() && b[pos + 1] == 47 {
        proof {
            lemma_scan_name_bounds(b, pos + 2);
        }
        let ne = scan_name(b, pos + 2);
        &&& pos + 2 < b.len()
        &&& is_name_start(b[pos + 2])
        &&& ne < b.len()
        &&& b[ne] == 62
        &&& names.len() > 0
        &&& names.last() == lower_chars(range_text(b, rng(pos + 2, ne)))
        &&& source_balanced(b, ne + 1, names.drop_last())
    } else if pos + 1 < b.len() && is_name_start(b[pos + 1]) {
        proof {
            lemma_scan_name_bounds(b, pos + 1);
        }
        let ne = scan_name(b, pos + 1);
        let lowered = lower_chars(range_text(b, rng(pos + 1, ne)));
        &&& ne < b.len()
        &&& b[ne] == 62
        &&& !is_raw_name(b, pos + 1, ne)
        &&& !is_void_name(lowered)
        &&& source_balanced(b, ne + 1, names.push(lowered))
    } else {
        false
    }
}

proof fn lemma_balanced_shift(b: Seq<u8>, pre: Seq<Token>, r: Seq<Token>, i: int, names: Seq<Seq<char>>)
    requires
        0 <= i,
    ensures
        balanced_from(b, pre + r, pre.len() + i, names) == balanced_from(b, r, i, names),
    decreases r.len() - i,
{
    let t = pre + r;
    if i < r.len() {
        assert(t[pre.len() + i] == r[i]);
        match r[i].kind {
            TokenKind::Text => {
                lemma_balanced_shift(b, pre, r, i + 1, names);
            },
            TokenKind::OpenTagStart { name } => {
                let lowered = lower_chars(range_text(b, name));
                if i + 1 < r.len() {
                    assert(t[pre.len() + i + 1] == r[i + 1]);
                    lemma_balanced_shift(b, pre, r, i + 2, names.push(lowered));
                }
            },
            TokenKind::CloseTag { name } => {
                if names.len() > 0 {
                    lemma_balanced_shift(b, pre, r, i + 1, names.drop_last());
                }
            },
            _ => {},
        }
    }
}

proof fn lemma_source_tokens(b: Seq<u8>, pos: int, names: Seq<Seq<char>>)
    requires
        0 <= pos <= b.len(),
        source_balanced(b, pos, names),
    ensures
        balanced_from(b, spec_tokens_from(b, pos), 0, names),
    decreases b.len() - pos,
{
    if pos < b.len() {
        crate::html::lexer::lemma_step_advances(b, pos);
        let (t, np) = spec_step(b, pos);
        let rest = spec_tokens_from(b, np);
        assert(spec_tokens_from(b, pos) == t + rest);
        if b[pos] != 60 {
            lemma_text_end_bounds(b, pos + 1);
            lemma_source_tokens(b, np, names);
            assert((t + rest)[0].kind is Text);
            lemma_balanced_shift(b, t, rest, 0, names);
        } else if pos + 1 < b.len() && b[pos + 1] == 47 {
            lemma_scan_name_bounds(b, pos + 2);
            let ne = scan_name(b, pos + 2);
            assert(skip_ws(b, pos + 2) == pos + 2);
            assert(past_gt(b, ne) == ne + 1);
            assert(!comment_open_at(b, pos) && !doctype_open_at(b, pos));
            assert(t == seq![tok(TokenKind::CloseTag { name: rng(pos + 2, ne) }, pos, ne + 1)]);
            lemma_source_tokens(b, ne + 1, names.drop_last());
            lemma_balanced_shift(b, t, rest, 0, names.drop_last());
        } else {
            lemma_scan_name_bounds(b, pos + 1);
            let ne = scan_name(b, pos + 1);
            let lowered = lower_chars(range_text(b, rng(pos + 1, ne)));
            assert(!comment_open_at(b, pos) && !doctype_open_at(b, pos));
            assert(skip_ws(b, ne) == ne);
            assert(spec_attributes(b, ne) == (seq![tok(TokenKind::OpenTagEnd, ne, ne + 1)], ne + 1, false));
            assert(t == seq![tok(TokenKind::OpenTagStart { name: rng(pos + 1, ne) }, pos, ne)] + seq![
                tok(TokenKind::OpenTagEnd, ne, ne + 1),
            ]);
            assert(np == ne + 1);
            lemma_source_tokens(b, ne + 1, names.push(lowered));
            lemma_balanced_shift(b, t, rest, 0, names.push(lowered));
            assert((t + rest)[1].kind is OpenTagEnd);
        }
    }
}

/// Properly nested non-void tags around text (see [`source_balanced`])
/// build with no diagnostics.
pub proof fn law_balanced_source_no_diagnostics(b: Seq<u8>)
    requires
        source_balanced(b, 0, Seq::empty()),
    ensures
        s_final(b).diags.len() == 0,
{
    lemma_source_tokens(b, 0, Seq::empty());
    law_balanced_no_diagnostics(b);
}

} // verus!
