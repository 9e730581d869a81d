//! Soundness of the HTML parser: for any source text, every range in the
//! tree it builds lies within the text, is not reversed, and starts and ends
//! on character boundaries, so slicing the source by it always succeeds.
//!
//! The proof runs in two steps. Every position the tokenizer stops at is the
//! start or end of the text, at an ASCII byte, or just after one; such a
//! position is a character boundary of valid UTF-8. The tokens come out in
//! source order; the tree builder only combines token positions, and the
//! order guarantees that each range it builds starts before it ends.

use vstd::prelude::*;

use crate::diagnostic::{SDiag, Severity};
use crate::html::dom::{range_ok, snode_ranges_ok, ElementKind, SAttr, SElement, SNode};
use crate::html::lexer::{
    comment_close, comment_open_at, doctype_open_at, is_name_char, is_name_start, is_raw_name,
    is_ws, lemma_attribute_advances, lemma_comment_close_bounds, lemma_past_gt_bounds,
    lemma_quote_end_bounds, lemma_raw_end_bounds, lemma_scan_name_bounds, lemma_skip_ws_bounds,
    lemma_step_advances, lemma_text_end_bounds, lemma_unquoted_end_bounds, past_gt, quote_end,
    raw_end, rng, scan_name, skip_ws, spec_attribute, spec_attributes, spec_step,
    spec_tokens_from, text_end, tok, unquoted_end, Token, TokenKind,
};
use crate::html::lexer::spec_tokens;
use crate::html::parser::{
    has_name_ci, is_void_name, last_named, lemma_collect_advances, lemma_finalize_len, s_close_above, s_close_at_eof, s_close_element, s_collect, s_diag, s_final,
    s_finalize, s_initial, s_open_element, s_push_node, s_run, snode_range, SOpen, SState,
};
use crate::span::{on_boundary, TextRange, TextSize};
use crate::text::{lower_chars, range_text};

verus! {

// ---------------------------------------------------------------------------
// Positions.

/// The start or end of `b`, a position at an ASCII byte, or one just after
/// an ASCII byte.
pub open spec fn good(b: Seq<u8>, i: int) -> bool {
    &&& 0 <= i <= b.len()
    &&& (i == 0 || i == b.len() || b[i] < 128 || b[i - 1] < 128)
}

/// A range within `b` that is not reversed and whose ends are good.
pub open spec fn good_range(b: Seq<u8>, r: TextRange) -> bool {
    r.lo() <= r.hi() && good(b, r.lo()) && good(b, r.hi())
}

/// The tokens lie in `[lo, hi]` with good ranges, in source order.
pub open spec fn tokens_ok(b: Seq<u8>, ts: Seq<Token>, lo: int, hi: int) -> bool {
    &&& forall|k: int|
        0 <= k < ts.len() ==> good_range(b, #[trigger] ts[k].range) && lo <= ts[k].range.lo()
            && ts[k].range.hi() <= hi
    &&& forall|k: int, l: int| 0 <= k < l < ts.len() ==> #[trigger] ts[k].range.hi() <= #[trigger] ts[l].range.lo()
}

proof fn lemma_tokens_concat(b: Seq<u8>, a: Seq<Token>, c: Seq<Token>, lo: int, mid: int, hi: int)
    requires
        tokens_ok(b, a, lo, mid),
        tokens_ok(b, c, mid, hi),
        lo <= mid <= hi,
    ensures
        tokens_ok(b, a + c, lo, hi),
{
    let s = a + c;
    assert forall|k: int| 0 <= k < s.len() implies good_range(b, #[trigger] s[k].range) && lo
        <= s[k].range.lo() && s[k].range.hi() <= hi by {
        if k < a.len() {
            assert(s[k] == a[k]);
            assert(good_range(b, a[k].range));
        } else {
            assert(s[k] == c[k - a.len()]);
            assert(good_range(b, c[k - a.len()].range));
        }
    }
    assert forall|k: int, l: int| 0 <= k < l < s.len() implies #[trigger] s[k].range.hi()
        <= #[trigger] s[l].range.lo() by {
        if l < a.len() {
            assert(s[k] == a[k] && s[l] == a[l]);
        } else if k >= a.len() {
            assert(s[k] == c[k - a.len()] && s[l] == c[l - a.len()]);
        } else {
            assert(s[k] == a[k] && s[l] == c[l - a.len()]);
            assert(a[k].range.hi() <= mid);
            assert(mid <= c[l - a.len()].range.lo());
        }
    }
}

proof fn lemma_one_token(b: Seq<u8>, kind: TokenKind, lo: int, hi: int)
    requires
        b.len() <= u32::MAX,
        lo <= hi,
        good(b, lo),
        good(b, hi),
    ensures
        tokens_ok(b, seq![tok(kind, lo, hi)], lo, hi),
{
    let t = tok(kind, lo, hi);
    assert(t.range.lo() == lo && t.range.hi() == hi);
    assert(seq![t][0] == t);
}

proof fn lemma_tokens_widen(b: Seq<u8>, ts: Seq<Token>, lo: int, hi: int, lo2: int, hi2: int)
    requires
        tokens_ok(b, ts, lo, hi),
        lo2 <= lo,
        hi <= hi2,
    ensures
        tokens_ok(b, ts, lo2, hi2),
{
}

/// After skipping whitespace from a good position, the position is good.
proof fn lemma_skip_ws_good(b: Seq<u8>, i: int)
    requires
        good(b, i),
    ensures
        good(b, skip_ws(b, i)),
{
    lemma_skip_ws_bounds(b, i);
}

proof fn lemma_attribute_ok(b: Seq<u8>, j: int)
    requires
        b.len() <= u32::MAX,
        0 <= j < b.len(),
        good(b, j),
        !is_ws(b[j]),
    ensures
        good(b, spec_attribute(b, j).1),
        tokens_ok(b, spec_attribute(b, j).0, j, spec_attribute(b, j).1),
{
    let ne = scan_name(b, j);
    lemma_scan_name_bounds(b, j);
    lemma_attribute_advances(b, j);
    if ne == j {
        assert(!is_name_char(b[j]));
        assert(b[j] < 128);
        lemma_one_token(b, TokenKind::Error, j, j + 1);
    } else {
        assert(good(b, ne));
        let k = skip_ws(b, ne);
        lemma_skip_ws_bounds(b, ne);
        if k < b.len() && b[k] == 61 {
            let v = skip_ws(b, k + 1);
            lemma_skip_ws_bounds(b, k + 1);
            assert(good(b, k + 1));
            lemma_skip_ws_good(b, k + 1);
            if v < b.len() && (b[v] == 34 || b[v] == 39) {
                let ve = quote_end(b, v + 1, b[v]);
                lemma_quote_end_bounds(b, v + 1, b[v]);
                let np = if ve < b.len() {
                    ve + 1
                } else {
                    ve
                };
                assert(good(b, np));
                lemma_one_token(
                    b,
                    TokenKind::Attribute { name: rng(j, ne), value: Some(rng(v + 1, ve)) },
                    j,
                    np,
                );
            } else {
                let ve = unquoted_end(b, v);
                lemma_unquoted_end_bounds(b, v);
                assert(good(b, ve));
                lemma_one_token(
                    b,
                    TokenKind::Attribute { name: rng(j, ne), value: Some(rng(v, ve)) },
                    j,
                    ve,
                );
            }
        } else {
            lemma_one_token(b, TokenKind::Attribute { name: rng(j, ne), value: None }, j, ne);
        }
    }
}

proof fn lemma_attributes_ok(b: Seq<u8>, i: int)
    requires
        b.len() <= u32::MAX,
        good(b, i),
    ensures
        good(b, spec_attributes(b, i).1),
        i <= spec_attributes(b, i).1,
        tokens_ok(b, spec_attributes(b, i).0, i, spec_attributes(b, i).1),
    decreases b.len() - i,
{
    let j = skip_ws(b, i);
    lemma_skip_ws_bounds(b, i);
    lemma_skip_ws_good(b, i);
    if j >= b.len() {
    } else if b[j] == 62 {
        lemma_one_token(b, TokenKind::OpenTagEnd, j, j + 1);
        lemma_tokens_widen(b, seq![tok(TokenKind::OpenTagEnd, j, j + 1)], j, j + 1, i, j + 1);
    } else if b[j] == 47 && j + 1 < b.len() && b[j + 1] == 62 {
        lemma_one_token(b, TokenKind::SelfCloseTagEnd, j, j + 2);
        lemma_tokens_widen(b, seq![tok(TokenKind::SelfCloseTagEnd, j, j + 2)], j, j + 2, i, j + 2);
    } else if b[j] == 47 {
        lemma_attributes_ok(b, j + 1);
        let r = spec_attributes(b, j + 1);
        lemma_tokens_widen(b, r.0, j + 1, r.1, i, r.1);
    } else {
        lemma_attribute_ok(b, j);
        lemma_attribute_advances(b, j);
        let (t, np) = spec_attribute(b, j);
        lemma_attributes_ok(b, np);
        let (rest, p2, sc) = spec_attributes(b, np);
        lemma_tokens_concat(b, t, rest, j, np, p2);
        lemma_tokens_widen(b, t + rest, j, p2, i, p2);
    }
}

proof fn lemma_step_ok(b: Seq<u8>, pos: int)
    requires
        b.len() <= u32::MAX,
        0 <= pos < b.len(),
        good(b, pos),
    ensures
        good(b, spec_step(b, pos).1),
        tokens_ok(b, spec_step(b, pos).0, pos, spec_step(b, pos).1),
{
    lemma_step_advances(b, pos);
    lemma_text_end_bounds(b, pos + 1);
    let e = text_end(b, pos + 1);
    if b[pos] != 60 {
        lemma_one_token(b, TokenKind::Text, pos, e);
        return;
    }
    if comment_open_at(b, pos) {
        let j = comment_close(b, pos + 4);
        lemma_comment_close_bounds(b, pos + 4);
        if j < b.len() {
            lemma_one_token(b, TokenKind::Comment { content: rng(pos + 4, j) }, pos, j + 3);
        } else {
            lemma_one_token(
                b,
                TokenKind::Comment { content: rng(pos + 4, b.len() as int) },
                pos,
                b.len() as int,
            );
        }
    } else if doctype_open_at(b, pos) {
        lemma_past_gt_bounds(b, pos);
        lemma_one_token(b, TokenKind::Doctype, pos, past_gt(b, pos));
    } else if pos + 1 < b.len() && b[pos + 1] == 47 {
        let p = skip_ws(b, pos + 2);
        lemma_skip_ws_bounds(b, pos + 2);
        let ne = scan_name(b, p);
        lemma_scan_name_bounds(b, p);
        lemma_past_gt_bounds(b, ne);
        lemma_one_token(b, TokenKind::CloseTag { name: rng(p, ne) }, pos, past_gt(b, ne));
    } else if pos + 1 < b.len() && is_name_start(b[pos + 1]) {
        let ne = scan_name(b, pos + 1);
        lemma_scan_name_bounds(b, pos + 1);
        assert(good(b, ne));
        lemma_attributes_ok(b, ne);
        let (attrs, ap, self_closed) = spec_attributes(b, ne);
        lemma_one_token(b, TokenKind::OpenTagStart { name: rng(pos + 1, ne) }, pos, ne);
        let head = seq![tok(TokenKind::OpenTagStart { name: rng(pos + 1, ne) }, pos, ne)] + attrs;
        lemma_tokens_concat(
            b,
            seq![tok(TokenKind::OpenTagStart { name: rng(pos + 1, ne) }, pos, ne)],
            attrs,
            pos,
            ne,
            ap,
        );
        if is_raw_name(b, pos + 1, ne) && !self_closed {
            let re = raw_end(b, ap, pos + 1, ne);
            lemma_raw_end_bounds(b, ap, pos + 1, ne);
            assert(good(b, re));
            if re > ap {
                lemma_one_token(b, TokenKind::RawText, ap, re);
                lemma_tokens_concat(b, head, seq![tok(TokenKind::RawText, ap, re)], pos, ap, re);
            } else {
                lemma_tokens_widen(b, head, pos, ap, pos, re);
            }
        }
    } else {
        lemma_one_token(b, TokenKind::Text, pos, e);
    }
}

/// The tokens of `b` from a good position lie in order between it and the end,
/// each with a good range.
pub proof fn lemma_tokens_from_ok(b: Seq<u8>, pos: int)
    requires
        b.len() <= u32::MAX,
        good(b, pos),
    ensures
        tokens_ok(b, spec_tokens_from(b, pos), pos, b.len() as int),
    decreases b.len() - pos,
{
    if 0 <= pos < b.len() {
        lemma_step_ok(b, pos);
        lemma_step_advances(b, pos);
        let (t, np) = spec_step(b, pos);
        lemma_tokens_from_ok(b, np);
        lemma_tokens_concat(b, t, spec_tokens_from(b, np), pos, np, b.len() as int);
    }
}

// ---------------------------------------------------------------------------
// Good positions are character boundaries.

proof fn lemma_ascii_not_continuation(x: u8)
    requires
        x < 128,
    ensures
        !vstd::utf8::is_continuation_byte(x),
        vstd::utf8::is_leading_byte_width_1(x),
{
    assert(!vstd::utf8::is_continuation_byte(x)) by (bit_vector)
        requires
            x < 128,
    ;
    assert(vstd::utf8::is_leading_byte_width_1(x)) by (bit_vector)
        requires
            x < 128,
    ;
}

proof fn lemma_continuation_high(x: u8)
    requires
        vstd::utf8::is_continuation_byte(x),
    ensures
        x >= 128,
{
    assert(x >= 128) by (bit_vector)
        requires
            vstd::utf8::is_continuation_byte(x),
    ;
}

/// The position just after an ASCII byte is a character boundary.
proof fn lemma_after_ascii(b: Seq<u8>, i: int)
    requires
        vstd::utf8::valid_utf8(b),
        0 < i <= b.len(),
        b[i - 1] < 128,
    ensures
        vstd::utf8::is_char_boundary(b, i),
    decreases b.len(),
{
    let n = vstd::utf8::length_of_first_scalar(b);
    assert(vstd::utf8::valid_first_scalar(b));
    let tail = vstd::utf8::pop_first_scalar(b);
    assert(vstd::utf8::valid_utf8(tail));
    if i - 1 == 0 {
        lemma_ascii_not_continuation(b[0]);
        assert(n == 1);
        assert(vstd::utf8::is_char_boundary(tail, 0));
    } else if i - 1 >= n {
        assert(tail.len() == b.len() - n);
        assert(tail[i - n - 1] == b[i - 1]);
        lemma_after_ascii(tail, i - n);
    } else {
        // b[i - 1] would lie inside the first scalar, a continuation byte.
        assert(1 <= i - 1 < n);
        if vstd::utf8::is_leading_byte_width_1(b[0]) {
        } else if vstd::utf8::is_leading_byte_width_2(b[0]) {
            lemma_continuation_high(b[1]);
        } else if vstd::utf8::is_leading_byte_width_3(b[0]) {
            lemma_continuation_high(b[1]);
            lemma_continuation_high(b[2]);
        } else {
            lemma_continuation_high(b[1]);
            lemma_continuation_high(b[2]);
            lemma_continuation_high(b[3]);
        }
    }
}

/// A good position of valid UTF-8 is a character boundary.
pub proof fn lemma_good_boundary(b: Seq<u8>, i: int)
    requires
        vstd::utf8::valid_utf8(b),
        good(b, i),
    ensures
        on_boundary(b, i),
{
    vstd::utf8::is_char_boundary_start_end_of_seq(b);
    if 0 < i < b.len() {
        if b[i] < 128 {
            lemma_ascii_not_continuation(b[i]);
            vstd::utf8::is_char_boundary_iff_not_is_continuation_byte(b, i);
        } else {
            lemma_after_ascii(b, i);
        }
    }
}

// ---------------------------------------------------------------------------
// The tree builder only combines good, ordered positions.

pub open spec fn good_at(b: Seq<u8>) -> spec_fn(int) -> bool {
    |i: int| good(b, i)
}

/// Offsets within `b` that start a character, or its end.
pub open spec fn boundary_at(b: Seq<u8>) -> spec_fn(int) -> bool {
    |i: int| 0 <= i <= b.len() && on_boundary(b, i)
}

/// Where the builder stands before the token at `pos`.
pub open spec fn cursor(b: Seq<u8>, toks: Seq<Token>, pos: int) -> int {
    if 0 <= pos < toks.len() {
        toks[pos].range.lo()
    } else {
        b.len() as int
    }
}

/// An open element: good ranges, its open tag starts where it does, and its
/// children start no earlier.
pub open spec fn open_ok(b: Seq<u8>, o: SOpen) -> bool {
    &&& range_ok(o.open_tag_range, good_at(b))
    &&& o.open_tag_range.start == o.start
    &&& forall|i: int|
        0 <= i < o.attributes.len() ==> range_ok(#[trigger] o.attributes[i].range, good_at(b))
    &&& forall|i: int|
        0 <= i < o.children.len() ==> snode_ranges_ok(#[trigger] o.children[i], good_at(b))
            && o.start.raw <= snode_range(o.children[i]).lo()
}

/// A builder state whose ranges are all good, whose open elements start in
/// stack order and no later than `c`.
pub open spec fn state_ok(b: Seq<u8>, st: SState, c: int) -> bool {
    &&& forall|i: int|
        0 <= i < st.roots.len() ==> snode_ranges_ok(#[trigger] st.roots[i], good_at(b))
    &&& forall|k: int|
        0 <= k < st.stack.len() ==> open_ok(b, #[trigger] st.stack[k]) && st.stack[k].start.raw <= c
    &&& forall|k: int, l: int|
        0 <= k < l < st.stack.len() ==> #[trigger] st.stack[k].start.raw
            <= #[trigger] st.stack[l].start.raw
    &&& forall|i: int|
        0 <= i < st.diags.len() ==> range_ok(#[trigger] st.diags[i].range, good_at(b))
}

pub(crate) proof fn lemma_cursor_after(b: Seq<u8>, toks: Seq<Token>, p: int, q: int)
    requires
        tokens_ok(b, toks, 0, b.len() as int),
        0 <= p < q <= toks.len(),
    ensures
        toks[p].range.lo() <= toks[p].range.hi() <= cursor(b, toks, q),
        cursor(b, toks, p) <= cursor(b, toks, q),
{
    assert(good_range(b, toks[p].range));
    if q < toks.len() {
        assert(toks[p].range.hi() <= toks[q].range.lo());
    }
}

pub(crate) proof fn lemma_state_weaken(b: Seq<u8>, st: SState, c: int, c2: int)
    requires
        state_ok(b, st, c),
        c <= c2,
    ensures
        state_ok(b, st, c2),
{
}

pub(crate) proof fn lemma_token_range_ok(b: Seq<u8>, toks: Seq<Token>, k: int)
    requires
        tokens_ok(b, toks, 0, b.len() as int),
        0 <= k < toks.len(),
    ensures
        range_ok(toks[k].range, good_at(b)),
{
    assert(good_range(b, toks[k].range));
}

pub(crate) proof fn lemma_push_node_ok(b: Seq<u8>, st: SState, n: SNode, c: int)
    requires
        state_ok(b, st, c),
        snode_ranges_ok(n, good_at(b)),
        st.stack.len() > 0 ==> st.stack.last().start.raw <= snode_range(n).lo(),
    ensures
        state_ok(b, s_push_node(st, n), c),
{
    let r = s_push_node(st, n);
    if st.stack.len() == 0 {
        assert forall|i: int| 0 <= i < r.roots.len() implies snode_ranges_ok(
            #[trigger] r.roots[i],
            good_at(b),
        ) by {
            if i < st.roots.len() {
                assert(r.roots[i] == st.roots[i]);
            }
        }
    } else {
        let last = st.stack.len() - 1;
        let top = st.stack[last];
        assert(open_ok(b, top));
        let top2 = SOpen { children: top.children.push(n), ..top };
        assert forall|i: int| 0 <= i < top2.children.len() implies snode_ranges_ok(
            #[trigger] top2.children[i],
            good_at(b),
        ) && top2.start.raw <= snode_range(top2.children[i]).lo() by {
            if i < top.children.len() {
                assert(top2.children[i] == top.children[i]);
            }
        }
        assert(open_ok(b, top2));
        assert(r.stack == st.stack.drop_last().push(top2));
        assert forall|k: int| 0 <= k < r.stack.len() implies open_ok(b, #[trigger] r.stack[k])
            && r.stack[k].start.raw <= c by {
            if k < last {
                assert(r.stack[k] == st.stack[k]);
            }
        }
        assert forall|k: int, l: int| 0 <= k < l < r.stack.len() implies #[trigger] r.stack[k].start.raw
            <= #[trigger] r.stack[l].start.raw by {
            assert(r.stack[k].start == st.stack[k].start);
            assert(r.stack[l].start == st.stack[l].start);
        }
    }
}

pub(crate) proof fn lemma_diag_ok(b: Seq<u8>, st: SState, range: TextRange, severity: Severity, message: Seq<char>, c: int)
    requires
        state_ok(b, st, c),
        range_ok(range, good_at(b)),
    ensures
        state_ok(b, s_diag(st, range, severity, message), c),
{
    let r = s_diag(st, range, severity, message);
    assert forall|i: int| 0 <= i < r.diags.len() implies range_ok(#[trigger] r.diags[i].range, good_at(b)) by {
        if i < st.diags.len() {
            assert(r.diags[i] == st.diags[i]);
        }
    }
}

pub(crate) proof fn lemma_finalize_ok(b: Seq<u8>, st: SState, close_end: Option<TextSize>, c: int)
    requires
        state_ok(b, st, c),
        st.stack.len() > 0,
        close_end matches Some(e) ==> good(b, e.raw as int) && st.stack.last().start.raw <= e.raw,
    ensures
        state_ok(b, s_finalize(st, close_end).0, c),
{
    let last = st.stack.len() - 1;
    let open = st.stack[last];
    assert(open_ok(b, open));
    let end = match close_end {
        Some(e) => e,
        None => if open.children.len() > 0 {
            snode_range(open.children.last()).end
        } else {
            open.open_tag_range.end
        },
    };
    let el = SNode::Element(
        SElement {
            name: open.name,
            kind: ElementKind::Normal,
            attributes: open.attributes,
            children: open.children,
            range: TextRange { start: open.start, end },
            open_tag_range: open.open_tag_range,
        },
    );
    let st1 = SState { stack: st.stack.drop_last(), ..st };
    assert(s_finalize(st, close_end).0 == s_push_node(st1, el));
    if close_end is None && open.children.len() > 0 {
        let ch = open.children[open.children.len() - 1];
        assert(snode_ranges_ok(ch, good_at(b)));
        assert(range_ok(snode_range(ch), good_at(b)));
    }
    assert(range_ok(TextRange { start: open.start, end }, good_at(b)));
    assert(snode_ranges_ok(el, good_at(b)));
    assert forall|k: int| 0 <= k < st1.stack.len() implies open_ok(b, #[trigger] st1.stack[k])
        && st1.stack[k].start.raw <= c by {
        assert(st1.stack[k] == st.stack[k]);
    }
    assert forall|k: int, l: int| 0 <= k < l < st1.stack.len() implies #[trigger] st1.stack[k].start.raw
        <= #[trigger] st1.stack[l].start.raw by {
        assert(st1.stack[k] == st.stack[k]);
        assert(st1.stack[l] == st.stack[l]);
    }
    if st1.stack.len() > 0 {
        assert(st.stack[last - 1].start.raw <= st.stack[last].start.raw);
        assert(st1.stack.last() == st.stack[last - 1]);
    }
    lemma_push_node_ok(b, st1, el, c);
}

pub(crate) proof fn lemma_close_above_ok(b: Seq<u8>, st: SState, index: int, close: TextRange, written: Seq<char>, c: int)
    requires
        state_ok(b, st, c),
        range_ok(close, good_at(b)),
    ensures
        state_ok(b, s_close_above(st, index, close, written), c),
        0 <= index < st.stack.len() ==> s_close_above(st, index, close, written).stack.len()
            == index + 1,
    decreases st.stack.len(),
{
    if index >= 0 && st.stack.len() > index + 1 {
        lemma_finalize_len(st, None);
        lemma_finalize_ok(b, st, None, c);
        let (st2, unclosed) = s_finalize(st, None);
        let st3 = match unclosed {
            Some(n) => s_diag(
                st2,
                close,
                Severity::Warning,
                "`<"@ + n + ">` implicitly closed by `</"@ + written + ">`"@,
            ),
            None => st2,
        };
        if let Some(n) = unclosed {
            lemma_diag_ok(
                b,
                st2,
                close,
                Severity::Warning,
                "`<"@ + n + ">` implicitly closed by `</"@ + written + ">`"@,
                c,
            );
        }
        lemma_close_above_ok(b, st3, index, close, written, c);
    }
}

pub(crate) proof fn lemma_last_named_index(stack: Seq<SOpen>, name: Seq<char>)
    ensures
        last_named(stack, name) matches Some(i) ==> 0 <= i < stack.len(),
    decreases stack.len(),
{
    if stack.len() > 0 && stack.last().name != name {
        lemma_last_named_index(stack.drop_last(), name);
    }
}

pub(crate) proof fn lemma_close_element_ok(b: Seq<u8>, st: SState, written: Seq<char>, close: TextRange, c: int)
    requires
        state_ok(b, st, c),
        range_ok(close, good_at(b)),
        c <= close.hi(),
    ensures
        state_ok(b, s_close_element(st, written, close), c),
{
    let name = lower_chars(written);
    lemma_last_named_index(st.stack, name);
    match last_named(st.stack, name) {
        None => {
            lemma_diag_ok(b, st, close, Severity::Error, "stray closing tag `</"@ + name + ">`"@, c);
        },
        Some(i) => {
            lemma_close_above_ok(b, st, i, close, written, c);
            let st2 = s_close_above(st, i, close, written);
            assert(st2.stack[st2.stack.len() - 1].start.raw <= c);
            lemma_finalize_ok(b, st2, Some(close.end), c);
        },
    }
}

pub(crate) proof fn lemma_close_at_eof_ok(b: Seq<u8>, st: SState, c: int)
    requires
        state_ok(b, st, c),
    ensures
        state_ok(b, s_close_at_eof(st), c),
        s_close_at_eof(st).stack.len() == 0,
    decreases st.stack.len(),
{
    if st.stack.len() > 0 {
        lemma_finalize_len(st, None);
        lemma_finalize_ok(b, st, None, c);
        let tag = st.stack.last().open_tag_range;
        assert(open_ok(b, st.stack[st.stack.len() - 1]));
        let (st2, unclosed) = s_finalize(st, None);
        let st3 = match unclosed {
            Some(n) => s_diag(st2, tag, Severity::Warning, "unclosed element `<"@ + n + ">`"@),
            None => st2,
        };
        if let Some(n) = unclosed {
            lemma_diag_ok(b, st2, tag, Severity::Warning, "unclosed element `<"@ + n + ">`"@, c);
        }
        lemma_close_at_eof_ok(b, st3, c);
    }
}

pub(crate) proof fn lemma_collect_ok(
    b: Seq<u8>,
    toks: Seq<Token>,
    pos: int,
    attrs: Seq<SAttr>,
    diags: Seq<SDiag>,
    end_range: TextRange,
)
    requires
        tokens_ok(b, toks, 0, b.len() as int),
        0 <= pos <= toks.len(),
        forall|i: int| 0 <= i < attrs.len() ==> range_ok(#[trigger] attrs[i].range, good_at(b)),
        forall|i: int| 0 <= i < diags.len() ==> range_ok(#[trigger] diags[i].range, good_at(b)),
        range_ok(end_range, good_at(b)),
    ensures
        ({
            let r = s_collect(b, toks, pos, attrs, diags, end_range);
            &&& forall|i: int| 0 <= i < r.0.len() ==> range_ok(#[trigger] r.0[i].range, good_at(b))
            &&& forall|i: int| 0 <= i < r.4.len() ==> range_ok(#[trigger] r.4[i].range, good_at(b))
            &&& range_ok(r.1, good_at(b))
            &&& r.1 == end_range || (pos < toks.len() && cursor(b, toks, pos) <= r.1.lo())
            &&& pos <= r.3 <= toks.len()
        }),
    decreases toks.len() - pos,
{
    lemma_collect_advances(b, toks, pos, attrs, diags, end_range);
    if pos < toks.len() {
        let t = toks[pos];
        lemma_token_range_ok(b, toks, pos);
        if pos + 1 < toks.len() {
            lemma_cursor_after(b, toks, pos, pos + 1);
        }
        match t.kind {
            TokenKind::Attribute { name, value } => {
                let written = range_text(b, name);
                if has_name_ci(attrs, lower_chars(written)) {
                    let d2 = diags.push(
                        SDiag {
                            range: t.range,
                            severity: Severity::Warning,
                            message: "duplicate attribute `"@ + written + "`"@,
                        },
                    );
                    assert forall|i: int| 0 <= i < d2.len() implies range_ok(#[trigger] d2[i].range, good_at(b)) by {
                        if i < diags.len() {
                            assert(d2[i] == diags[i]);
                        }
                    }
                    lemma_collect_ok(b, toks, pos + 1, attrs, d2, end_range);
                } else {
                    let v = match value {
                        Some(r) => Some(range_text(b, r)),
                        None => None,
                    };
                    let a2 = attrs.push(SAttr { name: written, value: v, range: t.range });
                    assert forall|i: int| 0 <= i < a2.len() implies range_ok(#[trigger] a2[i].range, good_at(b)) by {
                        if i < attrs.len() {
                            assert(a2[i] == attrs[i]);
                        }
                    }
                    lemma_collect_ok(b, toks, pos + 1, a2, diags, end_range);
                }
            },
            TokenKind::Error => lemma_collect_ok(b, toks, pos + 1, attrs, diags, end_range),
            _ => {},
        }
    }
}

pub(crate) proof fn lemma_open_element_ok(
    st: SState,
    b: Seq<u8>,
    toks: Seq<Token>,
    pos: int,
    name: TextRange,
    start: TextRange,
)
    requires
        tokens_ok(b, toks, 0, b.len() as int),
        1 <= pos <= toks.len(),
        start == toks[pos - 1].range,
        state_ok(b, st, start.lo()),
    ensures
        state_ok(b, s_open_element(st, b, toks, pos, name, start).0, start.lo()),
        pos <= s_open_element(st, b, toks, pos, name, start).1 <= toks.len(),
{
    lemma_token_range_ok(b, toks, pos - 1);
    lemma_collect_ok(b, toks, pos, Seq::empty(), st.diags, toks[pos - 1].range);
    let (attrs, end_range, self_closed, np, diags) = s_collect(
        b,
        toks,
        pos,
        Seq::empty(),
        st.diags,
        toks[pos - 1].range,
    );
    if end_range != toks[pos - 1].range {
        lemma_cursor_after(b, toks, pos - 1, pos);
    }
    let st1 = SState { diags, ..st };
    assert(state_ok(b, st1, start.lo()));
    let raw = range_text(b, name);
    let lowered = lower_chars(raw);
    let otr = TextRange { start: start.start, end: end_range.end };
    assert(range_ok(otr, good_at(b)));
    if is_void_name(lowered) || self_closed {
        let kind = if is_void_name(lowered) {
            ElementKind::Void
        } else {
            ElementKind::Normal
        };
        let el = SNode::Element(
            SElement {
                name: lowered,
                kind,
                attributes: attrs,
                children: Seq::empty(),
                range: otr,
                open_tag_range: otr,
            },
        );
        assert(snode_ranges_ok(el, good_at(b)));
        if st1.stack.len() > 0 {
            assert(st1.stack[st1.stack.len() - 1].start.raw <= start.lo());
        }
        lemma_push_node_ok(b, st1, el, start.lo());
    } else {
        let o = SOpen {
            name: lowered,
            raw_name: raw,
            attributes: attrs,
            children: Seq::empty(),
            start: start.start,
            open_tag_range: otr,
        };
        assert(open_ok(b, o));
        let st2 = SState { stack: st1.stack.push(o), ..st1 };
        assert forall|k: int| 0 <= k < st2.stack.len() implies open_ok(b, #[trigger] st2.stack[k])
            && st2.stack[k].start.raw <= start.lo() by {
            if k < st1.stack.len() {
                assert(st2.stack[k] == st1.stack[k]);
            }
        }
        assert forall|k: int, l: int| 0 <= k < l < st2.stack.len() implies #[trigger] st2.stack[k].start.raw
            <= #[trigger] st2.stack[l].start.raw by {
            assert(st2.stack[k] == st1.stack[k]);
            if l < st1.stack.len() {
                assert(st2.stack[l] == st1.stack[l]);
            }
        }
        assert(s_open_element(st, b, toks, pos, name, start).0 == st2);
    }
}

pub(crate) proof fn lemma_run_ok(b: Seq<u8>, toks: Seq<Token>, pos: int, st: SState)
    requires
        tokens_ok(b, toks, 0, b.len() as int),
        0 <= pos <= toks.len(),
        state_ok(b, st, cursor(b, toks, pos)),
    ensures
        state_ok(b, s_run(b, toks, pos, st), b.len() as int),
    decreases toks.len() - pos,
{
    if pos >= toks.len() {
        return;
    }
    let t = toks[pos];
    let c = cursor(b, toks, pos);
    lemma_token_range_ok(b, toks, pos);
    lemma_cursor_after(b, toks, pos, pos + 1);
    let c1 = cursor(b, toks, pos + 1);
    match t.kind {
        TokenKind::Doctype => {
            lemma_run_ok(b, toks, pos + 1, SState { has_doctype: true, ..st });
        },
        TokenKind::Text | TokenKind::RawText => {
            let n = SNode::Text(range_text(b, t.range), t.range);
            if st.stack.len() > 0 {
                assert(st.stack[st.stack.len() - 1].start.raw <= c);
            }
            lemma_push_node_ok(b, st, n, c);
            lemma_state_weaken(b, s_push_node(st, n), c, c1);
            lemma_run_ok(b, toks, pos + 1, s_push_node(st, n));
        },
        TokenKind::Comment { content } => {
            let n = SNode::Comment(range_text(b, content), t.range);
            if st.stack.len() > 0 {
                assert(st.stack[st.stack.len() - 1].start.raw <= c);
            }
            lemma_push_node_ok(b, st, n, c);
            lemma_state_weaken(b, s_push_node(st, n), c, c1);
            lemma_run_ok(b, toks, pos + 1, s_push_node(st, n));
        },
        TokenKind::OpenTagStart { name } => {
            lemma_open_element_ok(st, b, toks, pos + 1, name, t.range);
            let (st2, np) = s_open_element(st, b, toks, pos + 1, name, t.range);
            if np < toks.len() {
                lemma_cursor_after(b, toks, pos, np);
            }
            lemma_state_weaken(b, st2, c, cursor(b, toks, np));
            lemma_run_ok(b, toks, np, st2);
        },
        TokenKind::CloseTag { name } => {
            let st2 = s_close_element(st, range_text(b, name), t.range);
            lemma_close_element_ok(b, st, range_text(b, name), t.range, c);
            lemma_state_weaken(b, st2, c, c1);
            lemma_run_ok(b, toks, pos + 1, st2);
        },
        _ => {
            lemma_state_weaken(b, st, c, c1);
            lemma_run_ok(b, toks, pos + 1, st);
        },
    }
}

pub(crate) proof fn lemma_snode_ranges_weaken(n: SNode, p: spec_fn(int) -> bool, q: spec_fn(int) -> bool)
    requires
        snode_ranges_ok(n, p),
        forall|i: int| #[trigger] p(i) ==> q(i),
    ensures
        snode_ranges_ok(n, q),
    decreases n,
{
    if let SNode::Element(e) = n {
        assert forall|i: int| 0 <= i < e.children.len() implies snode_ranges_ok(
            #[trigger] e.children[i],
            q,
        ) by {
            lemma_snode_ranges_weaken(e.children[i], p, q);
        }
    }
}

/// Soundness of the tree builder: for any valid UTF-8 source text, every
/// range in the tree that `parse` builds, and every range of its
/// diagnostics, lies within the text, is not reversed, and starts and ends
/// on character boundaries. Slicing the source by any of them succeeds.
pub proof fn law_parse_ranges_sound(b: Seq<u8>)
    requires
        vstd::utf8::valid_utf8(b),
        b.len() <= u32::MAX,
    ensures
        forall|i: int|
            0 <= i < s_final(b).roots.len() ==> snode_ranges_ok(
                #[trigger] s_final(b).roots[i],
                boundary_at(b),
            ),
        forall|i: int|
            0 <= i < s_final(b).diags.len() ==> range_ok(
                #[trigger] s_final(b).diags[i].range,
                boundary_at(b),
            ),
{
    let toks = spec_tokens(b);
    lemma_tokens_from_ok(b, 0);
    let st0 = s_initial();
    assert(state_ok(b, st0, cursor(b, toks, 0)));
    lemma_run_ok(b, toks, 0, st0);
    let st1 = s_run(b, toks, 0, st0);
    lemma_close_at_eof_ok(b, st1, b.len() as int);
    let fin = s_final(b);
    assert forall|i: int| #[trigger] good_at(b)(i) implies boundary_at(b)(i) by {
        lemma_good_boundary(b, i);
    }
    assert forall|i: int| 0 <= i < fin.roots.len() implies snode_ranges_ok(
        #[trigger] fin.roots[i],
        boundary_at(b),
    ) by {
        lemma_snode_ranges_weaken(fin.roots[i], good_at(b), boundary_at(b));
    }
}

/// The tokens of any valid UTF-8 source text come in source order without
/// overlapping, each within the text and starting and ending on character
/// boundaries.
pub proof fn law_tokens_sound(b: Seq<u8>)
    requires
        vstd::utf8::valid_utf8(b),
        b.len() <= u32::MAX,
    ensures
        forall|k: int|
            0 <= k < spec_tokens(b).len() ==> range_ok(#[trigger] spec_tokens(b)[k].range, boundary_at(b)),
        forall|k: int, l: int|
            0 <= k < l < spec_tokens(b).len() ==> #[trigger] spec_tokens(b)[k].range.hi()
                <= #[trigger] spec_tokens(b)[l].range.lo(),
{
    lemma_tokens_from_ok(b, 0);
    let ts = spec_tokens(b);
    assert forall|k: int| 0 <= k < ts.len() implies range_ok(#[trigger] ts[k].range, boundary_at(b)) by {
        assert(good_range(b, ts[k].range));
        lemma_good_boundary(b, ts[k].range.lo());
        lemma_good_boundary(b, ts[k].range.hi());
    }
}

} // verus!
