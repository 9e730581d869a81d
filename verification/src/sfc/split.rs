//! The block structure of a `.lunas` file, read line by line.
//!
//! A line `name:` at the start of a line (the name made of ASCII letters,
//! trailing spaces allowed) opens a language block; its body is the run of
//! following lines that are blank or indented by a space or a tab. A line
//! starting with `@` is a directive `@keyword` or `@keyword(params)`; its
//! body is the run of following lines up to a blank line, another directive
//! or a block header. Any other line is skipped.

use vstd::prelude::*;
use vstd::string::StringSliceAdditionalSpecFns;

use crate::sfc::file::{lower_items, lowers_to, ParsedFile, RawItem, RawLanguageBlock};
use crate::sfc::lower::RawDirective;
use crate::sfc::scan::piece;
use crate::span::{TextRange, TextSize};
use crate::diagnostic::{diags_abs, Diagnostic};
use crate::text::text_of;

verus! {

/// A space, tab or line break.
pub open spec fn ws(c: u8) -> bool {
    c == 32 || c == 9 || c == 13 || c == 10
}

/// The line break ending the line at `i`, or the end of the input.
pub open spec fn line_stop(b: Seq<u8>, i: int) -> int
    decreases b.len() - i,
{
    if 0 <= i < b.len() && b[i] != 10 {
        line_stop(b, i + 1)
    } else {
        i
    }
}

/// The start of the line after the one at `i`.
pub open spec fn line_next(b: Seq<u8>, i: int) -> int {
    if line_stop(b, i) < b.len() {
        line_stop(b, i) + 1
    } else {
        line_stop(b, i)
    }
}

/// `e` moved back over the whitespace before it, not before `lo`.
pub open spec fn trim_back(b: Seq<u8>, lo: int, e: int) -> int
    decreases e - lo,
{
    if lo < e && ws(b[e - 1]) {
        trim_back(b, lo, e - 1)
    } else {
        e
    }
}

/// `e` moved back over the line breaks before it, not before `lo`.
pub open spec fn strip_nl(b: Seq<u8>, lo: int, e: int) -> int
    decreases e - lo,
{
    if lo < e && (b[e - 1] == 10 || b[e - 1] == 13) {
        strip_nl(b, lo, e - 1)
    } else {
        e
    }
}

/// The line at `i` holds only whitespace.
pub open spec fn blank_line(b: Seq<u8>, i: int) -> bool {
    forall|k: int| i <= k < line_stop(b, i) ==> ws(#[trigger] b[k])
}

pub open spec fn letter(c: u8) -> bool {
    (65 <= c <= 90) || (97 <= c <= 122)
}

/// The position of the `:` of a block header on the line at `i`.
pub open spec fn header_colon(b: Seq<u8>, i: int) -> Option<int> {
    let e = trim_back(b, i, line_stop(b, i));
    if e >= i + 2 && b[e - 1] == 58 && (forall|k: int| i <= k < e - 1 ==> letter(#[trigger] b[k])) {
        Some(e - 1)
    } else {
        None
    }
}

/// The line at `i` starts with a space or a tab.
pub open spec fn indented(b: Seq<u8>, i: int) -> bool {
    0 <= i < b.len() && (b[i] == 32 || b[i] == 9)
}

/// The end of a block body starting at the line `i`: the first line that is
/// neither blank nor indented, or the end of the input.
pub open spec fn body_end(b: Seq<u8>, i: int) -> int
    decreases b.len() - i,
{
    if i < 0 || i >= b.len() {
        i
    } else if blank_line(b, i) || indented(b, i) {
        let n = line_next(b, i);
        if i < n <= b.len() {
            body_end(b, n)
        } else {
            i
        }
    } else {
        i
    }
}

/// The end of a directive body starting at the line `i`: the first blank
/// line, directive or block header, or the end of the input.
pub open spec fn dir_stop(b: Seq<u8>, i: int) -> int
    decreases b.len() - i,
{
    if i < 0 || i >= b.len() {
        i
    } else if blank_line(b, i) || b[i] == 64 || header_colon(b, i) is Some {
        i
    } else {
        let n = line_next(b, i);
        if i < n <= b.len() {
            dir_stop(b, n)
        } else {
            i
        }
    }
}

/// The first `(` in `[lo, hi)`, or `hi`.
pub open spec fn first_paren(b: Seq<u8>, lo: int, hi: int) -> int
    decreases hi - lo,
{
    if lo < hi && b[lo] != 40 {
        first_paren(b, lo + 1, hi)
    } else {
        lo
    }
}

pub open spec fn rng(lo: int, hi: int) -> TextRange {
    TextRange { start: TextSize { raw: lo as u32 }, end: TextSize { raw: hi as u32 } }
}

/// The abstract form of a [`RawItem`].
pub enum SRawItem {
    Block(Seq<char>, TextRange),
    Directive(Seq<char>, Option<Seq<char>>, Option<TextRange>),
}

pub open spec fn opt_text(o: Option<String>) -> Option<Seq<char>> {
    match o {
        Some(s) => Some(s@),
        None => None,
    }
}

pub open spec fn item_view(it: RawItem) -> SRawItem {
    match it {
        RawItem::LanguageBlock(bl) => SRawItem::Block(bl.name@, bl.body_range),
        RawItem::Directive(d) => SRawItem::Directive(d.keyword@, opt_text(d.params), d.body_range),
    }
}

pub open spec fn items_view(s: Seq<RawItem>) -> Seq<SRawItem> {
    s.map_values(|it: RawItem| item_view(it))
}

/// The directive whose `@` line starts at `i`.
pub open spec fn directive_at(b: Seq<u8>, i: int) -> SRawItem {
    let s = line_next(b, i);
    let e = dir_stop(b, s);
    let cend = trim_back(b, i, line_stop(b, i));
    let p = first_paren(b, i + 1, cend);
    let params = if p < cend {
        let pe = if cend - 1 > p && b[cend - 1] == 41 {
            cend - 1
        } else {
            cend
        };
        Some(text_of(b, p + 1, pe))
    } else {
        None
    };
    let body = if e > s {
        Some(rng(s, strip_nl(b, s, e)))
    } else {
        None
    };
    SRawItem::Directive(text_of(b, i + 1, p), params, body)
}

/// The items of `b` from the line at `i` on.
pub open spec fn items_from(b: Seq<u8>, i: int) -> Seq<SRawItem>
    decreases b.len() - i,
{
    if i < 0 || i >= b.len() {
        Seq::empty()
    } else {
        match header_colon(b, i) {
            Some(c) => {
                let s = line_next(b, i);
                let e = body_end(b, s);
                let head = if e > s {
                    seq![SRawItem::Block(text_of(b, i, c), rng(s, e))]
                } else {
                    Seq::empty()
                };
                if i < e <= b.len() {
                    head + items_from(b, e)
                } else {
                    head
                }
            },
            None => if b[i] == 64 {
                let e = dir_stop(b, line_next(b, i));
                if i < e <= b.len() {
                    seq![directive_at(b, i)] + items_from(b, e)
                } else {
                    seq![directive_at(b, i)]
                }
            } else {
                let n = line_next(b, i);
                if i < n <= b.len() {
                    items_from(b, n)
                } else {
                    Seq::empty()
                }
            },
        }
    }
}

proof fn lemma_stop_bounds(b: Seq<u8>, i: int)
    requires
        0 <= i,
    ensures
        i <= line_stop(b, i),
    decreases b.len() - i,
{
    if 0 <= i < b.len() && b[i] != 10 {
        lemma_stop_bounds(b, i + 1);
    }
}

proof fn lemma_stop_after(b: Seq<u8>, i: int)
    requires
        0 <= i < b.len(),
        b[i] != 10,
    ensures
        line_stop(b, i) > i,
{
    lemma_stop_bounds(b, i + 1);
}

proof fn lemma_trim_back_keeps(b: Seq<u8>, lo: int, e: int)
    requires
        0 <= lo < e <= b.len(),
        !ws(b[lo]),
    ensures
        trim_back(b, lo, e) > lo,
    decreases e - lo,
{
    if e - 1 > lo && ws(b[e - 1]) {
        lemma_trim_back_keeps(b, lo, e - 1);
    }
}

// ---------------------------------------------------------------------------
// Scanners.

fn stop_of(b: &[u8], i0: usize) -> (r: usize)
    requires
        i0 <= b@.len(),
    ensures
        r == line_stop(b@, i0 as int),
        i0 <= r <= b@.len(),
{
    let mut i = i0;
    while i < b.len() && b[i] != 10
        invariant
            i0 <= i <= b@.len(),
            line_stop(b@, i as int) == line_stop(b@, i0 as int),
        decreases b@.len() - i,
    {
        i += 1;
    }
    i
}

fn next_of(b: &[u8], i: usize) -> (r: usize)
    requires
        i <= b@.len(),
    ensures
        r == line_next(b@, i as int),
        i <= r <= b@.len(),
        i < b@.len() ==> i < r,
{
    let e = stop_of(b, i);
    if e < b.len() {
        e + 1
    } else {
        e
    }
}

fn trim_back_of(b: &[u8], lo: usize, e0: usize) -> (r: usize)
    requires
        lo <= e0 <= b@.len(),
    ensures
        r == trim_back(b@, lo as int, e0 as int),
        lo <= r <= e0,
{
    let mut e = e0;
    while lo < e && (b[e - 1] == 32 || b[e - 1] == 9 || b[e - 1] == 13 || b[e - 1] == 10)
        invariant
            lo <= e <= e0 <= b@.len(),
            trim_back(b@, lo as int, e as int) == trim_back(b@, lo as int, e0 as int),
        decreases e,
    {
        e -= 1;
    }
    e
}

fn strip_nl_of(b: &[u8], lo: usize, e0: usize) -> (r: usize)
    requires
        lo <= e0 <= b@.len(),
    ensures
        r == strip_nl(b@, lo as int, e0 as int),
        lo <= r <= e0,
{
    let mut e = e0;
    while lo < e && (b[e - 1] == 10 || b[e - 1] == 13)
        invariant
            lo <= e <= e0 <= b@.len(),
            strip_nl(b@, lo as int, e as int) == strip_nl(b@, lo as int, e0 as int),
        decreases e,
    {
        e -= 1;
    }
    e
}

fn is_blank_line(b: &[u8], i: usize) -> (r: bool)
    requires
        i <= b@.len(),
    ensures
        r == blank_line(b@, i as int),
{
    let e = stop_of(b, i);
    let mut k = i;
    while k < e
        invariant
            i <= k <= e <= b@.len(),
            e == line_stop(b@, i as int),
            forall|j: int| i <= j < k ==> ws(#[trigger] b@[j]),
        decreases e - k,
    {
        let c = b[k];
        if !(c == 32 || c == 9 || c == 13 || c == 10) {
            return false;
        }
        k += 1;
    }
    true
}

fn colon_of(b: &[u8], i: usize) -> (r: Option<usize>)
    requires
        i <= b@.len(),
    ensures
        r matches Some(c) ==> header_colon(b@, i as int) == Some(c as int) && i < c < b@.len(),
        r is None ==> header_colon(b@, i as int) is None,
{
    let e = trim_back_of(b, i, stop_of(b, i));
    if e - i < 2 || b[e - 1] != 58 {
        return None;
    }
    let mut k = i;
    while k < e - 1
        invariant
            i <= k <= e - 1,
            e <= b@.len(),
            e == trim_back(b@, i as int, line_stop(b@, i as int)),
            b@[e - 1] == 58,
            forall|j: int| i <= j < k ==> letter(#[trigger] b@[j]),
        decreases e - 1 - k,
    {
        let c = b[k];
        if !((65 <= c && c <= 90) || (97 <= c && c <= 122)) {
            assert(!letter(b@[k as int]));
            assert(header_colon(b@, i as int) is None) by {
                let ee = trim_back(b@, i as int, line_stop(b@, i as int));
                assert(ee == e);
                assert(i <= k < ee - 1);
            }
            return None;
        }
        k += 1;
    }
    Some(e - 1)
}

fn body_end_of(b: &[u8], i0: usize) -> (r: usize)
    requires
        i0 <= b@.len(),
    ensures
        r == body_end(b@, i0 as int),
        i0 <= r <= b@.len(),
{
    let mut i = i0;
    while i < b.len() && (is_blank_line(b, i) || b[i] == 32 || b[i] == 9)
        invariant
            i0 <= i <= b@.len(),
            body_end(b@, i as int) == body_end(b@, i0 as int),
        decreases b@.len() - i,
    {
        i = next_of(b, i);
    }
    i
}

fn dir_stop_of(b: &[u8], i0: usize) -> (r: usize)
    requires
        i0 <= b@.len(),
    ensures
        r == dir_stop(b@, i0 as int),
        i0 <= r <= b@.len(),
{
    let mut i = i0;
    while i < b.len() && !is_blank_line(b, i) && b[i] != 64 && colon_of(b, i).is_none()
        invariant
            i0 <= i <= b@.len(),
            dir_stop(b@, i as int) == dir_stop(b@, i0 as int),
        decreases b@.len() - i,
    {
        i = next_of(b, i);
    }
    i
}

fn paren_of(b: &[u8], lo: usize, hi: usize) -> (r: usize)
    requires
        lo <= hi <= b@.len(),
    ensures
        r == first_paren(b@, lo as int, hi as int),
        lo <= r <= hi,
{
    let mut k = lo;
    while k < hi && b[k] != 40
        invariant
            lo <= k <= hi <= b@.len(),
            first_paren(b@, k as int, hi as int) == first_paren(b@, lo as int, hi as int),
        decreases hi - k,
    {
        k += 1;
    }
    k
}

fn range_of(lo: usize, hi: usize) -> (r: TextRange)
    requires
        lo <= hi <= u32::MAX,
    ensures
        r == rng(lo as int, hi as int),
{
    TextRange { start: TextSize { raw: lo as u32 }, end: TextSize { raw: hi as u32 } }
}

fn directive_of(source: &str, i: usize) -> (r: RawDirective)
    requires
        i < source.spec_bytes().len() <= u32::MAX,
        source.spec_bytes()[i as int] == 64,
    ensures
        item_view(RawItem::Directive(r)) == directive_at(source.spec_bytes(), i as int),
{
    let b = source.as_bytes();
    let s = next_of(b, i);
    let e = dir_stop_of(b, s);
    let cend = trim_back_of(b, i, stop_of(b, i));
    proof {
        lemma_stop_after(b@, i as int);
        lemma_trim_back_keeps(b@, i as int, line_stop(b@, i as int));
    }
    let p = paren_of(b, i + 1, cend);
    let params = if p < cend {
        let pe = if cend - 1 > p && b[cend - 1] == 41 {
            cend - 1
        } else {
            cend
        };
        Some(piece(source, p + 1, pe))
    } else {
        None
    };
    let body = if e > s {
        Some(range_of(s, strip_nl_of(b, s, e)))
    } else {
        None
    };
    RawDirective { keyword: piece(source, i + 1, p), params, body_range: body }
}

/// The items of a `.lunas` file, in order (see the module documentation).
pub fn split_items(source: &str) -> (r: Vec<RawItem>)
    requires
        source.spec_bytes().len() <= u32::MAX,
    ensures
        items_view(r@) == items_from(source.spec_bytes(), 0),
{
    let b = source.as_bytes();
    let ghost bs = b@;
    let mut out: Vec<RawItem> = Vec::new();
    let mut i: usize = 0;
    while i < b.len()
        invariant
            bs == b@,
            bs == source.spec_bytes(),
            bs.len() <= u32::MAX,
            i <= bs.len(),
            items_view(out@) + items_from(bs, i as int) == items_from(bs, 0),
        decreases bs.len() - i,
    {
        let ghost before = out@;
        match colon_of(b, i) {
            Some(c) => {
                let s = next_of(b, i);
                let e = body_end_of(b, s);
                if e > s {
                    let item = RawItem::LanguageBlock(
                        RawLanguageBlock { name: piece(source, i, c), body_range: range_of(s, e) },
                    );
                    out.push(item);
                    assert(items_view(out@) =~= items_view(before).push(item_view(item)));
                } else {
                    assert(items_view(out@) =~= items_view(before));
                }
                assert(items_view(out@) + items_from(bs, e as int) =~= items_view(before) + items_from(bs, i as int));
                i = e;
            },
            None => {
                if b[i] == 64 {
                    let d = directive_of(source, i);
                    let e = dir_stop_of(b, next_of(b, i));
                    let item = RawItem::Directive(d);
                    out.push(item);
                    assert(items_view(out@) =~= items_view(before).push(item_view(item)));
                    assert(items_view(out@) + items_from(bs, e as int) =~= items_view(before) + items_from(bs, i as int));
                    i = e;
                } else {
                    i = next_of(b, i);
                }
            },
        }
    }
    assert(items_from(bs, i as int) =~= Seq::<SRawItem>::empty());
    assert(items_view(out@) =~= items_from(bs, 0));
    out
}

/// Parses a `.lunas` source: its items are split out (see [`split_items`])
/// and lowered (see [`lower_items`]). Never fails: problems are reported as
/// diagnostics.
pub fn parse(source: &str) -> (r: (ParsedFile, Vec<Diagnostic>))
    requires
        source.spec_bytes().len() <= u32::MAX,
    ensures
        exists|items: Seq<RawItem>|
            items_view(items) == items_from(source.spec_bytes(), 0) && lowers_to(
                source.spec_bytes(),
                items,
                r.0,
                Seq::empty(),
                diags_abs(r.1@),
            ),
{
    let items = split_items(source);
    let mut diagnostics: Vec<Diagnostic> = Vec::new();
    assert(diags_abs(diagnostics@) =~= Seq::empty());
    let file = lower_items(source, &items, &mut diagnostics);
    assert(items_view(items@) == items_from(source.spec_bytes(), 0));
    (file, diagnostics)
}

} // verus!
