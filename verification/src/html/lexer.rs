//! State-machine tokenizer over the UTF-8 bytes of an HTML fragment.
//!
//! String content is kept as byte ranges into the source; callers slice the
//! source text. The grammar the tokenizer follows is written out below as
//! spec functions over the byte sequence (`spec_tokens`), and `tokenize`
//! returns exactly that token sequence.

use vstd::prelude::*;
use vstd::string::StringSliceAdditionalSpecFns;

use crate::span::{TextRange, TextSize};

verus! {

/// A lexical token kind. String content is kept as ranges into the source.
#[derive(Debug, Clone, Copy, PartialEq, Eq, Structural)]
pub enum TokenKind {
    Doctype,
    /// `<name` — the start of an open tag, before any attributes.
    OpenTagStart { name: TextRange },
    /// An attribute inside an open tag.
    Attribute { name: TextRange, value: Option<TextRange> },
    /// `>` ending an open tag.
    OpenTagEnd,
    /// `/>` ending a self-closing tag.
    SelfCloseTagEnd,
    /// `</name>`.
    CloseTag { name: TextRange },
    /// Text content between tags.
    Text,
    /// `<!-- … -->`; `content` covers the inner content only.
    Comment { content: TextRange },
    /// Raw text content of a script/style/title/textarea element.
    RawText,
    /// An unexpected byte inside a tag; enables error recovery.
    Error,
}

#[derive(Debug, Clone, Copy, PartialEq, Eq, Structural)]
pub struct Token {
    pub kind: TokenKind,
    pub range: TextRange,
}

// ---------------------------------------------------------------------------
// The grammar, as spec functions over the source bytes.

pub open spec fn is_ws(c: u8) -> bool {
    c == 32 || c == 9 || c == 10 || c == 13 || c == 12
}

/// Bytes that may begin a tag name: ASCII letters, `_`, and any non-ASCII byte.
pub open spec fn is_name_start(c: u8) -> bool {
    (65 <= c <= 90) || (97 <= c <= 122) || c == 95 || c >= 128
}

/// Bytes that may continue a tag or attribute name.
pub open spec fn is_name_char(c: u8) -> bool {
    !is_ws(c) && c != 47 && c != 62 && c != 60 && c != 61
}

/// ASCII lowercase of one byte.
pub open spec fn lower(c: u8) -> u8 {
    if 65 <= c <= 90 {
        (c + 32) as u8
    } else {
        c
    }
}

pub open spec fn rng(lo: int, hi: int) -> TextRange {
    TextRange { start: TextSize { raw: lo as u32 }, end: TextSize { raw: hi as u32 } }
}

pub open spec fn tok(kind: TokenKind, lo: int, hi: int) -> Token {
    Token { kind, range: rng(lo, hi) }
}

/// The first offset at or after `i` that is not ASCII whitespace.
pub open spec fn skip_ws(b: Seq<u8>, i: int) -> int
    decreases b.len() - i,
{
    if 0 <= i < b.len() && is_ws(b[i]) {
        skip_ws(b, i + 1)
    } else {
        i
    }
}

/// The end of the run of name bytes starting at `i`.
pub open spec fn scan_name(b: Seq<u8>, i: int) -> int
    decreases b.len() - i,
{
    if 0 <= i < b.len() && is_name_char(b[i]) {
        scan_name(b, i + 1)
    } else {
        i
    }
}

/// The first `<` at or after `i`, or the end.
pub open spec fn text_end(b: Seq<u8>, i: int) -> int
    decreases b.len() - i,
{
    if 0 <= i < b.len() && b[i] != 60 {
        text_end(b, i + 1)
    } else {
        i
    }
}

/// Just past the first `>` at or after `i`, or the end.
pub open spec fn past_gt(b: Seq<u8>, i: int) -> int
    decreases b.len() - i,
{
    if 0 <= i < b.len() {
        if b[i] == 62 {
            i + 1
        } else {
            past_gt(b, i + 1)
        }
    } else {
        i
    }
}

/// `-->` starts at `i`.
pub open spec fn comment_end_at(b: Seq<u8>, i: int) -> bool {
    0 <= i && i + 3 <= b.len() && b[i] == 45 && b[i + 1] == 45 && b[i + 2] == 62
}

/// The first `-->` at or after `i`, or the end.
pub open spec fn comment_close(b: Seq<u8>, i: int) -> int
    decreases b.len() - i,
{
    if 0 <= i < b.len() {
        if comment_end_at(b, i) {
            i
        } else {
            comment_close(b, i + 1)
        }
    } else {
        i
    }
}

/// The first byte `q` at or after `i`, or the end.
pub open spec fn quote_end(b: Seq<u8>, i: int, q: u8) -> int
    decreases b.len() - i,
{
    if 0 <= i < b.len() && b[i] != q {
        quote_end(b, i + 1, q)
    } else {
        i
    }
}

/// An unquoted attribute value stops at whitespace, `>`, or `/>`.
pub open spec fn unquoted_stop(b: Seq<u8>, i: int) -> bool {
    is_ws(b[i]) || b[i] == 62 || (b[i] == 47 && i + 1 < b.len() && b[i + 1] == 62)
}

pub open spec fn unquoted_end(b: Seq<u8>, i: int) -> int
    decreases b.len() - i,
{
    if 0 <= i < b.len() && !unquoted_stop(b, i) {
        unquoted_end(b, i + 1)
    } else {
        i
    }
}

/// The `n` bytes at `p` equal, ignoring ASCII case, the `n` bytes at `q`.
pub open spec fn ci_eq(b: Seq<u8>, p: int, q: int, n: int) -> bool {
    forall|k: int| 0 <= k < n ==> lower(#[trigger] b[p + k]) == lower(b[q + k])
}

/// The bytes `b[lo..hi]` spell `word` (lowercase), ignoring ASCII case.
pub open spec fn name_is(b: Seq<u8>, lo: int, hi: int, word: Seq<u8>) -> bool {
    hi - lo == word.len() && forall|k: int| 0 <= k < word.len() ==> lower(#[trigger] b[lo + k])
        == word[k]
}

/// `<!--` starts at `i`.
pub open spec fn comment_open_at(b: Seq<u8>, i: int) -> bool {
    0 <= i && i + 4 <= b.len() && b[i] == 60 && b[i + 1] == 33 && b[i + 2] == 45 && b[i + 3]
        == 45
}

/// `<!doctype` (any ASCII case) starts at `i`.
pub open spec fn doctype_open_at(b: Seq<u8>, i: int) -> bool {
    0 <= i && i + 9 <= b.len() && b[i] == 60 && b[i + 1] == 33 && name_is(
        b,
        i + 2,
        i + 9,
        seq![100u8, 111, 99, 116, 121, 112, 101],
    )
}

/// The names of the raw-text elements, whose content is not tokenized.
pub open spec fn is_raw_name(b: Seq<u8>, lo: int, hi: int) -> bool {
    name_is(b, lo, hi, seq![115u8, 99, 114, 105, 112, 116]) || name_is(
        b,
        lo,
        hi,
        seq![115u8, 116, 121, 108, 101],
    ) || name_is(b, lo, hi, seq![116u8, 105, 116, 108, 101]) || name_is(
        b,
        lo,
        hi,
        seq![116u8, 101, 120, 116, 97, 114, 101, 97],
    )
}

/// `</name` (ignoring case and whitespace after `</`), followed by the end,
/// whitespace or `>`, starts at `i`; `name` is `b[nlo..nhi]`.
pub open spec fn raw_close_at(b: Seq<u8>, i: int, nlo: int, nhi: int) -> bool {
    &&& 0 <= i
    &&& i + 1 < b.len()
    &&& b[i] == 60
    &&& b[i + 1] == 47
    &&& {
        let p = skip_ws(b, i + 2);
        let e = p + (nhi - nlo);
        &&& e <= b.len()
        &&& ci_eq(b, p, nlo, nhi - nlo)
        &&& (e == b.len() || is_ws(b[e]) || b[e] == 62)
    }
}

/// Where the raw content that starts at `i` ends.
pub open spec fn raw_end(b: Seq<u8>, i: int, nlo: int, nhi: int) -> int
    decreases b.len() - i,
{
    if 0 <= i < b.len() {
        if raw_close_at(b, i, nlo, nhi) {
            i
        } else {
            raw_end(b, i + 1, nlo, nhi)
        }
    } else {
        i
    }
}

/// One attribute (or a stray byte) starting at `j`: its tokens and the
/// offset just after it.
pub open spec fn spec_attribute(b: Seq<u8>, j: int) -> (Seq<Token>, int) {
    let ne = scan_name(b, j);
    if ne == j {
        (seq![tok(TokenKind::Error, j, j + 1)], j + 1)
    } else {
        let k = skip_ws(b, ne);
        if k < b.len() && b[k] == 61 {
            let v = skip_ws(b, k + 1);
            if v < b.len() && (b[v] == 34 || b[v] == 39) {
                let ve = quote_end(b, v + 1, b[v]);
                let np = if ve < b.len() {
                    ve + 1
                } else {
                    ve
                };
                (
                    seq![
                        tok(
                            TokenKind::Attribute { name: rng(j, ne), value: Some(rng(v + 1, ve)) },
                            j,
                            np,
                        ),
                    ],
                    np,
                )
            } else {
                let ve = unquoted_end(b, v);
                (
                    seq![
                        tok(
                            TokenKind::Attribute { name: rng(j, ne), value: Some(rng(v, ve)) },
                            j,
                            ve,
                        ),
                    ],
                    ve,
                )
            }
        } else {
            (seq![tok(TokenKind::Attribute { name: rng(j, ne), value: None }, j, ne)], ne)
        }
    }
}

/// The attributes and closing delimiter of an open tag, from offset `i`:
/// the tokens, the offset after them, and whether the tag self-closed.
pub open spec fn spec_attributes(b: Seq<u8>, i: int) -> (Seq<Token>, int, bool)
    decreases b.len() - i,
{
    let j = skip_ws(b, i);
    if i < 0 || j >= b.len() {
        (seq![], j, false)
    } else if b[j] == 62 {
        (seq![tok(TokenKind::OpenTagEnd, j, j + 1)], j + 1, false)
    } else if b[j] == 47 && j + 1 < b.len() && b[j + 1] == 62 {
        (seq![tok(TokenKind::SelfCloseTagEnd, j, j + 2)], j + 2, true)
    } else if b[j] == 47 {
        proof {
            lemma_skip_ws_bounds(b, i);
        }
        spec_attributes(b, j + 1)
    } else {
        proof {
            lemma_skip_ws_bounds(b, i);
            lemma_attribute_advances(b, j);
        }
        let (t, np) = spec_attribute(b, j);
        let (rest, p2, sc) = spec_attributes(b, np);
        (t + rest, p2, sc)
    }
}

/// Text from `pos`: at least one byte, then up to the next `<`.
pub open spec fn spec_text(b: Seq<u8>, pos: int) -> (Seq<Token>, int) {
    let e = text_end(b, pos + 1);
    (seq![tok(TokenKind::Text, pos, e)], e)
}

pub open spec fn spec_comment(b: Seq<u8>, pos: int) -> (Seq<Token>, int) {
    let j = comment_close(b, pos + 4);
    if j < b.len() {
        (seq![tok(TokenKind::Comment { content: rng(pos + 4, j) }, pos, j + 3)], j + 3)
    } else {
        (seq![tok(TokenKind::Comment { content: rng(pos + 4, b.len() as int) }, pos, b.len() as int)], b.len() as int)
    }
}

pub open spec fn spec_doctype(b: Seq<u8>, pos: int) -> (Seq<Token>, int) {
    let e = past_gt(b, pos);
    (seq![tok(TokenKind::Doctype, pos, e)], e)
}

pub open spec fn spec_close_tag(b: Seq<u8>, pos: int) -> (Seq<Token>, int) {
    let p = skip_ws(b, pos + 2);
    let ne = scan_name(b, p);
    let e = past_gt(b, ne);
    (seq![tok(TokenKind::CloseTag { name: rng(p, ne) }, pos, e)], e)
}

pub open spec fn spec_open_tag(b: Seq<u8>, pos: int) -> (Seq<Token>, int) {
    let ne = scan_name(b, pos + 1);
    let (attrs, ap, self_closed) = spec_attributes(b, ne);
    let head = seq![tok(TokenKind::OpenTagStart { name: rng(pos + 1, ne) }, pos, ne)] + attrs;
    if is_raw_name(b, pos + 1, ne) && !self_closed {
        let re = raw_end(b, ap, pos + 1, ne);
        if re > ap {
            (head + seq![tok(TokenKind::RawText, ap, re)], re)
        } else {
            (head, re)
        }
    } else {
        (head, ap)
    }
}

/// What follows a `<` at `pos`.
pub open spec fn spec_lt(b: Seq<u8>, pos: int) -> (Seq<Token>, int) {
    if comment_open_at(b, pos) {
        spec_comment(b, pos)
    } else if doctype_open_at(b, pos) {
        spec_doctype(b, pos)
    } else if pos + 1 < b.len() && b[pos + 1] == 47 {
        spec_close_tag(b, pos)
    } else if pos + 1 < b.len() && is_name_start(b[pos + 1]) {
        spec_open_tag(b, pos)
    } else {
        spec_text(b, pos)
    }
}

/// One lexing step at `pos`.
pub open spec fn spec_step(b: Seq<u8>, pos: int) -> (Seq<Token>, int) {
    if b[pos] == 60 {
        spec_lt(b, pos)
    } else {
        spec_text(b, pos)
    }
}

/// The tokens of `b` from offset `pos` on.
pub open spec fn spec_tokens_from(b: Seq<u8>, pos: int) -> Seq<Token>
    decreases b.len() - pos,
{
    if 0 <= pos < b.len() {
        proof {
            lemma_step_advances(b, pos);
        }
        let (t, np) = spec_step(b, pos);
        t + spec_tokens_from(b, np)
    } else {
        seq![]
    }
}

/// The token stream of a whole source text.
pub open spec fn spec_tokens(b: Seq<u8>) -> Seq<Token> {
    spec_tokens_from(b, 0)
}

// ---------------------------------------------------------------------------
// Progress lemmas for the scanners.

pub proof fn lemma_skip_ws_bounds(b: Seq<u8>, i: int)
    ensures
        i <= skip_ws(b, i),
        0 <= i <= b.len() ==> skip_ws(b, i) <= b.len(),
        0 <= i <= b.len() ==> skip_ws(b, i) == b.len() || !is_ws(b[skip_ws(b, i)]),
        skip_ws(b, i) == i || is_ws(b[skip_ws(b, i) - 1]),
    decreases b.len() - i,
{
    if 0 <= i < b.len() && is_ws(b[i]) {
        lemma_skip_ws_bounds(b, i + 1);
    }
}

pub proof fn lemma_scan_name_bounds(b: Seq<u8>, i: int)
    ensures
        i <= scan_name(b, i),
        0 <= i <= b.len() ==> scan_name(b, i) <= b.len(),
        0 <= i <= b.len() ==> scan_name(b, i) == b.len() || !is_name_char(b[scan_name(b, i)]),
        forall|k: int| i <= k < scan_name(b, i) ==> is_name_char(#[trigger] b[k]),
    decreases b.len() - i,
{
    if 0 <= i < b.len() && is_name_char(b[i]) {
        lemma_scan_name_bounds(b, i + 1);
    }
}

pub proof fn lemma_text_end_bounds(b: Seq<u8>, i: int)
    ensures
        i <= text_end(b, i),
        0 <= i <= b.len() ==> text_end(b, i) <= b.len(),
        0 <= i <= b.len() ==> text_end(b, i) == b.len() || b[text_end(b, i)] == 60,
    decreases b.len() - i,
{
    if 0 <= i < b.len() && b[i] != 60 {
        lemma_text_end_bounds(b, i + 1);
    }
}

pub proof fn lemma_past_gt_bounds(b: Seq<u8>, i: int)
    ensures
        i <= past_gt(b, i),
        0 <= i <= b.len() ==> past_gt(b, i) <= b.len(),
        0 <= i < b.len() ==> i < past_gt(b, i),
        past_gt(b, i) == i || past_gt(b, i) == b.len() || b[past_gt(b, i) - 1] == 62,
    decreases b.len() - i,
{
    if 0 <= i < b.len() && b[i] != 62 {
        lemma_past_gt_bounds(b, i + 1);
    }
}

pub proof fn lemma_comment_close_bounds(b: Seq<u8>, i: int)
    ensures
        i <= comment_close(b, i),
        0 <= i <= b.len() ==> comment_close(b, i) <= b.len(),
        0 <= i <= b.len() ==> comment_close(b, i) == b.len() || comment_end_at(b, comment_close(b, i)),
    decreases b.len() - i,
{
    if 0 <= i < b.len() && !comment_end_at(b, i) {
        lemma_comment_close_bounds(b, i + 1);
    }
}

pub proof fn lemma_quote_end_bounds(b: Seq<u8>, i: int, q: u8)
    ensures
        i <= quote_end(b, i, q),
        0 <= i <= b.len() ==> quote_end(b, i, q) <= b.len(),
        0 <= i <= b.len() ==> quote_end(b, i, q) == b.len() || b[quote_end(b, i, q)] == q,
    decreases b.len() - i,
{
    if 0 <= i < b.len() && b[i] != q {
        lemma_quote_end_bounds(b, i + 1, q);
    }
}

pub proof fn lemma_unquoted_end_bounds(b: Seq<u8>, i: int)
    ensures
        i <= unquoted_end(b, i),
        0 <= i <= b.len() ==> unquoted_end(b, i) <= b.len(),
        0 <= i <= b.len() ==> unquoted_end(b, i) == b.len() || unquoted_stop(b, unquoted_end(b, i)),
    decreases b.len() - i,
{
    if 0 <= i < b.len() && !unquoted_stop(b, i) {
        lemma_unquoted_end_bounds(b, i + 1);
    }
}

pub proof fn lemma_raw_end_bounds(b: Seq<u8>, i: int, nlo: int, nhi: int)
    ensures
        i <= raw_end(b, i, nlo, nhi),
        0 <= i <= b.len() ==> raw_end(b, i, nlo, nhi) <= b.len(),
        0 <= i <= b.len() ==> raw_end(b, i, nlo, nhi) == b.len() || b[raw_end(b, i, nlo, nhi)] == 60,
    decreases b.len() - i,
{
    if 0 <= i < b.len() && !raw_close_at(b, i, nlo, nhi) {
        lemma_raw_end_bounds(b, i + 1, nlo, nhi);
    }
}

pub proof fn lemma_attribute_advances(b: Seq<u8>, j: int)
    requires
        0 <= j < b.len(),
    ensures
        j < spec_attribute(b, j).1 <= b.len(),
{
    let ne = scan_name(b, j);
    lemma_scan_name_bounds(b, j);
    if ne != j {
        let k = skip_ws(b, ne);
        lemma_skip_ws_bounds(b, ne);
        if k < b.len() && b[k] == 61 {
            let v = skip_ws(b, k + 1);
            lemma_skip_ws_bounds(b, k + 1);
            if v < b.len() && (b[v] == 34 || b[v] == 39) {
                lemma_quote_end_bounds(b, v + 1, b[v]);
            } else {
                lemma_unquoted_end_bounds(b, v);
            }
        }
    }
}

pub proof fn lemma_attributes_bounds(b: Seq<u8>, i: int)
    requires
        0 <= i <= b.len(),
    ensures
        i <= spec_attributes(b, i).1 <= b.len(),
    decreases b.len() - i,
{
    let j = skip_ws(b, i);
    lemma_skip_ws_bounds(b, i);
    if j < b.len() && b[j] != 62 && !(b[j] == 47 && j + 1 < b.len() && b[j + 1] == 62) {
        if b[j] == 47 {
            lemma_attributes_bounds(b, j + 1);
        } else {
            lemma_attribute_advances(b, j);
            lemma_attributes_bounds(b, spec_attribute(b, j).1);
        }
    }
}

pub proof fn lemma_step_advances(b: Seq<u8>, pos: int)
    requires
        0 <= pos < b.len(),
    ensures
        pos < spec_step(b, pos).1 <= b.len(),
{
    lemma_text_end_bounds(b, pos + 1);
    if b[pos] == 60 {
        if comment_open_at(b, pos) {
            lemma_comment_close_bounds(b, pos + 4);
        } else if doctype_open_at(b, pos) {
            lemma_past_gt_bounds(b, pos);
        } else if pos + 1 < b.len() && b[pos + 1] == 47 {
            lemma_skip_ws_bounds(b, pos + 2);
            let p = skip_ws(b, pos + 2);
            lemma_scan_name_bounds(b, p);
            lemma_past_gt_bounds(b, scan_name(b, p));
        } else if pos + 1 < b.len() && is_name_start(b[pos + 1]) {
            let ne = scan_name(b, pos + 1);
            lemma_scan_name_bounds(b, pos + 1);
            lemma_attributes_bounds(b, ne);
            let ap = spec_attributes(b, ne).1;
            lemma_raw_end_bounds(b, ap, pos + 1, ne);
        }
    }
}

// ---------------------------------------------------------------------------
// The tokenizer.

/// Tokenizes `source` into a flat token stream. Never panics; unexpected input
/// is surfaced as `Text` or `Error` tokens so the tree builder can recover.
pub fn tokenize(source: &str) -> (r: Vec<Token>)
    requires
        source.spec_bytes().len() <= u32::MAX,
    ensures
        r@ == spec_tokens(source.spec_bytes()),
{
    Lexer::new(source.as_bytes()).run()
}

/// ASCII whitespace.
pub fn is_ascii_whitespace(b: u8) -> (r: bool)
    ensures
        r == is_ws(b),
{
    b == 32 || b == 9 || b == 10 || b == 13 || b == 12
}

/// Bytes that may begin a tag name: ASCII letters, `_`, and any non-ASCII
/// byte, so PascalCase components and custom elements lex correctly.
pub fn is_name_start_byte(b: u8) -> (r: bool)
    ensures
        r == is_name_start(b),
{
    (65 <= b && b <= 90) || (97 <= b && b <= 122) || b == 95 || b >= 128
}

/// Bytes that may continue a name: anything but whitespace, `/`, `>`, `<`, `=`.
pub fn is_name_byte(b: u8) -> (r: bool)
    ensures
        r == is_name_char(b),
{
    !is_ascii_whitespace(b) && b != 47 && b != 62 && b != 60 && b != 61
}

/// ASCII lowercase of one byte.
pub fn to_lower(c: u8) -> (r: u8)
    ensures
        r == lower(c),
{
    if 65 <= c && c <= 90 {
        c + 32
    } else {
        c
    }
}

/// The range from `start` to `end`.
pub fn range(start: usize, end: usize) -> (r: TextRange)
    requires
        start <= end <= u32::MAX,
    ensures
        r == rng(start as int, end as int),
{
    TextRange { start: TextSize { raw: start as u32 }, end: TextSize { raw: end as u32 } }
}

/// `b[lo..hi]` spells `word` (lowercase), ignoring ASCII case.
fn name_equals(b: &[u8], lo: usize, hi: usize, word: &[u8]) -> (r: bool)
    requires
        lo <= hi <= b@.len(),
    ensures
        r == name_is(b@, lo as int, hi as int, word@),
{
    if hi - lo != word.len() {
        return false;
    }
    let mut k: usize = 0;
    while k < word.len()
        invariant
            k <= word@.len(),
            hi - lo == word@.len(),
            hi <= b@.len(),
            forall|m: int| 0 <= m < k ==> lower(#[trigger] b@[lo + m]) == word@[m],
        decreases word@.len() - k,
    {
        if to_lower(b[lo + k]) != word[k] {
            return false;
        }
        k += 1;
    }
    true
}

/// Whether `b[lo..hi]` names a raw-text element.
fn raw_text_name(b: &[u8], lo: usize, hi: usize) -> (r: bool)
    requires
        lo <= hi <= b@.len(),
    ensures
        r == is_raw_name(b@, lo as int, hi as int),
{
    let script: [u8; 6] = [115, 99, 114, 105, 112, 116];
    let style: [u8; 5] = [115, 116, 121, 108, 101];
    let title: [u8; 5] = [116, 105, 116, 108, 101];
    let textarea: [u8; 8] = [116, 101, 120, 116, 97, 114, 101, 97];
    assert(script@ =~= seq![115u8, 99, 114, 105, 112, 116]);
    assert(style@ =~= seq![115u8, 116, 121, 108, 101]);
    assert(title@ =~= seq![116u8, 105, 116, 108, 101]);
    assert(textarea@ =~= seq![116u8, 101, 120, 116, 97, 114, 101, 97]);
    name_equals(b, lo, hi, &script) || name_equals(b, lo, hi, &style) || name_equals(
        b,
        lo,
        hi,
        &title,
    ) || name_equals(b, lo, hi, &textarea)
}

struct Lexer<'a> {
    bytes: &'a [u8],
    pos: usize,
    tokens: Vec<Token>,
}

impl<'a> Lexer<'a> {
    spec fn b(&self) -> Seq<u8> {
        self.bytes@
    }

    spec fn wf(&self) -> bool {
        self.bytes@.len() <= u32::MAX && self.pos <= self.bytes@.len()
    }

    fn new(bytes: &'a [u8]) -> (r: Lexer<'a>)
        requires
            bytes@.len() <= u32::MAX,
        ensures
            r.bytes@ == bytes@,
            r.pos == 0,
            r.tokens@ == Seq::<Token>::empty(),
            r.wf(),
    {
        Lexer { bytes, pos: 0, tokens: Vec::new() }
    }

    fn peek(&self) -> (r: Option<u8>)
        ensures
            r == (if self.pos < self.b().len() {
                Some(self.b()[self.pos as int])
            } else {
                None::<u8>
            }),
    {
        if self.pos < self.bytes.len() {
            Some(self.bytes[self.pos])
        } else {
            None
        }
    }

    fn peek_at(&self, offset: usize) -> (r: Option<u8>)
        requires
            self.wf(),
            offset <= 8,
        ensures
            r == (if self.pos + offset < self.b().len() {
                Some(self.b()[self.pos + offset])
            } else {
                None::<u8>
            }),
    {
        if offset < self.bytes.len() - self.pos {
            Some(self.bytes[self.pos + offset])
        } else {
            None
        }
    }

    fn push(&mut self, kind: TokenKind, start: usize, end: usize)
        requires
            old(self).wf(),
            start <= end <= old(self).b().len(),
        ensures
            final(self).bytes == old(self).bytes,
            final(self).pos == old(self).pos,
            final(self).tokens@ == old(self).tokens@.push(tok(kind, start as int, end as int)),
    {
        let r = range(start, end);
        self.tokens.push(Token { kind, range: r });
    }

    fn skip_whitespace(&mut self)
        requires
            old(self).wf(),
        ensures
            final(self).bytes == old(self).bytes,
            final(self).tokens == old(self).tokens,
            final(self).pos == skip_ws(old(self).b(), old(self).pos as int),
            final(self).wf(),
    {
        let ghost target = skip_ws(self.b(), self.pos as int);
        while self.pos < self.bytes.len() && is_ascii_whitespace(self.bytes[self.pos])
            invariant
                self.wf(),
                self.bytes == old(self).bytes,
                self.tokens == old(self).tokens,
                skip_ws(self.b(), self.pos as int) == target,
            decreases self.b().len() - self.pos,
        {
            self.pos += 1;
        }
    }

    fn run(self) -> (r: Vec<Token>)
        requires
            self.wf(),
            self.pos == 0,
            self.tokens@ == Seq::<Token>::empty(),
        ensures
            r@ == spec_tokens(self.b()),
    {
        let mut this = self;
        let ghost b = this.b();
        while this.pos < this.bytes.len()
            invariant
                this.wf(),
                this.b() == b,
                this.tokens@ + spec_tokens_from(b, this.pos as int) == spec_tokens(b),
            decreases b.len() - this.pos,
        {
            let ghost p0 = this.pos as int;
            let ghost t0 = this.tokens@;
            proof {
                lemma_step_advances(b, p0);
            }
            if this.bytes[this.pos] == 60 {
                this.lex_lt();
            } else {
                this.lex_text();
            }
            proof {
                assert(this.tokens@ == t0 + spec_step(b, p0).0);
                assert(this.pos == spec_step(b, p0).1);
                assert(spec_tokens_from(b, p0) == spec_step(b, p0).0 + spec_tokens_from(b, this.pos as int));
                assert(t0 + (spec_step(b, p0).0 + spec_tokens_from(b, this.pos as int)) =~= this.tokens@ + spec_tokens_from(b, this.pos as int));
            }
        }
        proof {
            assert(spec_tokens_from(b, this.pos as int) =~= Seq::<Token>::empty());
            assert(this.tokens@ + Seq::<Token>::empty() =~= this.tokens@);
        }
        this.tokens
    }

    /// Dispatch on what follows a `<`.
    fn lex_lt(&mut self)
        requires
            old(self).wf(),
            old(self).pos < old(self).b().len(),
            old(self).b()[old(self).pos as int] == 60,
        ensures
            final(self).wf(),
            final(self).bytes == old(self).bytes,
            final(self).tokens@ == old(self).tokens@ + spec_lt(old(self).b(), old(self).pos as int).0,
            final(self).pos == spec_lt(old(self).b(), old(self).pos as int).1,
    {
        if self.at_comment_open() {
            self.lex_comment();
        } else if self.at_doctype_open() {
            self.lex_doctype();
        } else if self.peek_at(1) == Some(47u8) {
            self.lex_close_tag();
        } else if self.pos + 1 < self.bytes.len() && is_name_start_byte(self.bytes[self.pos + 1]) {
            self.lex_open_tag();
        } else {
            // A stray `<` that does not begin a tag is plain text.
            self.lex_text();
        }
    }

    fn at_comment_open(&self) -> (r: bool)
        requires
            self.wf(),
        ensures
            r == comment_open_at(self.b(), self.pos as int),
    {
        4 <= self.bytes.len() - self.pos && self.bytes[self.pos] == 60 && self.bytes[self.pos + 1]
            == 33 && self.bytes[self.pos + 2] == 45 && self.bytes[self.pos + 3] == 45
    }

    fn at_comment_end(&self) -> (r: bool)
        requires
            self.wf(),
        ensures
            r == comment_end_at(self.b(), self.pos as int),
    {
        3 <= self.bytes.len() - self.pos && self.bytes[self.pos] == 45 && self.bytes[self.pos + 1]
            == 45 && self.bytes[self.pos + 2] == 62
    }

    fn at_doctype_open(&self) -> (r: bool)
        requires
            self.wf(),
        ensures
            r == doctype_open_at(self.b(), self.pos as int),
    {
        let doctype: [u8; 7] = [100, 111, 99, 116, 121, 112, 101];
        assert(doctype@ =~= seq![100u8, 111, 99, 116, 121, 112, 101]);
        9 <= self.bytes.len() - self.pos && self.bytes[self.pos] == 60 && self.bytes[self.pos + 1]
            == 33 && name_equals(self.bytes, self.pos + 2, self.pos + 9, &doctype)
    }

    fn lex_text(&mut self)
        requires
            old(self).wf(),
            old(self).pos < old(self).b().len(),
        ensures
            final(self).wf(),
            final(self).bytes == old(self).bytes,
            final(self).tokens@ == old(self).tokens@ + spec_text(old(self).b(), old(self).pos as int).0,
            final(self).pos == spec_text(old(self).b(), old(self).pos as int).1,
    {
        let start = self.pos;
        let ghost target = text_end(self.b(), start + 1);
        proof {
            lemma_text_end_bounds(self.b(), start + 1);
        }
        // Always consume at least one byte so a lone `<` makes progress.
        self.pos += 1;
        while self.pos < self.bytes.len() && self.bytes[self.pos] != 60
            invariant
                self.wf(),
                self.bytes == old(self).bytes,
                self.tokens == old(self).tokens,
                text_end(self.b(), self.pos as int) == target,
            decreases self.b().len() - self.pos,
        {
            self.pos += 1;
        }
        self.push(TokenKind::Text, start, self.pos);
        proof {
            assert(self.tokens@ =~= old(self).tokens@ + spec_text(old(self).b(), start as int).0);
        }
    }

    fn lex_comment(&mut self)
        requires
            old(self).wf(),
            comment_open_at(old(self).b(), old(self).pos as int),
        ensures
            final(self).wf(),
            final(self).bytes == old(self).bytes,
            final(self).tokens@ == old(self).tokens@ + spec_comment(old(self).b(), old(self).pos as int).0,
            final(self).pos == spec_comment(old(self).b(), old(self).pos as int).1,
    {
        let start = self.pos;
        self.pos += 4;
        let content_start = self.pos;
        let mut content_end = self.bytes.len();
        let mut end = self.bytes.len();
        let ghost target = comment_close(self.b(), content_start as int);
        proof {
            lemma_comment_close_bounds(self.b(), content_start as int);
        }
        while self.pos < self.bytes.len() && !self.at_comment_end()
            invariant
                self.wf(),
                self.bytes == old(self).bytes,
                self.tokens == old(self).tokens,
                content_start <= self.pos,
                comment_close(self.b(), self.pos as int) == target,
                content_end == self.b().len(),
                end == self.b().len(),
            decreases self.b().len() - self.pos,
        {
            self.pos += 1;
        }
        if self.pos < self.bytes.len() {
            content_end = self.pos;
            end = self.pos + 3;
            self.pos = end;
        }
        // Unterminated: content runs to the end and pos is already there.
        let content = range(content_start, content_end);
        self.push(TokenKind::Comment { content }, start, end);
        proof {
            assert(self.tokens@ =~= old(self).tokens@ + spec_comment(old(self).b(), start as int).0);
        }
    }

    fn lex_doctype(&mut self)
        requires
            old(self).wf(),
            old(self).pos < old(self).b().len(),
        ensures
            final(self).wf(),
            final(self).bytes == old(self).bytes,
            final(self).tokens@ == old(self).tokens@ + spec_doctype(old(self).b(), old(self).pos as int).0,
            final(self).pos == spec_doctype(old(self).b(), old(self).pos as int).1,
    {
        let start = self.pos;
        proof {
            lemma_past_gt_bounds(self.b(), start as int);
        }
        self.skip_past_gt();
        self.push(TokenKind::Doctype, start, self.pos);
        proof {
            assert(self.tokens@ =~= old(self).tokens@ + spec_doctype(old(self).b(), start as int).0);
        }
    }

    /// Consumes up to and including the next `>` (or to the end).
    fn skip_past_gt(&mut self)
        requires
            old(self).wf(),
        ensures
            final(self).wf(),
            final(self).bytes == old(self).bytes,
            final(self).tokens == old(self).tokens,
            final(self).pos == past_gt(old(self).b(), old(self).pos as int),
    {
        let ghost target = past_gt(self.b(), self.pos as int);
        proof {
            lemma_past_gt_bounds(self.b(), self.pos as int);
        }
        while self.pos < self.bytes.len() && self.bytes[self.pos] != 62
            invariant
                self.wf(),
                self.bytes == old(self).bytes,
                self.tokens == old(self).tokens,
                past_gt(self.b(), self.pos as int) == target,
            decreases self.b().len() - self.pos,
        {
            self.pos += 1;
        }
        if self.pos < self.bytes.len() {
            self.pos += 1;
        }
    }

    /// Consumes a run of name bytes.
    fn skip_name(&mut self)
        requires
            old(self).wf(),
        ensures
            final(self).wf(),
            final(self).bytes == old(self).bytes,
            final(self).tokens == old(self).tokens,
            final(self).pos == scan_name(old(self).b(), old(self).pos as int),
    {
        let ghost target = scan_name(self.b(), self.pos as int);
        while self.pos < self.bytes.len() && is_name_byte(self.bytes[self.pos])
            invariant
                self.wf(),
                self.bytes == old(self).bytes,
                self.tokens == old(self).tokens,
                scan_name(self.b(), self.pos as int) == target,
            decreases self.b().len() - self.pos,
        {
            self.pos += 1;
        }
    }

    fn lex_close_tag(&mut self)
        requires
            old(self).wf(),
            old(self).pos + 1 < old(self).b().len(),
        ensures
            final(self).wf(),
            final(self).bytes == old(self).bytes,
            final(self).tokens@ == old(self).tokens@ + spec_close_tag(old(self).b(), old(self).pos as int).0,
            final(self).pos == spec_close_tag(old(self).b(), old(self).pos as int).1,
    {
        let start = self.pos;
        self.pos += 2;
        self.skip_whitespace();
        let name_start = self.pos;
        self.skip_name();
        proof {
            lemma_skip_ws_bounds(self.b(), start + 2);
            lemma_scan_name_bounds(self.b(), name_start as int);
        }
        let name = range(name_start, self.pos);
        proof {
            lemma_past_gt_bounds(self.b(), self.pos as int);
        }
        // Tolerate whitespace, then consume up to and including `>`.
        self.skip_past_gt();
        self.push(TokenKind::CloseTag { name }, start, self.pos);
        proof {
            assert(self.tokens@ =~= old(self).tokens@ + spec_close_tag(old(self).b(), start as int).0);
        }
    }

    fn lex_open_tag(&mut self)
        requires
            old(self).wf(),
            old(self).pos + 1 < old(self).b().len(),
        ensures
            final(self).wf(),
            final(self).bytes == old(self).bytes,
            final(self).tokens@ == old(self).tokens@ + spec_open_tag(old(self).b(), old(self).pos as int).0,
            final(self).pos == spec_open_tag(old(self).b(), old(self).pos as int).1,
    {
        let ghost b = self.b();
        let ghost t0 = self.tokens@;
        let start = self.pos;
        self.pos += 1;
        let name_start = self.pos;
        self.skip_name();
        let name_end = self.pos;
        proof {
            lemma_scan_name_bounds(b, name_start as int);
        }
        let name = range(name_start, name_end);
        let is_raw = raw_text_name(self.bytes, name_start, name_end);
        self.push(TokenKind::OpenTagStart { name }, start, name_end);
        let ghost t1 = self.tokens@;
        // Attributes until the tag closes.
        let self_closed = self.lex_attributes();
        let ghost ap = self.pos as int;
        proof {
            lemma_attributes_bounds(b, name_end as int);
        }
        if is_raw && !self_closed {
            self.lex_raw_text(name_start, name_end);
            proof {
                let re = raw_end(b, ap, name_start as int, name_end as int);
                if re > ap {
                    assert(self.tokens@ =~= t0 + spec_open_tag(b, start as int).0);
                } else {
                    assert(self.tokens@ =~= t0 + spec_open_tag(b, start as int).0);
                }
            }
        } else {
            proof {
                assert(self.tokens@ =~= t0 + spec_open_tag(b, start as int).0);
            }
        }
    }

    /// Lexes attributes and the closing delimiter of the current open tag.
    /// Returns true if the tag was self-closing (`/>`).
    fn lex_attributes(&mut self) -> (self_closed: bool)
        requires
            old(self).wf(),
        ensures
            final(self).wf(),
            final(self).bytes == old(self).bytes,
            final(self).tokens@ == old(self).tokens@ + spec_attributes(old(self).b(), old(self).pos as int).0,
            final(self).pos == spec_attributes(old(self).b(), old(self).pos as int).1,
            self_closed == spec_attributes(old(self).b(), old(self).pos as int).2,
    {
        let ghost b = self.b();
        let ghost goal = spec_attributes(b, self.pos as int);
        let ghost t0 = self.tokens@;
        loop
            invariant
                self.wf(),
                self.b() == b,
                b == old(self).b(),
                t0 == old(self).tokens@,
                goal == spec_attributes(old(self).b(), old(self).pos as int),
                self.bytes == old(self).bytes,
                self.tokens@ + spec_attributes(b, self.pos as int).0 == t0 + goal.0,
                spec_attributes(b, self.pos as int).1 == goal.1,
                spec_attributes(b, self.pos as int).2 == goal.2,
            decreases b.len() - self.pos,
        {
            let ghost p0 = self.pos as int;
            let ghost tk = self.tokens@;
            self.skip_whitespace();
            proof {
                lemma_skip_ws_bounds(b, p0);
            }
            let j = self.pos;
            if j >= self.bytes.len() {
                proof {
                    assert(spec_attributes(b, p0) == (Seq::<Token>::empty(), j as int, false));
                    assert(tk + Seq::<Token>::empty() =~= tk);
                    assert(self.tokens@ == t0 + goal.0);
                    assert(self.pos == goal.1);
                }
                return false;
            }
            let c = self.bytes[j];
            if c == 62 {
                self.pos += 1;
                self.push(TokenKind::OpenTagEnd, j, j + 1);
                proof {
                    assert(self.tokens@ =~= tk + spec_attributes(b, p0).0);
                }
                return false;
            } else if c == 47 && self.peek_at(1) == Some(62u8) {
                self.pos += 2;
                self.push(TokenKind::SelfCloseTagEnd, j, j + 2);
                proof {
                    assert(self.tokens@ =~= tk + spec_attributes(b, p0).0);
                }
                return true;
            } else if c == 47 {
                // Stray slash inside a tag; skip it.
                self.pos += 1;
            } else {
                proof {
                    lemma_attribute_advances(b, j as int);
                }
                self.lex_attribute();
                proof {
                    let (t, np) = spec_attribute(b, j as int);
                    assert(self.tokens@ =~= tk + t);
                    let (rest, p2, sc) = spec_attributes(b, np);
                    assert(spec_attributes(b, p0).0 == t + rest);
                    assert(tk + (t + rest) =~= self.tokens@ + rest);
                }
            }
        }
    }

    fn lex_attribute(&mut self)
        requires
            old(self).wf(),
            old(self).pos < old(self).b().len(),
        ensures
            final(self).wf(),
            final(self).bytes == old(self).bytes,
            final(self).tokens@ == old(self).tokens@ + spec_attribute(old(self).b(), old(self).pos as int).0,
            final(self).pos == spec_attribute(old(self).b(), old(self).pos as int).1,
    {
        let ghost b = self.b();
        let start = self.pos;
        let name_start = self.pos;
        self.skip_name();
        proof {
            lemma_scan_name_bounds(b, name_start as int);
        }
        if self.pos == name_start {
            // Not a name byte (e.g. a lone `=`); consume one byte as an error
            // token so the tokenizer makes progress.
            self.pos += 1;
            self.push(TokenKind::Error, start, self.pos);
            proof {
                assert(self.tokens@ =~= old(self).tokens@ + spec_attribute(b, start as int).0);
            }
            return;
        }
        let name = range(name_start, self.pos);
        let name_end = self.pos;
        // An optional `=` (with surrounding whitespace) introduces a value.
        let mut value: Option<TextRange> = None;
        let save = self.pos;
        self.skip_whitespace();
        proof {
            lemma_skip_ws_bounds(b, name_end as int);
        }
        if self.peek() == Some(61u8) {
            self.pos += 1;
            proof {
                lemma_skip_ws_bounds(b, self.pos as int);
            }
            self.skip_whitespace();
            value = Some(self.lex_attribute_value());
        } else {
            // A boolean attribute: trailing whitespace is not consumed.
            self.pos = save;
        }
        self.push(TokenKind::Attribute { name, value }, start, self.pos);
        proof {
            assert(self.tokens@ =~= old(self).tokens@ + spec_attribute(b, start as int).0);
        }
    }

    fn lex_attribute_value(&mut self) -> (r: TextRange)
        requires
            old(self).wf(),
        ensures
            final(self).wf(),
            final(self).bytes == old(self).bytes,
            final(self).tokens == old(self).tokens,
            old(self).pos <= final(self).pos,
            ({
                let b = old(self).b();
                let v = old(self).pos as int;
                if v < b.len() && (b[v] == 34 || b[v] == 39) {
                    let ve = quote_end(b, v + 1, b[v]);
                    &&& r == rng(v + 1, ve)
                    &&& final(self).pos == (if ve < b.len() {
                        ve + 1
                    } else {
                        ve
                    })
                } else {
                    &&& r == rng(v, unquoted_end(b, v))
                    &&& final(self).pos == unquoted_end(b, v)
                }
            }),
    {
        let ghost b = self.b();
        let v = self.pos;
        if v < self.bytes.len() && (self.bytes[v] == 34 || self.bytes[v] == 39) {
            let q = self.bytes[v];
            self.pos += 1;
            let v_start = self.pos;
            let ghost target = quote_end(b, v_start as int, q);
            proof {
                lemma_quote_end_bounds(b, v_start as int, q);
            }
            while self.pos < self.bytes.len() && self.bytes[self.pos] != q
                invariant
                    self.wf(),
                    self.b() == b,
                    self.bytes == old(self).bytes,
                    self.tokens == old(self).tokens,
                    quote_end(b, self.pos as int, q) == target,
                decreases b.len() - self.pos,
            {
                self.pos += 1;
            }
            let v_end = self.pos;
            if self.pos < self.bytes.len() && self.bytes[self.pos] == q {
                self.pos += 1;
            }
            range(v_start, v_end)
        } else {
            let ghost target = unquoted_end(b, v as int);
            proof {
                lemma_unquoted_end_bounds(b, v as int);
            }
            while self.pos < self.bytes.len() && !(is_ascii_whitespace(self.bytes[self.pos])
                || self.bytes[self.pos] == 62 || (self.bytes[self.pos] == 47 && self.peek_at(1)
                == Some(62u8)))
                invariant
                    self.wf(),
                    self.b() == b,
                    self.bytes == old(self).bytes,
                    self.tokens == old(self).tokens,
                    unquoted_end(b, self.pos as int) == target,
                decreases b.len() - self.pos,
            {
                self.pos += 1;
            }
            range(v, self.pos)
        }
    }

    /// Consumes raw element content up to (but not including) the matching
    /// `</name>` close tag, case-insensitively; `name` is `b[nlo..nhi]`.
    fn lex_raw_text(&mut self, nlo: usize, nhi: usize)
        requires
            old(self).wf(),
            nlo <= nhi <= old(self).pos,
        ensures
            final(self).wf(),
            final(self).bytes == old(self).bytes,
            ({
                let b = old(self).b();
                let ap = old(self).pos as int;
                let re = raw_end(b, ap, nlo as int, nhi as int);
                &&& final(self).pos == re
                &&& final(self).tokens@ == (if re > ap {
                    old(self).tokens@.push(tok(TokenKind::RawText, ap, re))
                } else {
                    old(self).tokens@
                })
            }),
    {
        let ghost b = self.b();
        let start = self.pos;
        let ghost target = raw_end(b, start as int, nlo as int, nhi as int);
        proof {
            lemma_raw_end_bounds(b, start as int, nlo as int, nhi as int);
        }
        while self.pos < self.bytes.len() && !self.raw_close_here(nlo, nhi)
            invariant
                self.wf(),
                self.b() == b,
                self.bytes == old(self).bytes,
                self.tokens == old(self).tokens,
                start <= self.pos,
                nlo <= nhi <= start,
                raw_end(b, self.pos as int, nlo as int, nhi as int) == target,
            decreases b.len() - self.pos,
        {
            self.pos += 1;
        }
        if self.pos > start {
            self.push(TokenKind::RawText, start, self.pos);
        }
    }

    /// Whether `</name` followed by a delimiter starts at the current offset.
    fn raw_close_here(&self, nlo: usize, nhi: usize) -> (r: bool)
        requires
            self.wf(),
            self.pos < self.b().len(),
            nlo <= nhi <= self.b().len(),
        ensures
            r == raw_close_at(self.b(), self.pos as int, nlo as int, nhi as int),
    {
        let ghost b = self.b();
        if !(self.bytes[self.pos] == 60 && self.peek_at(1) == Some(47u8)) {
            return false;
        }
        let mut probe = self.pos + 2;
        let ghost target = skip_ws(b, probe as int);
        while probe < self.bytes.len() && is_ascii_whitespace(self.bytes[probe])
            invariant
                self.wf(),
                self.b() == b,
                probe <= b.len(),
                skip_ws(b, probe as int) == target,
            decreases b.len() - probe,
        {
            probe += 1;
        }
        let n = nhi - nlo;
        if probe > self.bytes.len() || n > self.bytes.len() - probe {
            return false;
        }
        let end = probe + n;
        let mut k: usize = 0;
        while k < n
            invariant
                self.b() == b,
                self.wf(),
                self.pos + 1 < b.len(),
                b[self.pos as int] == 60,
                b[self.pos + 1] == 47,
                probe == skip_ws(b, self.pos + 2),
                k <= n,
                n == nhi - nlo,
                nhi <= b.len(),
                end == probe + n,
                end <= b.len(),
                forall|m: int| 0 <= m < k ==> lower(#[trigger] b[probe + m]) == lower(b[nlo + m]),
            decreases n - k,
        {
            if to_lower(self.bytes[probe + k]) != to_lower(self.bytes[nlo + k]) {
                proof {
                    assert(lower(b[probe + k as int]) != lower(b[nlo + k as int]));
                    assert(!ci_eq(b, probe as int, nlo as int, n as int));
                }
                return false;
            }
            k += 1;
        }
        // Confirm the name is followed by a delimiter, not a longer name (e.g.
        // `</scriptable>` must not match `</script>`).
        end == self.bytes.len() || is_ascii_whitespace(self.bytes[end]) || self.bytes[end] == 62
    }
}

} // verus!
