//! Splitting a template text run into literal and `${…}` interpolation
//! segments. The scanner tracks brace depth and skips over string and
//! template literals, so `${ {a:1}.a }` and `${ "}" }` end at the right `}`.

use vstd::prelude::*;
use vstd::string::{StrSliceExecFns, StringSliceAdditionalSpecFns};

use crate::diagnostic::{diag_abs, diags_abs, Diagnostic, SDiag, Severity};
use crate::span::{TextRange, TextSize};
use crate::text::{all_white, is_blank, text_of};
use crate::span::slice_str;

verus! {

/// A `${…}` interpolation inside a text run.
#[derive(Debug, Clone, PartialEq)]
pub struct Interpolation {
    /// The expression text between `${` and `}`.
    pub expr: String,
    /// The range of the whole `${…}`.
    pub range: TextRange,
    /// The range of the expression text.
    pub expr_range: TextRange,
}

/// A piece of a text run: literal text or an interpolation.
#[derive(Debug, Clone, PartialEq)]
pub enum TextSegment {
    Literal { text: String, range: TextRange },
    Interpolation(Interpolation),
}

/// The abstract form of a [`TextSegment`].
pub enum SSegment {
    Literal(Seq<char>, TextRange),
    /// The expression text, the range of `${…}` and the range of the expression.
    Interpolation(Seq<char>, TextRange, TextRange),
}

impl View for TextSegment {
    type V = SSegment;

    open spec fn view(&self) -> SSegment {
        match self {
            TextSegment::Literal { text, range } => SSegment::Literal(text@, *range),
            TextSegment::Interpolation(i) => SSegment::Interpolation(i.expr@, i.range, i.expr_range),
        }
    }
}

pub open spec fn segs_view(s: Seq<TextSegment>) -> Seq<SSegment> {
    s.map_values(|t: TextSegment| t@)
}

/// `"`, `'` or a backtick.
pub open spec fn is_quote(c: u8) -> bool {
    c == 34 || c == 39 || c == 96
}

/// Where a string literal opened just before `i` with `quote` ends: just past
/// its closing quote, or at (or past) the end of the input. A backslash
/// escapes the next byte; in a template literal a `${…}` substitution is
/// skipped as a whole.
pub open spec fn skip_str(b: Seq<u8>, i: int, quote: u8) -> int
    decreases b.len() + 2 - i,
{
    if i < 0 || i >= b.len() {
        i
    } else if b[i] == 92 {
        skip_str(b, i + 2, quote)
    } else if b[i] == quote {
        i + 1
    } else if quote == 96 && b[i] == 36 && i + 1 < b.len() && b[i + 1] == 123 {
        let j = skip_subst(b, i + 2, 0);
        if i < j <= b.len() + 1 {
            skip_str(b, j, quote)
        } else {
            j
        }
    } else {
        skip_str(b, i + 1, quote)
    }
}

/// Where a template substitution whose body starts at `i` ends: just past the
/// `}` that closes it at brace depth `depth`, or at the end of the input.
pub open spec fn skip_subst(b: Seq<u8>, i: int, depth: nat) -> int
    decreases b.len() + 2 - i,
{
    if i < 0 || i >= b.len() {
        i
    } else if b[i] == 125 {
        if depth == 0 {
            i + 1
        } else {
            skip_subst(b, i + 1, (depth - 1) as nat)
        }
    } else if b[i] == 123 {
        skip_subst(b, i + 1, depth + 1)
    } else if is_quote(b[i]) {
        let j = skip_str(b, i + 1, b[i]);
        if i < j <= b.len() + 1 {
            skip_subst(b, j, depth)
        } else {
            j
        }
    } else {
        skip_subst(b, i + 1, depth)
    }
}

/// A space, tab or line break.
pub open spec fn is_ws_byte(c: u8) -> bool {
    c == 32 || c == 9 || c == 10 || c == 13
}

/// Bytes that can end an operand (an identifier, a number, a closing
/// bracket): a `/` after one divides, a `/` after anything else starts a
/// regular expression.
pub open spec fn ends_operand(c: u8) -> bool {
    (48 <= c <= 57) || (65 <= c <= 90) || (97 <= c <= 122) || c == 95 || c == 36 || c >= 128
        || c == 41 || c == 93 || c == 125
}

/// Where a line comment whose body starts at `i` ends: at the next line
/// break or the end of the input.
pub open spec fn line_end(b: Seq<u8>, i: int) -> int
    decreases b.len() - i,
{
    if 0 <= i < b.len() && b[i] != 10 {
        line_end(b, i + 1)
    } else {
        i
    }
}

/// Just past the `*/` that closes a block comment whose body starts at `i`,
/// or the end of the input.
pub open spec fn block_end(b: Seq<u8>, i: int) -> int
    decreases b.len() - i,
{
    if i < 0 || i >= b.len() {
        i
    } else if b[i] == 42 && i + 1 < b.len() && b[i + 1] == 47 {
        i + 2
    } else {
        block_end(b, i + 1)
    }
}

/// Just past the `/` that closes a regular expression whose body starts at
/// `i`: a backslash escapes the next byte and a `/` inside `[...]` does not
/// close it. A line break or the end of the input stops it unclosed.
pub open spec fn regex_end(b: Seq<u8>, i: int, class: bool) -> int
    decreases b.len() + 2 - i,
{
    if i < 0 || i >= b.len() || b[i] == 10 {
        i
    } else if b[i] == 92 {
        regex_end(b, i + 2, class)
    } else if class {
        regex_end(b, i + 1, b[i] != 93)
    } else if b[i] == 91 {
        regex_end(b, i + 1, true)
    } else if b[i] == 47 {
        i + 1
    } else {
        regex_end(b, i + 1, false)
    }
}

/// The index of the `}` that closes an interpolation, scanning from `i` at
/// brace depth `depth` and skipping string and template literals, regular
/// expressions and comments; `None` when there is none. `re` says whether a
/// `/` at `i` would start a regular expression (nothing ending an operand
/// comes before it).
pub open spec fn close_from(b: Seq<u8>, i: int, depth: nat, re: bool) -> Option<int>
    decreases b.len() + 2 - i,
{
    if i < 0 || i >= b.len() {
        None
    } else if b[i] == 125 {
        if depth == 0 {
            Some(i)
        } else {
            close_from(b, i + 1, (depth - 1) as nat, false)
        }
    } else if b[i] == 123 {
        close_from(b, i + 1, depth + 1, true)
    } else if is_quote(b[i]) {
        let j = skip_str(b, i + 1, b[i]);
        if i < j <= b.len() + 1 {
            close_from(b, j, depth, false)
        } else {
            None
        }
    } else if b[i] == 47 && i + 1 < b.len() && b[i + 1] == 47 {
        let j = line_end(b, i + 2);
        if i < j <= b.len() + 1 {
            close_from(b, j, depth, re)
        } else {
            None
        }
    } else if b[i] == 47 && i + 1 < b.len() && b[i + 1] == 42 {
        let j = block_end(b, i + 2);
        if i < j <= b.len() + 1 {
            close_from(b, j, depth, re)
        } else {
            None
        }
    } else if b[i] == 47 && re {
        let j = regex_end(b, i + 1, false);
        if i < j <= b.len() + 1 {
            close_from(b, j, depth, false)
        } else {
            None
        }
    } else if is_ws_byte(b[i]) {
        close_from(b, i + 1, depth, re)
    } else {
        close_from(b, i + 1, depth, !ends_operand(b[i]))
    }
}

/// Where a string literal opened just before `i0` ends (see [`skip_str`]).
fn skip_string(bytes: &[u8], i0: usize, quote: u8) -> (r: usize)
    requires
        bytes@.len() < usize::MAX,
        i0 <= bytes@.len() + 1,
    ensures
        r == skip_str(bytes@, i0 as int, quote),
        i0 <= r <= bytes@.len() + 1,
    decreases bytes@.len() + 2 - i0,
{
    let mut i = i0;
    while i < bytes.len()
        invariant
            i0 <= i <= bytes@.len() + 1,
            bytes@.len() < usize::MAX,
            skip_str(bytes@, i as int, quote) == skip_str(bytes@, i0 as int, quote),
        decreases bytes@.len() + 2 - i,
    {
        let c = bytes[i];
        if c == 92 {
            i += 2;
            continue;
        }
        if c == quote {
            return i + 1;
        }
        if quote == 96 && c == 36 && i + 1 < bytes.len() && bytes[i + 1] == 123 {
            i = skip_template_subst(bytes, i + 2);
            continue;
        }
        i += 1;
    }
    i
}

/// Where a template substitution whose body starts at `from` ends (see
/// [`skip_subst`]).
fn skip_template_subst(bytes: &[u8], from: usize) -> (r: usize)
    requires
        bytes@.len() < usize::MAX,
        from <= bytes@.len() + 1,
    ensures
        r == skip_subst(bytes@, from as int, 0),
        from <= r <= bytes@.len() + 1,
    decreases bytes@.len() + 2 - from,
{
    let mut depth: usize = 0;
    let mut i = from;
    while i < bytes.len()
        invariant
            from <= i <= bytes@.len() + 1,
            bytes@.len() < usize::MAX,
            depth <= i - from,
            skip_subst(bytes@, i as int, depth as nat) == skip_subst(bytes@, from as int, 0),
        decreases bytes@.len() + 2 - i,
    {
        let c = bytes[i];
        if c == 125 {
            if depth == 0 {
                return i + 1;
            }
            depth -= 1;
        } else if c == 123 {
            depth += 1;
        } else if c == 34 || c == 39 || c == 96 {
            i = skip_string(bytes, i + 1, c);
            continue;
        }
        i += 1;
    }
    i
}

fn skip_line(bytes: &[u8], i0: usize) -> (r: usize)
    requires
        i0 <= bytes@.len(),
    ensures
        r == line_end(bytes@, i0 as int),
        i0 <= r <= bytes@.len(),
{
    let mut i = i0;
    while i < bytes.len() && bytes[i] != 10
        invariant
            i0 <= i <= bytes@.len(),
            line_end(bytes@, i as int) == line_end(bytes@, i0 as int),
        decreases bytes@.len() - i,
    {
        i += 1;
    }
    i
}

fn skip_block(bytes: &[u8], i0: usize) -> (r: usize)
    requires
        i0 <= bytes@.len(),
    ensures
        r == block_end(bytes@, i0 as int),
        i0 <= r <= bytes@.len(),
{
    let mut i = i0;
    while i < bytes.len()
        invariant
            i0 <= i <= bytes@.len(),
            block_end(bytes@, i as int) == block_end(bytes@, i0 as int),
        decreases bytes@.len() - i,
    {
        if bytes[i] == 42 && i + 1 < bytes.len() && bytes[i + 1] == 47 {
            return i + 2;
        }
        i += 1;
    }
    i
}

fn skip_regex(bytes: &[u8], i0: usize) -> (r: usize)
    requires
        bytes@.len() < usize::MAX,
        i0 <= bytes@.len(),
    ensures
        r == regex_end(bytes@, i0 as int, false),
        i0 <= r <= bytes@.len() + 1,
{
    let mut i = i0;
    let mut class = false;
    while i < bytes.len() && bytes[i] != 10
        invariant
            i0 <= i <= bytes@.len() + 1,
            bytes@.len() < usize::MAX,
            regex_end(bytes@, i as int, class) == regex_end(bytes@, i0 as int, false),
        decreases bytes@.len() + 2 - i,
    {
        let c = bytes[i];
        if c == 92 {
            i += 2;
        } else if class {
            class = c != 93;
            i += 1;
        } else if c == 91 {
            class = true;
            i += 1;
        } else if c == 47 {
            return i + 1;
        } else {
            i += 1;
        }
    }
    i
}

/// The index of the `}` that closes an interpolation opened just before
/// `from` (see [`close_from`]).
fn find_close(bytes: &[u8], from: usize) -> (r: Option<usize>)
    requires
        bytes@.len() < usize::MAX,
        from <= bytes@.len(),
    ensures
        r matches Some(c) ==> close_from(bytes@, from as int, 0, true) == Some(c as int),
        r is None ==> close_from(bytes@, from as int, 0, true) is None,
{
    let mut depth: usize = 0;
    let mut re = true;
    let mut i = from;
    while i < bytes.len()
        invariant
            from <= i <= bytes@.len() + 1,
            bytes@.len() < usize::MAX,
            depth <= i - from,
            close_from(bytes@, i as int, depth as nat, re) == close_from(bytes@, from as int, 0, true),
        decreases bytes@.len() + 2 - i,
    {
        let c = bytes[i];
        if c == 125 {
            if depth == 0 {
                return Some(i);
            }
            depth -= 1;
            re = false;
            i += 1;
        } else if c == 123 {
            depth += 1;
            re = true;
            i += 1;
        } else if c == 34 || c == 39 || c == 96 {
            i = skip_string(bytes, i + 1, c);
            re = false;
        } else if c == 47 && i + 1 < bytes.len() && bytes[i + 1] == 47 {
            i = skip_line(bytes, i + 2);
        } else if c == 47 && i + 1 < bytes.len() && bytes[i + 1] == 42 {
            i = skip_block(bytes, i + 2);
        } else if c == 47 && re {
            i = skip_regex(bytes, i + 1);
            re = false;
        } else if c == 32 || c == 9 || c == 10 || c == 13 {
            i += 1;
        } else {
            re = !((48 <= c && c <= 57) || (65 <= c && c <= 90) || (97 <= c && c <= 122) || c == 95
                || c == 36 || c >= 128 || c == 41 || c == 93 || c == 125);
            i += 1;
        }
    }
    None
}

/// The range `[base + start, base + end)`.
pub open spec fn abs(base: u32, start: int, end: int) -> TextRange {
    TextRange { start: TextSize { raw: (base + start) as u32 }, end: TextSize { raw: (base + end) as u32 } }
}

pub open spec fn lit_seg(b: Seq<u8>, base: u32, start: int, end: int) -> SSegment {
    SSegment::Literal(text_of(b, start, end), abs(base, start, end))
}

/// The literal text from `lit` to the end, if any.
pub open spec fn tail_seg(b: Seq<u8>, base: u32, lit: int) -> Seq<SSegment> {
    if lit < b.len() {
        seq![lit_seg(b, base, lit, b.len() as int)]
    } else {
        Seq::empty()
    }
}

/// The segments and diagnostics of `b` from `i` on, where the literal text
/// pending since `lit` has not been emitted yet. An interpolation ends the
/// pending literal; an unterminated `${` is reported and the text from `lit`
/// to the end is kept as a literal.
pub open spec fn scan(b: Seq<u8>, base: u32, i: int, lit: int) -> (Seq<SSegment>, Seq<SDiag>)
    decreases b.len() - i,
{
    if i < 0 || i >= b.len() {
        (tail_seg(b, base, lit), Seq::empty())
    } else if b[i] == 36 && i + 1 < b.len() && b[i + 1] == 123 {
        let pre = if i > lit {
            seq![lit_seg(b, base, lit, i)]
        } else {
            Seq::empty()
        };
        match close_from(b, i + 2, 0, true) {
            Some(c) => if i < c < b.len() {
                let expr = text_of(b, i + 2, c);
                let seg = SSegment::Interpolation(expr, abs(base, i, c + 1), abs(base, i + 2, c));
                let warn = if all_white(expr) {
                    seq![
                        SDiag {
                            range: abs(base, i, c + 1),
                            severity: Severity::Warning,
                            message: "empty interpolation `${}`"@,
                        },
                    ]
                } else {
                    Seq::empty()
                };
                let rest = scan(b, base, c + 1, c + 1);
                (pre + seq![seg] + rest.0, warn + rest.1)
            } else {
                (pre, Seq::empty())
            },
            None => (
                pre + tail_seg(b, base, i),
                seq![
                    SDiag {
                        range: abs(base, i, b.len() as int),
                        severity: Severity::Error,
                        message: "unterminated interpolation: missing `}` for `${`"@,
                    },
                ],
            ),
        }
    } else {
        scan(b, base, i + 1, lit)
    }
}

/// The characters of `text[start..end]`, or an empty string when that is not
/// a well-formed slice.
pub(crate) fn piece(text: &str, start: usize, end: usize) -> (r: String)
    ensures
        r@ == text_of(text.spec_bytes(), start as int, end as int),
{
    match slice_str(text, start, end) {
        Some(t) => {
            proof {
                vstd::utf8::encode_utf8_decode_utf8(t@);
            }
            String::from_str(t)
        },
        None => String::new(),
    }
}

fn range_at(base: TextSize, start: usize, end: usize) -> (r: TextRange)
    requires
        start <= end,
        base.raw + end <= u32::MAX,
    ensures
        r == abs(base.raw, start as int, end as int),
{
    TextRange { start: TextSize { raw: base.raw + start as u32 }, end: TextSize { raw: base.raw + end as u32 } }
}

/// Splits `text`, whose first byte is at file offset `base`, into literal
/// and interpolation segments, appending any problems to `diagnostics`.
pub fn scan_segments(text: &str, base: TextSize, diagnostics: &mut Vec<Diagnostic>) -> (r: Vec<
    TextSegment,
>)
    requires
        base.raw + text.spec_bytes().len() <= u32::MAX,
        text.spec_bytes().len() < usize::MAX,
    ensures
        segs_view(r@) == scan(text.spec_bytes(), base.raw, 0, 0).0,
        diags_abs(final(diagnostics)@) == diags_abs(old(diagnostics)@) + scan(
            text.spec_bytes(),
            base.raw,
            0,
            0,
        ).1,
{
    let bytes = text.as_bytes();
    let ghost b = bytes@;
    let ghost whole = scan(b, base.raw, 0, 0);
    let mut segments: Vec<TextSegment> = Vec::new();
    let mut literal_start: usize = 0;
    let mut i: usize = 0;
    while i < bytes.len()
        invariant
            b == bytes@,
            b == text.spec_bytes(),
            whole == scan(b, base.raw, 0, 0),
            base.raw + b.len() <= u32::MAX,
            b.len() < usize::MAX,
            literal_start <= i <= b.len(),
            segs_view(segments@) + scan(b, base.raw, i as int, literal_start as int).0 == whole.0,
            diags_abs(diagnostics@) + scan(b, base.raw, i as int, literal_start as int).1
                == diags_abs(old(diagnostics)@) + whole.1,
        decreases b.len() - i,
    {
        if bytes[i] == 36 && i + 1 < bytes.len() && bytes[i + 1] == 123 {
            let ghost segs0 = segs_view(segments@);
            let ghost diags0 = diags_abs(diagnostics@);
            let ghost rest = scan(b, base.raw, i as int, literal_start as int);
            if i > literal_start {
                let seg = TextSegment::Literal {
                    text: piece(text, literal_start, i),
                    range: range_at(base, literal_start, i),
                };
                segments.push(seg);
            }
            let ghost pre = if i > literal_start {
                seq![lit_seg(b, base.raw, literal_start as int, i as int)]
            } else {
                Seq::empty()
            };
            assert(segs_view(segments@) =~= segs0 + pre);
            let open = i;
            let expr_start = i + 2;
            match find_close(bytes, expr_start) {
                Some(close) => {
                    proof {
                        lemma_close_bounds(b, expr_start as int, 0, true);
                    }
                    let expr = piece(text, expr_start, close);
                    let range = range_at(base, open, close + 1);
                    let expr_range = range_at(base, expr_start, close);
                    if is_blank(expr.as_str()) {
                        let d = Diagnostic::warning(range, "empty interpolation `${}`");
                        diagnostics.push(d);
                        assert(diags_abs(diagnostics@) =~= diags0.push(diag_abs(d)));
                    } else {
                        assert(diags_abs(diagnostics@) =~= diags0);
                    }
                    let seg = TextSegment::Interpolation(Interpolation { expr, range, expr_range });
                    let ghost segs1 = segs_view(segments@);
                    segments.push(seg);
                    assert(segs_view(segments@) =~= segs1.push(seg@));
                    i = close + 1;
                    literal_start = i;
                    proof {
                        let r2 = scan(b, base.raw, i as int, i as int);
                        assert(segs_view(segments@) + r2.0 =~= segs0 + rest.0);
                        assert(diags_abs(diagnostics@) + r2.1 =~= diags0 + rest.1);
                    }
                },
                None => {
                    let d = Diagnostic::error(
                        range_at(base, open, bytes.len()),
                        "unterminated interpolation: missing `}` for `${`",
                    );
                    diagnostics.push(d);
                    assert(diags_abs(diagnostics@) =~= diags0.push(diag_abs(d)));
                    let seg = TextSegment::Literal {
                        text: piece(text, open, bytes.len()),
                        range: range_at(base, open, bytes.len()),
                    };
                    let ghost segs1 = segs_view(segments@);
                    segments.push(seg);
                    assert(segs_view(segments@) =~= segs1.push(seg@));
                    assert(segs_view(segments@) =~= segs0 + rest.0);
                    assert(diags_abs(diagnostics@) =~= diags0 + rest.1);
                    return segments;
                },
            }
        } else {
            i += 1;
        }
    }
    if literal_start < bytes.len() {
        let seg = TextSegment::Literal {
            text: piece(text, literal_start, bytes.len()),
            range: range_at(base, literal_start, bytes.len()),
        };
        let ghost segs1 = segs_view(segments@);
        segments.push(seg);
        assert(segs_view(segments@) =~= segs1.push(seg@));
    }
    assert(segs_view(segments@) =~= whole.0);
    assert(diags_abs(diagnostics@) =~= diags_abs(old(diagnostics)@) + whole.1);
    segments
}

/// A closing `}` lies after the start of the scan and within the input.
proof fn lemma_close_bounds(b: Seq<u8>, i: int, depth: nat, re: bool)
    ensures
        close_from(b, i, depth, re) matches Some(c) ==> i <= c < b.len() && b[c] == 125,
    decreases b.len() + 2 - i,
{
    if 0 <= i < b.len() {
        if b[i] == 125 {
            if depth > 0 {
                lemma_close_bounds(b, i + 1, (depth - 1) as nat, false);
            }
        } else if b[i] == 123 {
            lemma_close_bounds(b, i + 1, depth + 1, true);
        } else if is_quote(b[i]) {
            let j = skip_str(b, i + 1, b[i]);
            if i < j <= b.len() + 1 {
                lemma_close_bounds(b, j, depth, false);
            }
        } else if b[i] == 47 && i + 1 < b.len() && b[i + 1] == 47 {
            let j = line_end(b, i + 2);
            if i < j <= b.len() + 1 {
                lemma_close_bounds(b, j, depth, re);
            }
        } else if b[i] == 47 && i + 1 < b.len() && b[i + 1] == 42 {
            let j = block_end(b, i + 2);
            if i < j <= b.len() + 1 {
                lemma_close_bounds(b, j, depth, re);
            }
        } else if b[i] == 47 && re {
            let j = regex_end(b, i + 1, false);
            if i < j <= b.len() + 1 {
                lemma_close_bounds(b, j, depth, false);
            }
        } else if is_ws_byte(b[i]) {
            lemma_close_bounds(b, i + 1, depth, re);
        } else {
            lemma_close_bounds(b, i + 1, depth, !ends_operand(b[i]));
        }
    }
}

/// The source range a segment covers.
pub open spec fn seg_range(s: SSegment) -> TextRange {
    match s {
        SSegment::Literal(_, r) => r,
        SSegment::Interpolation(_, r, _) => r,
    }
}

/// The segments' ranges follow one another without gap or overlap, from
/// `lo` to `hi`.
pub open spec fn tiles(segs: Seq<SSegment>, lo: int, hi: int) -> bool
    decreases segs.len(),
{
    if segs.len() == 0 {
        lo == hi
    } else {
        &&& seg_range(segs[0]).lo() == lo
        &&& lo < seg_range(segs[0]).hi()
        &&& tiles(segs.drop_first(), seg_range(segs[0]).hi(), hi)
    }
}

proof fn lemma_tiles_concat(a: Seq<SSegment>, c: Seq<SSegment>, x: int, y: int, z: int)
    requires
        tiles(a, x, y),
        tiles(c, y, z),
    ensures
        tiles(a + c, x, z),
    decreases a.len(),
{
    if a.len() > 0 {
        assert((a + c).drop_first() =~= a.drop_first() + c);
        assert((a + c)[0] == a[0]);
        lemma_tiles_concat(a.drop_first(), c, seg_range(a[0]).hi(), y, z);
    } else {
        assert(a + c =~= c);
    }
}

proof fn lemma_one_tile(s: SSegment, x: int, y: int)
    requires
        seg_range(s).lo() == x,
        x < y,
        seg_range(s).hi() == y,
    ensures
        tiles(seq![s], x, y),
{
    assert(seq![s].drop_first() =~= Seq::<SSegment>::empty());
    assert(tiles(seq![s].drop_first(), y, y));
    assert(seq![s][0] == s);
}

proof fn lemma_scan_tiles(b: Seq<u8>, base: u32, i: int, lit: int)
    requires
        0 <= lit <= i <= b.len(),
        base + b.len() <= u32::MAX,
    ensures
        tiles(scan(b, base, i, lit).0, base + lit, base + b.len()),
    decreases b.len() - i,
{
    if i >= b.len() {
        if lit < b.len() {
            lemma_one_tile(lit_seg(b, base, lit, b.len() as int), base + lit, base + b.len());
        }
    } else if b[i] == 36 && i + 1 < b.len() && b[i + 1] == 123 {
        let pre = if i > lit {
            seq![lit_seg(b, base, lit, i)]
        } else {
            Seq::empty()
        };
        lemma_close_bounds(b, i + 2, 0, true);
        match close_from(b, i + 2, 0, true) {
            Some(c) => {
                let expr = text_of(b, i + 2, c);
                let seg = SSegment::Interpolation(expr, abs(base, i, c + 1), abs(base, i + 2, c));
                let warn = if all_white(expr) {
                    seq![
                        SDiag {
                            range: abs(base, i, c + 1),
                            severity: Severity::Warning,
                            message: "empty interpolation `${}`"@,
                        },
                    ]
                } else {
                    Seq::empty()
                };
                let rest = scan(b, base, c + 1, c + 1);
                lemma_scan_tiles(b, base, c + 1, c + 1);
                if i > lit {
                    lemma_one_tile(lit_seg(b, base, lit, i), base + lit, base + i);
                }
                lemma_one_tile(seg, base + i, base + c + 1);
                lemma_tiles_concat(pre, seq![seg], base + lit, base + i, base + c + 1);
                lemma_tiles_concat(pre + seq![seg], rest.0, base + lit, base + c + 1, base + b.len());
            },
            None => {
                if i > lit {
                    lemma_one_tile(lit_seg(b, base, lit, i), base + lit, base + i);
                }
                lemma_one_tile(lit_seg(b, base, i, b.len() as int), base + i, base + b.len());
                lemma_tiles_concat(pre, tail_seg(b, base, i), base + lit, base + i, base + b.len());
            },
        }
    } else {
        lemma_scan_tiles(b, base, i + 1, lit);
    }
}

/// The segments cover a text run exactly, an unterminated `${` included
/// (its text is kept as a literal): their ranges follow one another in
/// order, each non-empty, from `base` to `base` plus the run's length.
pub proof fn law_segments_tile(b: Seq<u8>, base: u32)
    requires
        base + b.len() <= u32::MAX,
    ensures
        tiles(scan(b, base, 0, 0).0, base as int, base + b.len()),
{
    lemma_scan_tiles(b, base, 0, 0);
}


/// A segment says what the text holds: a literal's text is its slice of the
/// run, and an interpolation's range is `${`, its expression (whose text is
/// the slice of the expression's range), and `}`.
pub open spec fn faithful(b: Seq<u8>, base: u32, s: SSegment) -> bool {
    match s {
        SSegment::Literal(t, r) => t == text_of(b, r.lo() - base, r.hi() - base),
        SSegment::Interpolation(x, r, xr) => {
            &&& x == text_of(b, xr.lo() - base, xr.hi() - base)
            &&& xr.lo() == r.lo() + 2
            &&& xr.hi() == r.hi() - 1
            &&& b[r.lo() - base] == 36
            &&& b[r.lo() - base + 1] == 123
            &&& b[r.hi() - base - 1] == 125
        },
    }
}

pub open spec fn all_faithful(b: Seq<u8>, base: u32, segs: Seq<SSegment>) -> bool {
    forall|k: int| 0 <= k < segs.len() ==> faithful(b, base, #[trigger] segs[k])
}

proof fn lemma_faithful_concat(b: Seq<u8>, base: u32, x: Seq<SSegment>, y: Seq<SSegment>)
    requires
        all_faithful(b, base, x),
        all_faithful(b, base, y),
    ensures
        all_faithful(b, base, x + y),
{
    assert forall|k: int| 0 <= k < (x + y).len() implies faithful(b, base, #[trigger] (x + y)[k]) by {
        if k < x.len() {
            assert((x + y)[k] == x[k]);
        } else {
            assert((x + y)[k] == y[k - x.len()]);
        }
    }
}

proof fn lemma_scan_faithful(b: Seq<u8>, base: u32, i: int, lit: int)
    requires
        0 <= lit <= i <= b.len(),
        base + b.len() <= u32::MAX,
    ensures
        all_faithful(b, base, scan(b, base, i, lit).0),
    decreases b.len() - i,
{
    if i >= b.len() {
        if lit < b.len() {
            assert(faithful(b, base, lit_seg(b, base, lit, b.len() as int)));
        }
    } else if b[i] == 36 && i + 1 < b.len() && b[i + 1] == 123 {
        let pre = if i > lit {
            seq![lit_seg(b, base, lit, i)]
        } else {
            Seq::empty()
        };
        if i > lit {
            assert(faithful(b, base, lit_seg(b, base, lit, i)));
        }
        assert(all_faithful(b, base, pre));
        lemma_close_bounds(b, i + 2, 0, true);
        match close_from(b, i + 2, 0, true) {
            Some(c) => {
                let expr = text_of(b, i + 2, c);
                let seg = SSegment::Interpolation(expr, abs(base, i, c + 1), abs(base, i + 2, c));
                assert(faithful(b, base, seg));
                assert(all_faithful(b, base, seq![seg]));
                lemma_scan_faithful(b, base, c + 1, c + 1);
                lemma_faithful_concat(b, base, pre, seq![seg]);
                lemma_faithful_concat(b, base, pre + seq![seg], scan(b, base, c + 1, c + 1).0);
            },
            None => {
                assert(faithful(b, base, lit_seg(b, base, i, b.len() as int)));
                assert(all_faithful(b, base, tail_seg(b, base, i)));
                lemma_faithful_concat(b, base, pre, tail_seg(b, base, i));
            },
        }
    } else {
        lemma_scan_faithful(b, base, i + 1, lit);
    }
}

/// Each segment of a scanned run says what the text holds (see
/// [`faithful`]): a literal is its slice of the run, and an interpolation
/// spans `${`, its expression and `}`.
pub proof fn law_segments_faithful(b: Seq<u8>, base: u32)
    requires
        base + b.len() <= u32::MAX,
    ensures
        all_faithful(b, base, scan(b, base, 0, 0).0),
{
    lemma_scan_faithful(b, base, 0, 0);
}

} // verus!
