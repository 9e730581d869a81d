//! Lowering the items the block splitter finds in a `.lunas` file: the
//! first `html:`, `style:` and `script:` blocks are taken (a repeated one is
//! reported), the `html:` body goes to the HTML parser and its tree is moved
//! to address the file, and every directive is lowered in order. Positions in the file map to and from positions in
//! the script text by line.

use vstd::prelude::*;
use vstd::string::{StringExecFns, StringSliceAdditionalSpecFns};
use vstd::utf8::encode_utf8;

use crate::diagnostic::{diag_abs, diags_abs, Diagnostic, SDiag, Severity};
use crate::html::dom::{nodes_abs, snode_ranges_ok, Dom};
use crate::html::lexer::{spec_tokens, Token};
use crate::html::rebase::{
    fits_after, lemma_shift_nodes_index, lemma_shift_nodes_len, lemma_shift_ranges_ok,
    rebased_nodes, shift_nodes,
};
use crate::html::sound::{boundary_at, lemma_snode_ranges_weaken};
use crate::html::parser::{parse_html, s_final, s_kind};
use crate::line_index::{count_below, newline_offsets, LineCol, LineIndex};
use crate::script::json::str_eq;
use crate::sfc::ir::{directives_view, BlockSource, Directive, HtmlBlock, SDirective, StyleBlock};
use crate::sfc::lower::{extract_block_source, lower_directive, lowered, stripped_text, RawDirective};
use crate::span::{on_boundary, TextRange, TextSize};
use crate::text::{concat3, range_text};

verus! {

/// A language block as the block splitter finds it: its keyword and the
/// range of its body.
#[derive(Debug, Clone, PartialEq)]
pub struct RawLanguageBlock {
    pub name: String,
    pub body_range: TextRange,
}

/// An item of a `.lunas` file: a language block or a directive.
#[derive(Debug, Clone, PartialEq)]
pub enum RawItem {
    LanguageBlock(RawLanguageBlock),
    Directive(RawDirective),
}

/// A `.lunas` file after lowering: its blocks and directives.
#[derive(Debug)]
pub struct ParsedFile {
    pub html: Option<HtmlBlock>,
    pub style: Option<StyleBlock>,
    /// The `script:` block's body.
    pub script: Option<BlockSource>,
    pub directives: Vec<Directive>,
    /// Line index over the file's source, for position mapping.
    pub line_index: LineIndex,
}

pub open spec fn script_range(script: Option<BlockSource>) -> Option<TextRange> {
    match script {
        Some(s) => Some(s.range),
        None => None,
    }
}

/// The line of the file that offset `off` is on.
pub open spec fn line_at(nl: Seq<u32>, off: int) -> u32 {
    count_below(nl, off) as u32
}

/// A file position as a position in the script text: `None` when there is
/// no script block or the line lies outside it.
pub open spec fn to_script(nl: Seq<u32>, script: Option<TextRange>, pos: LineCol) -> Option<LineCol> {
    match script {
        None => None,
        Some(r) => {
            let start = line_at(nl, r.lo());
            let end = line_at(nl, r.hi());
            if pos.line < start || pos.line > end {
                None
            } else {
                Some(LineCol { line: (pos.line - start) as u32, col: pos.col })
            }
        },
    }
}

/// A position in the script text as a file position.
pub open spec fn to_file(nl: Seq<u32>, script: Option<TextRange>, pos: LineCol) -> Option<LineCol> {
    match script {
        None => None,
        Some(r) => Some(LineCol { line: (pos.line + line_at(nl, r.lo())) as u32, col: pos.col }),
    }
}

impl ParsedFile {
    /// Maps a position in the file to the same position in the script text;
    /// `None` outside the script block's lines or without a script block.
    /// Only line arithmetic: the column is kept.
    pub fn lunas_to_script(&self, pos: LineCol) -> (r: Option<LineCol>)
        ensures
            r == to_script(self.line_index@, script_range(self.script), pos),
    {
        let script = match &self.script {
            Some(s) => s,
            None => return None,
        };
        let start = self.line_index.line_col(script.range.start());
        let end = self.line_index.line_col(script.range.end());
        if pos.line < start.line || pos.line > end.line {
            return None;
        }
        Some(LineCol::new(pos.line - start.line, pos.col))
    }

    /// Maps a position in the script text back to the file.
    pub fn script_to_lunas(&self, pos: LineCol) -> (r: Option<LineCol>)
        requires
            self.script matches Some(s) ==> pos.line + line_at(self.line_index@, s.range.lo())
                <= u32::MAX,
        ensures
            r == to_file(self.line_index@, script_range(self.script), pos),
    {
        let script = match &self.script {
            Some(s) => s,
            None => return None,
        };
        let start = self.line_index.line_col(script.range.start());
        Some(LineCol::new(pos.line + start.line, pos.col))
    }
}

/// Mapping between file and script positions goes both ways: a file
/// position that maps into the script maps back to itself, and a script
/// position on one of the block's lines maps into the file and back.
pub proof fn law_script_positions_round_trip(nl: Seq<u32>, r: TextRange, pos: LineCol)
    ensures
        to_script(nl, Some(r), pos) matches Some(q) ==> to_file(nl, Some(r), q) == Some(pos),
        pos.line + line_at(nl, r.lo()) <= line_at(nl, r.hi()) ==> (to_file(nl, Some(r), pos) matches Some(
            p,
        ) && to_script(nl, Some(r), p) == Some(pos)),
{
}

/// The body range of the first block named `name`.
pub open spec fn first_block(items: Seq<RawItem>, name: Seq<char>) -> Option<TextRange>
    decreases items.len(),
{
    if items.len() == 0 {
        None
    } else {
        match first_block(items.drop_last(), name) {
            Some(r) => Some(r),
            None => match items.last() {
                RawItem::LanguageBlock(b) => if b.name@ == name {
                    Some(b.body_range)
                } else {
                    None
                },
                _ => None,
            },
        }
    }
}

pub open spec fn is_slot_name(n: Seq<char>) -> bool {
    n == "html"@ || n == "style"@ || n == "script"@
}

/// An error for each `html:`, `style:` or `script:` block that repeats an
/// earlier one, in order.
pub open spec fn duplicate_diags(items: Seq<RawItem>) -> Seq<SDiag>
    decreases items.len(),
{
    if items.len() == 0 {
        Seq::empty()
    } else {
        let rest = duplicate_diags(items.drop_last());
        match items.last() {
            RawItem::LanguageBlock(b) => if is_slot_name(b.name@) && first_block(
                items.drop_last(),
                b.name@,
            ) is Some {
                rest.push(
                    SDiag {
                        range: b.body_range,
                        severity: Severity::Error,
                        message: "duplicate `"@ + b.name@ + ":` block"@,
                    },
                )
            } else {
                rest
            },
            _ => rest,
        }
    }
}

/// The warning for a file without an `html:` block.
pub open spec fn missing_html(items: Seq<RawItem>) -> Seq<SDiag> {
    if first_block(items, "html"@) is None {
        seq![
            SDiag {
                range: TextRange { start: TextSize { raw: 0 }, end: TextSize { raw: 0 } },
                severity: Severity::Warning,
                message: "missing `html:` block"@,
            },
        ]
    } else {
        Seq::empty()
    }
}

/// The bytes of the block at `r`, as written.
pub open spec fn raw_bytes(source: Seq<u8>, r: TextRange) -> Seq<u8> {
    encode_utf8(range_text(source, r))
}

/// What the HTML parser reports for the `html:` block.
pub open spec fn html_diags(source: Seq<u8>, items: Seq<RawItem>) -> Seq<SDiag> {
    match first_block(items, "html"@) {
        Some(r) => s_final(raw_bytes(source, r)).diags,
        None => Seq::empty(),
    }
}

/// The directives among the items, in order.
pub open spec fn raw_directives(items: Seq<RawItem>) -> Seq<RawDirective>
    decreases items.len(),
{
    if items.len() == 0 {
        Seq::empty()
    } else {
        let rest = raw_directives(items.drop_last());
        match items.last() {
            RawItem::Directive(d) => rest.push(d),
            _ => rest,
        }
    }
}

/// Lowering each directive in turn: the directives kept and the
/// diagnostics reported.
pub open spec fn lowered_all(source: Seq<u8>, ds: Seq<RawDirective>) -> (Seq<SDirective>, Seq<SDiag>)
    decreases ds.len(),
{
    if ds.len() == 0 {
        (Seq::empty(), Seq::empty())
    } else {
        let (kept, diags) = lowered_all(source, ds.drop_last());
        let (o, e) = lowered(source, ds.last().keyword@, ds.last().body_range);
        (
            match o {
                Some(d) => kept.push(d),
                None => kept,
            },
            diags + e,
        )
    }
}

/// The range `r` is a well-formed slice of `source`.
pub open spec fn slices(source: Seq<u8>, r: TextRange) -> bool {
    r.lo() <= r.hi() <= source.len() && on_boundary(source, r.lo()) && on_boundary(source, r.hi())
}

/// A character boundary of a slice of valid UTF-8, moved by where the slice
/// starts, is a character boundary of the whole.
pub proof fn lemma_slice_boundary(b: Seq<u8>, lo: int, hi: int, a: int)
    requires
        vstd::utf8::valid_utf8(b),
        0 <= lo <= hi <= b.len(),
        on_boundary(b, lo),
        on_boundary(b, hi),
        boundary_at(b.subrange(lo, hi))(a),
    ensures
        boundary_at(b)(a + lo),
{
    let sub = b.subrange(lo, hi);
    if a == 0 || a == sub.len() {
        return;
    }
    vstd::utf8::valid_utf8_split(b, lo);
    let s1 = b.subrange(lo, b.len() as int);
    if hi < b.len() {
        vstd::utf8::is_char_boundary_iff_not_is_continuation_byte(b, hi);
        vstd::utf8::is_char_boundary_iff_not_is_continuation_byte(s1, hi - lo);
        assert(s1[hi - lo] == b[hi]);
        vstd::utf8::valid_utf8_split(s1, hi - lo);
        assert(s1.subrange(0, hi - lo) =~= sub);
    } else {
        assert(s1 =~= sub);
    }
    vstd::utf8::is_char_boundary_iff_not_is_continuation_byte(sub, a);
    vstd::utf8::is_char_boundary_iff_not_is_continuation_byte(b, a + lo);
    assert(sub[a] == b[a + lo]);
}

/// Offsets within the range `r`.
pub open spec fn within_range(r: TextRange) -> spec_fn(int) -> bool {
    |i: int| r.lo() <= i <= r.hi()
}

/// The block at `r`, extracted from `source`.
pub open spec fn block_is(b: BlockSource, source: Seq<u8>, r: TextRange) -> bool {
    b.range == r && b.text@ == stripped_text(range_text(source, r))
}

/// What lowering `items` of the source `src` gives: the file `r`, with
/// the diagnostics going from `d0` to `d1`.
pub open spec fn lowers_to(src: Seq<u8>, items: Seq<RawItem>, r: ParsedFile, d0: Seq<SDiag>, d1: Seq<SDiag>) -> bool {
    &&& r.line_index@ == newline_offsets(src)
    &&& match first_block(items, "html"@) {
            Some(rg) => r.html matches Some(h) && h.source.range == rg && h.source.text@ == range_text(
                src,
                rg,
            ) && h.dom.kind == s_kind(s_final(raw_bytes(src, rg))) && nodes_abs(
                h.dom.children@,
            ) == shift_nodes(s_final(raw_bytes(src, rg)).roots, rg.lo()) && forall|i: int|
                0 <= i < nodes_abs(h.dom.children@).len() ==> snode_ranges_ok(
                    #[trigger] nodes_abs(h.dom.children@)[i],
                    within_range(rg),
                ) && (slices(src, rg) ==> snode_ranges_ok(
                    nodes_abs(h.dom.children@)[i],
                    boundary_at(src),
                )),
            None => r.html is None,
        }
    &&& match first_block(items, "style"@) {
            Some(rg) => r.style matches Some(s) && block_is(s.source, src, rg),
            None => r.style is None,
        }
    &&& match first_block(items, "script"@) {
            Some(rg) => r.script matches Some(s) && block_is(s, src, rg),
            None => r.script is None,
        }
    &&& directives_view(r.directives@) == lowered_all(src, raw_directives(items)).0
    &&& d1 == d0 + duplicate_diags(items)
            + missing_html(items) + html_diags(src, items) + lowered_all(
            src,
            raw_directives(items),
        ).1
}

/// Lowers the items of a `.lunas` file. The first `html:`, `style:` and
/// `script:` blocks are taken and any later one is reported as an error;
/// a missing `html:` block is warned about. The `html:` body is kept as
/// written and parsed as HTML, its tree moved to address the file (every
/// range of the tree then lies within the block and, when the block is a
/// well-formed slice of the file, slices the file); the
/// `style:` and `script:` bodies lose their common indentation. Every
/// directive is lowered in order. The diagnostics are appended in that
/// order: repeated blocks, the missing `html:` block, the HTML parser's
/// (relative to the `html:` body), the directives'.
pub fn lower_items(source: &str, items: &Vec<RawItem>, diagnostics: &mut Vec<Diagnostic>) -> (r:
    ParsedFile)
    requires
        source.spec_bytes().len() <= u32::MAX,
    ensures
        lowers_to(source.spec_bytes(), items@, r, diags_abs(old(diagnostics)@), diags_abs(final(diagnostics)@)),
{
    let ghost d0 = diags_abs(diagnostics@);
    let mut html_at: Option<TextRange> = None;
    let mut style_at: Option<TextRange> = None;
    let mut script_at: Option<TextRange> = None;
    let mut k: usize = 0;
    assert(items@.take(0) =~= Seq::<RawItem>::empty());
    while k < items.len()
        invariant
            k <= items@.len(),
            html_at == first_block(items@.take(k as int), "html"@),
            style_at == first_block(items@.take(k as int), "style"@),
            script_at == first_block(items@.take(k as int), "script"@),
            diags_abs(diagnostics@) == d0 + duplicate_diags(items@.take(k as int)),
        decreases items@.len() - k,
    {
        let ghost pre = items@.take(k as int);
        proof {
            reveal_strlit("html");
            reveal_strlit("style");
            reveal_strlit("script");
            assert(items@.take(k + 1).drop_last() =~= pre);
            assert(items@.take(k + 1).last() == items@[k as int]);
        }
        match &items[k] {
            RawItem::LanguageBlock(block) => {
                let name = block.name.as_str();
                let is_html = str_eq(name, "html");
                let is_style = str_eq(name, "style");
                let is_script = str_eq(name, "script");
                let taken = if is_html {
                    html_at.is_some()
                } else if is_style {
                    style_at.is_some()
                } else if is_script {
                    script_at.is_some()
                } else {
                    false
                };
                if taken {
                    let ghost old_d = diagnostics@;
                    let d = Diagnostic::error(block.body_range, concat3("duplicate `", name, ":` block"));
                    diagnostics.push(d);
                    proof {
                        assert(diags_abs(diagnostics@) =~= diags_abs(old_d).push(diag_abs(d)));
                        assert(diag_abs(d) == SDiag {
                            range: block.body_range,
                            severity: Severity::Error,
                            message: "duplicate `"@ + block.name@ + ":` block"@,
                        });
                        assert(is_slot_name(block.name@));
                        assert(first_block(pre, block.name@) is Some);
                        assert(duplicate_diags(items@.take(k + 1)) == duplicate_diags(pre).push(diag_abs(d)));
                    }
                    assert(diags_abs(diagnostics@) =~= d0 + duplicate_diags(items@.take(k + 1)));
                } else {
                    if is_html {
                        html_at = Some(block.body_range);
                    } else if is_style {
                        style_at = Some(block.body_range);
                    } else if is_script {
                        script_at = Some(block.body_range);
                    }
                }
            },
            RawItem::Directive(_) => {},
        }
        k += 1;
    }
    assert(items@.take(items@.len() as int) =~= items@);
    if html_at.is_none() {
        let d = Diagnostic::warning(TextRange::empty(TextSize::new(0)), "missing `html:` block");
        diagnostics.push(d);
        assert(diags_abs(diagnostics@) =~= d0 + duplicate_diags(items@) + missing_html(items@));
    } else {
        assert(diags_abs(diagnostics@) =~= d0 + duplicate_diags(items@) + missing_html(items@));
    }
    let ghost d1 = diags_abs(diagnostics@);
    let html = match html_at {
        Some(rg) => {
            let sliced = rg.slice(source);
            let raw: &str = match sliced {
                Some(t) => t,
                None => "",
            };
            proof {
                reveal_strlit("");
                vstd::utf8::encode_utf8_decode_utf8(raw@);
                assert(raw@ == range_text(source.spec_bytes(), rg));
            }
            let mut result = parse_html(raw);
            let ghost before = diagnostics@;
            diagnostics.append(&mut result.diagnostics);
            assert(diags_abs(diagnostics@) =~= diags_abs(before) + html_diags(source.spec_bytes(), items@));
            proof {
                let roots = nodes_abs(result.dom.children@);
                let rb = raw.spec_bytes();
                assert forall|i: int| #[trigger] boundary_at(rb)(i) implies fits_after(rg.lo())(i) by {}
                assert forall|i: int| 0 <= i < roots.len() implies snode_ranges_ok(
                    #[trigger] roots[i],
                    fits_after(rg.lo()),
                ) by {
                    lemma_snode_ranges_weaken(roots[i], boundary_at(rb), fits_after(rg.lo()));
                }
            }
            let children = rebased_nodes(&result.dom.children, rg.start);
            proof {
                let roots = nodes_abs(result.dom.children@);
                let rb = raw.spec_bytes();
                if sliced is None {
                    assert(rb =~= Seq::<u8>::empty());
                    assert(spec_tokens(rb) =~= Seq::<Token>::empty());
                    assert(s_final(rb).roots.len() == 0);
                } else {
                    assert(rb.len() + rg.lo() == rg.hi());
                }
                assert forall|i: int| #[trigger] boundary_at(rb)(i) && roots.len() > 0 implies 0 <= i && 0
                    <= i + rg.lo() <= u32::MAX && within_range(rg)(i + rg.lo()) by {}
                lemma_shift_nodes_len(roots, rg.lo());
                assert forall|i: int| 0 <= i < nodes_abs(children@).len() implies snode_ranges_ok(
                    #[trigger] nodes_abs(children@)[i],
                    within_range(rg),
                ) && (slices(source.spec_bytes(), rg) ==> snode_ranges_ok(
                    nodes_abs(children@)[i],
                    boundary_at(source.spec_bytes()),
                )) by {
                    lemma_shift_nodes_index(roots, rg.lo(), i);
                    assert forall|k: int| #[trigger] boundary_at(rb)(k) implies 0 <= k && 0 <= k + rg.lo()
                        <= u32::MAX && within_range(rg)(k + rg.lo()) by {
                        assert(boundary_at(rb)(k) && roots.len() > 0);
                    }
                    lemma_shift_ranges_ok(roots[i], rg.lo(), boundary_at(rb), within_range(rg));
                    if slices(source.spec_bytes(), rg) {
                        let sb = source.spec_bytes();
                        vstd::utf8::encode_utf8_valid_utf8(source@);
                        assert(rb == sb.subrange(rg.lo(), rg.hi()));
                        assert forall|k: int| #[trigger] boundary_at(rb)(k) implies 0 <= k && 0 <= k
                            + rg.lo() <= u32::MAX && boundary_at(sb)(k + rg.lo()) by {
                            lemma_slice_boundary(sb, rg.lo(), rg.hi(), k);
                        }
                        lemma_shift_ranges_ok(roots[i], rg.lo(), boundary_at(rb), boundary_at(sb));
                    }
                }
            }
            let text = String::from_str(raw);
            Some(HtmlBlock {
                source: BlockSource { text, range: rg },
                dom: Dom { kind: result.dom.kind, children },
            })
        },
        None => {
            assert(diags_abs(diagnostics@) =~= d1 + html_diags(source.spec_bytes(), items@));
            None
        },
    };
    let style = match style_at {
        Some(rg) => Some(StyleBlock { source: extract_block_source(source, rg) }),
        None => None,
    };
    let script = match script_at {
        Some(rg) => Some(extract_block_source(source, rg)),
        None => None,
    };
    let ghost d2 = diags_abs(diagnostics@);
    let ghost raws = raw_directives(items@);
    let mut directives: Vec<Directive> = Vec::new();
    let mut j: usize = 0;
    assert(items@.take(0) =~= Seq::<RawItem>::empty());
    while j < items.len()
        invariant
            j <= items@.len(),
            raws == raw_directives(items@),
            directives_view(directives@) == lowered_all(
                source.spec_bytes(),
                raw_directives(items@.take(j as int)),
            ).0,
            diags_abs(diagnostics@) == d2 + lowered_all(
                source.spec_bytes(),
                raw_directives(items@.take(j as int)),
            ).1,
        decreases items@.len() - j,
    {
        let ghost pre = raw_directives(items@.take(j as int));
        proof {
            assert(items@.take(j + 1).drop_last() =~= items@.take(j as int));
            assert(items@.take(j + 1).last() == items@[j as int]);
        }
        match &items[j] {
            RawItem::Directive(raw) => {
                proof {
                    assert(raw_directives(items@.take(j + 1)) == pre.push(*raw));
                    assert(pre.push(*raw).drop_last() =~= pre);
                }
                let ghost before = diags_abs(diagnostics@);
                let lowered_one = lower_directive(source, raw, diagnostics);
                match lowered_one {
                    Some(dir) => {
                        directives.push(dir);
                        assert(directives_view(directives@) =~= directives_view(directives@.drop_last()).push(dir@));
                    },
                    None => {},
                }
                assert(diags_abs(diagnostics@) =~= d2 + lowered_all(
                    source.spec_bytes(),
                    raw_directives(items@.take(j + 1)),
                ).1);
            },
            RawItem::LanguageBlock(_) => {},
        }
        j += 1;
    }
    assert(items@.take(items@.len() as int) =~= items@);
    let line_index = LineIndex::new(source);
    ParsedFile { html, style, script, directives, line_index }
}

} // verus!
