//! Block bodies and directive bodies of a `.lunas` file: indentation
//! stripping, `@input` and `@use` parsing, and the lowering of a raw
//! directive into a [`Directive`] or a diagnostic.

use vstd::prelude::*;
use vstd::string::{StrSliceExecFns, StringSliceAdditionalSpecFns};

use crate::diagnostic::{diag_abs, diags_abs, Diagnostic, SDiag, Severity};
use crate::sfc::ir::{
    BlockSource, Directive, PropInput, SDirective, SPropInput, SUseComponent, UseComponent,
};
use crate::span::{TextRange, TextSize};
use crate::text::{
    all_white, alphabetic, alphanumeric, chars_of, concat3, find, find_in, is_alphabetic,
    is_alphanumeric, is_whitespace_char, range_text, slice_owned, string_of, trim_char,
    trim_char_range, trim_range, trim_white,
};

verus! {

// ---------------------------------------------------------------------------
// Lines.

/// Splitting `s` at newlines, as far as `s` goes: the finished lines (a
/// `\r` before the newline removed) and the line still open.
pub open spec fn line_scan(s: Seq<char>) -> (Seq<Seq<char>>, Seq<char>)
    decreases s.len(),
{
    if s.len() == 0 {
        (Seq::empty(), Seq::empty())
    } else {
        let (done, cur) = line_scan(s.drop_last());
        if s.last() == '\n' {
            (done.push(strip_cr(cur)), Seq::empty())
        } else {
            (done, cur.push(s.last()))
        }
    }
}

/// `l` without one trailing `\r`.
pub open spec fn strip_cr(l: Seq<char>) -> Seq<char> {
    if l.len() > 0 && l.last() == '\r' {
        l.drop_last()
    } else {
        l
    }
}

/// The lines of `s` (`str::lines`): split at `\n` or `\r\n`, with no empty
/// line after a final line ending.
pub open spec fn lines(s: Seq<char>) -> Seq<Seq<char>> {
    let (done, cur) = line_scan(s);
    if cur.len() > 0 {
        done.push(cur)
    } else {
        done
    }
}

/// The lines joined with `\n` between them.
pub open spec fn join_lines(ls: Seq<Seq<char>>) -> Seq<char>
    decreases ls.len(),
{
    if ls.len() == 0 {
        Seq::empty()
    } else if ls.len() == 1 {
        ls[0]
    } else {
        join_lines(ls.drop_last()) + seq!['\n'] + ls.last()
    }
}

pub open spec fn char_views(ls: Seq<Vec<char>>) -> Seq<Seq<char>> {
    ls.map_values(|v: Vec<char>| v@)
}

/// The lines of `cs`.
pub(crate) fn lines_of(cs: &[char]) -> (r: Vec<Vec<char>>)
    ensures
        char_views(r@) == lines(cs@),
{
    let mut done: Vec<Vec<char>> = Vec::new();
    let mut cur: Vec<char> = Vec::new();
    let mut i: usize = 0;
    while i < cs.len()
        invariant
            i <= cs@.len(),
            line_scan(cs@.subrange(0, i as int)) == (char_views(done@), cur@),
        decreases cs@.len() - i,
    {
        let ghost pre = cs@.subrange(0, i as int);
        proof {
            assert(cs@.subrange(0, i + 1).drop_last() =~= pre);
        }
        if cs[i] == '\n' {
            let mut line = cur;
            if line.len() > 0 && line[line.len() - 1] == '\r' {
                line.pop();
            }
            proof {
                assert(line@ == strip_cr(line_scan(pre).1));
            }
            done.push(line);
            cur = Vec::new();
            assert(char_views(done@) =~= line_scan(pre).0.push(strip_cr(line_scan(pre).1)));
        } else {
            cur.push(cs[i]);
        }
        i += 1;
    }
    proof {
        assert(cs@.subrange(0, cs@.len() as int) =~= cs@);
    }
    if cur.len() > 0 {
        done.push(cur);
        assert(char_views(done@) =~= lines(cs@));
    }
    done
}

// ---------------------------------------------------------------------------
// Common indentation.

/// A space or a tab.
pub open spec fn is_indent(c: char) -> bool {
    c == ' ' || c == '\t'
}

/// The number of spaces and tabs `l` starts with.
pub open spec fn lead_ws(l: Seq<char>) -> nat
    decreases l.len(),
{
    if l.len() > 0 && is_indent(l[0]) {
        1 + lead_ws(l.drop_first())
    } else {
        0
    }
}

proof fn lemma_lead_ws_step(l: Seq<char>, i: int)
    requires
        0 <= i <= l.len(),
        forall|k: int| 0 <= k < i ==> is_indent(#[trigger] l[k]),
    ensures
        (i == l.len() || !is_indent(l[i])) ==> lead_ws(l) == i,
        (i < l.len() && is_indent(l[i])) ==> lead_ws(l) > i,
    decreases i,
{
    if i > 0 {
        lemma_lead_ws_step(l.drop_first(), i - 1);
    }
}

proof fn lemma_lead_ws_bound(l: Seq<char>)
    ensures
        lead_ws(l) <= l.len(),
        forall|k: int| 0 <= k < lead_ws(l) ==> is_indent(#[trigger] l[k]),
    decreases l.len(),
{
    if l.len() > 0 && is_indent(l[0]) {
        lemma_lead_ws_bound(l.drop_first());
        assert forall|k: int| 0 <= k < lead_ws(l) implies is_indent(#[trigger] l[k]) by {
            if k > 0 {
                assert(l[k] == l.drop_first()[k - 1]);
            }
        }
    }
}

/// The number of spaces and tabs `line` starts with.
pub fn leading_ws_len(line: &str) -> (r: usize)
    ensures
        r == lead_ws(line@),
{
    let cs = chars_of(line);
    lead_in(&cs)
}

fn lead_in(cs: &[char]) -> (r: usize)
    ensures
        r == lead_ws(cs@),
{
    let mut i: usize = 0;
    while i < cs.len() && (cs[i] == ' ' || cs[i] == '\t')
        invariant
            i <= cs@.len(),
            forall|k: int| 0 <= k < i ==> is_indent(#[trigger] cs@[k]),
        decreases cs@.len() - i,
    {
        i += 1;
    }
    proof {
        lemma_lead_ws_step(cs@, i as int);
    }
    i
}

/// The smallest indentation among the non-blank lines, if there is one.
pub open spec fn min_indent(ls: Seq<Seq<char>>) -> Option<nat>
    decreases ls.len(),
{
    if ls.len() == 0 {
        None
    } else {
        let m = min_indent(ls.drop_last());
        let l = ls.last();
        if all_white(l) {
            m
        } else {
            match m {
                Some(v) => Some(if lead_ws(l) < v {
                    lead_ws(l)
                } else {
                    v
                }),
                None => Some(lead_ws(l)),
            }
        }
    }
}

/// The indentation every non-blank line shares.
pub open spec fn common_indent(ls: Seq<Seq<char>>) -> nat {
    match min_indent(ls) {
        Some(v) => v,
        None => 0,
    }
}

/// A line with `n` leading characters removed, or nothing if it is blank.
pub open spec fn dedent_line(l: Seq<char>, n: nat) -> Seq<char> {
    if all_white(l) {
        Seq::empty()
    } else {
        l.skip(n as int)
    }
}

pub open spec fn dedent_lines(ls: Seq<Seq<char>>, n: nat) -> Seq<Seq<char>> {
    ls.map_values(|l: Seq<char>| dedent_line(l, n))
}

/// `text` without the indentation its non-blank lines share: blank lines
/// become empty, and blank lines at either end are dropped.
pub open spec fn stripped_text(text: Seq<char>) -> Seq<char> {
    let ls = lines(text);
    trim_char(join_lines(dedent_lines(ls, common_indent(ls))), '\n')
}

proof fn lemma_min_indent_le(ls: Seq<Seq<char>>, k: int)
    requires
        0 <= k < ls.len(),
        !all_white(ls[k]),
    ensures
        min_indent(ls) matches Some(v) && v <= lead_ws(ls[k]),
    decreases ls.len(),
{
    if k < ls.len() - 1 {
        lemma_min_indent_le(ls.drop_last(), k);
    }
}

pub(crate) fn blank(cs: &[char]) -> (r: bool)
    ensures
        r == all_white(cs@),
{
    let mut i: usize = 0;
    while i < cs.len()
        invariant
            i <= cs@.len(),
            forall|k: int| 0 <= k < i ==> crate::text::is_white(#[trigger] cs@[k]),
        decreases cs@.len() - i,
    {
        if !is_whitespace_char(cs[i]) {
            return false;
        }
        i += 1;
    }
    true
}

/// Removes the longest run of spaces and tabs common to all non-blank lines.
/// Blank lines are kept as empty lines; blank lines at either end are trimmed.
pub fn strip_common_indent(text: &str) -> (r: String)
    ensures
        r@ == stripped_text(text@),
{
    let cs = chars_of(text);
    let ls = lines_of(&cs);
    let ghost lv = char_views(ls@);
    // The common indentation.
    let mut common: usize = 0;
    let mut any = false;
    let mut k: usize = 0;
    while k < ls.len()
        invariant
            k <= ls@.len(),
            lv == char_views(ls@),
            any <==> min_indent(lv.take(k as int)) is Some,
            any ==> min_indent(lv.take(k as int)) == Some(common as nat),
            !any ==> common == 0,
        decreases ls@.len() - k,
    {
        proof {
            assert(lv.take(k + 1).drop_last() =~= lv.take(k as int));
            assert(lv.take(k + 1).last() == ls@[k as int]@);
        }
        if !blank(ls[k].as_slice()) {
            let n = lead_in(ls[k].as_slice());
            if !any || n < common {
                common = n;
            }
            any = true;
        }
        k += 1;
    }
    proof {
        assert(lv.take(lv.len() as int) =~= lv);
    }
    let ghost c = common_indent(lv);
    assert(c == common);
    let ghost dl = dedent_lines(lv, c);
    // Join the dedented lines.
    let mut out: Vec<char> = Vec::new();
    let mut k: usize = 0;
    while k < ls.len()
        invariant
            k <= ls@.len(),
            lv == char_views(ls@),
            c == common,
            c == common_indent(lv),
            dl == dedent_lines(lv, c),
            out@ == join_lines(dl.take(k as int)),
        decreases ls@.len() - k,
    {
        let line = &ls[k];
        proof {
            let t = dl.take(k + 1);
            assert(t.drop_last() =~= dl.take(k as int));
            assert(t.last() == dedent_line(lv[k as int], c));
        }
        let ghost before = out@;
        if k > 0 {
            out.push('\n');
        }
        if !blank(line.as_slice()) {
            proof {
                lemma_min_indent_le(lv, k as int);
                lemma_lead_ws_bound(lv[k as int]);
            }
            let mut j = common;
            while j < line.len()
                invariant
                    common <= j <= line@.len(),
                    out@ == (if k > 0 {
                        before + seq!['\n']
                    } else {
                        before
                    }) + line@.subrange(common as int, j as int),
                decreases line@.len() - j,
            {
                out.push(line[j]);
                assert(line@.subrange(common as int, j + 1) =~= line@.subrange(
                    common as int,
                    j as int,
                ).push(line@[j as int]));
                j += 1;
            }
            proof {
                assert(line@.subrange(common as int, line@.len() as int) =~= line@.skip(
                    common as int,
                ));
            }
        }
        proof {
            if k == 0 {
                assert(out@ =~= dl.take(1)[0]);
            } else {
                assert(out@ =~= join_lines(dl.take(k as int)) + seq!['\n'] + dl[k as int]);
            }
        }
        k += 1;
    }
    proof {
        assert(dl.take(dl.len() as int) =~= dl);
    }
    let (a, b) = trim_char_range(out.as_slice(), '\n');
    string_of(out.as_slice(), a, b)
}

/// Extracts a block body: the common indentation is stripped, the range
/// still points at the region of the source it came from.
pub fn extract_block_source(source: &str, range: TextRange) -> (r: BlockSource)
    ensures
        r.text@ == stripped_text(range_text(source.spec_bytes(), range)),
        r.range == range,
{
    let raw = slice_owned(source, range);
    BlockSource { text: strip_common_indent(raw.as_str()), range }
}

// ---------------------------------------------------------------------------
// Directive bodies.

/// An identifier: a letter, `_` or `$`, then letters, digits, `_` or `$`.
pub open spec fn ident_like(s: Seq<char>) -> bool {
    &&& s.len() > 0
    &&& (alphabetic(s[0]) || s[0] == '_' || s[0] == '$')
    &&& forall|i: int| 1 <= i < s.len() ==> (alphanumeric(#[trigger] s[i]) || s[i] == '_' || s[i]
        == '$')
}

fn ident_check(cs: &[char], lo: usize, hi: usize) -> (r: bool)
    requires
        lo <= hi <= cs@.len(),
    ensures
        r == ident_like(cs@.subrange(lo as int, hi as int)),
{
    let ghost s = cs@.subrange(lo as int, hi as int);
    if lo == hi {
        return false;
    }
    let c = cs[lo];
    if !(is_alphabetic(c) || c == '_' || c == '$') {
        return false;
    }
    let mut i = lo + 1;
    while i < hi
        invariant
            lo < i <= hi <= cs@.len(),
            s == cs@.subrange(lo as int, hi as int),
            forall|k: int| 1 <= k < i - lo ==> (alphanumeric(#[trigger] s[k]) || s[k] == '_' || s[k]
                == '$'),
        decreases hi - i,
    {
        let d = cs[i];
        if !(is_alphanumeric(d) || d == '_' || d == '$') {
            assert(s[i - lo] == d);
            return false;
        }
        i += 1;
    }
    true
}

/// Whether `s` is an identifier (see [`ident_like`]).
pub fn is_ident(s: &str) -> (r: bool)
    ensures
        r == ident_like(s@),
{
    let cs = chars_of(s);
    proof {
        assert(cs@.subrange(0, cs@.len() as int) =~= cs@);
    }
    ident_check(&cs, 0, cs.len())
}

/// A quoted string's contents: `s` is at least two characters long, begins
/// with `"` or `'` and ends with the same quote.
pub open spec fn unquoted(s: Seq<char>) -> Option<Seq<char>> {
    if s.len() >= 2 && (s[0] == '"' || s[0] == '\'') && s[0] == s.last() {
        Some(s.subrange(1, s.len() - 1))
    } else {
        None
    }
}

/// The contents of a single- or double-quoted string.
pub fn unquote(s: &str) -> (r: Option<String>)
    ensures
        opt_view(r) == unquoted(s@),
{
    let cs = chars_of(s);
    let n = cs.len();
    if n >= 2 {
        let first = cs[0];
        if (first == '"' || first == '\'') && first == cs[n - 1] {
            return Some(string_of(&cs, 1, n - 1));
        }
    }
    None
}

pub open spec fn opt_view(o: Option<String>) -> Option<Seq<char>> {
    match o {
        Some(s) => Some(s@),
        None => None,
    }
}

/// The empty range at the start of the file.
pub open spec fn origin() -> TextRange {
    TextRange { start: TextSize { raw: 0 }, end: TextSize { raw: 0 } }
}

/// The type part of an `@input` body after the colon: up to `=`, trimmed.
pub open spec fn type_part(rest: Seq<char>) -> Seq<char> {
    match find(rest, seq!['=']) {
        Some(e) => trim_white(rest.take(e)),
        None => trim_white(rest),
    }
}

/// A trailing `?` on the type marks the prop nullable.
pub open spec fn nullable_of(rest: Seq<char>) -> bool {
    type_part(rest).len() > 0 && type_part(rest).last() == '?'
}

/// The declared type, without a nullable mark, if any is written.
pub open spec fn type_of_input(rest: Seq<char>) -> Option<Seq<char>> {
    let t = if nullable_of(rest) {
        trim_white(type_part(rest).drop_last())
    } else {
        type_part(rest)
    };
    if t.len() == 0 {
        None
    } else {
        Some(t)
    }
}

/// The default value after `=`, trimmed, if one is written.
pub open spec fn default_of(rest: Seq<char>) -> Option<Seq<char>> {
    match find(rest, seq!['=']) {
        Some(e) => {
            let d = trim_white(rest.skip(e + 1));
            if d.len() == 0 {
                None
            } else {
                Some(d)
            }
        },
        None => None,
    }
}

/// The `@input` declaration a body spells: `name: Type? = default`, where the
/// type and the default are both optional and a trailing `?` on the type
/// marks the prop nullable. Its range is left at the origin.
pub open spec fn input_of(body: Seq<char>) -> Option<SPropInput> {
    match find(body, seq![':']) {
        None => None,
        Some(k) => {
            let name = trim_white(body.take(k));
            let rest = body.skip(k + 1);
            if name.len() == 0 || !ident_like(name) {
                None
            } else {
                Some(
                    SPropInput {
                        name,
                        type_annotation: type_of_input(rest),
                        default_value: default_of(rest),
                        nullable: nullable_of(rest),
                        range: origin(),
                    },
                )
            }
        },
    }
}

/// The type, default and nullability written after the colon, in `cs[lo..hi]`.
fn input_rest(cs: &[char], lo: usize, hi: usize) -> (r: (Option<String>, Option<String>, bool))
    requires
        lo <= hi <= cs@.len(),
    ensures
        opt_view(r.0) == type_of_input(cs@.subrange(lo as int, hi as int)),
        opt_view(r.1) == default_of(cs@.subrange(lo as int, hi as int)),
        r.2 == nullable_of(cs@.subrange(lo as int, hi as int)),
{
    let ghost rest = cs@.subrange(lo as int, hi as int);
    assert(seq!['='] =~= ['=']@);
    let (ta, tb, default_value) = match find_in(cs, lo, hi, &['=']) {
        Some(e) => {
            proof {
                assert(rest.take(e as int) =~= cs@.subrange(lo as int, lo + e));
                assert(rest.skip(e + 1) =~= cs@.subrange(lo + e + 1, hi as int));
            }
            let (ta, tb) = trim_range(cs, lo, lo + e);
            let (da, db) = trim_range(cs, lo + e + 1, hi);
            let d = if da == db {
                None
            } else {
                Some(string_of(cs, da, db))
            };
            (ta, tb, d)
        },
        None => {
            let (ta, tb) = trim_range(cs, lo, hi);
            (ta, tb, None)
        },
    };
    assert(cs@.subrange(ta as int, tb as int) == type_part(rest));
    let nullable = ta < tb && cs[tb - 1] == '?';
    let (sa, sb) = if nullable {
        proof {
            assert(cs@.subrange(ta as int, tb as int).drop_last() =~= cs@.subrange(
                ta as int,
                tb - 1,
            ));
        }
        trim_range(cs, ta, tb - 1)
    } else {
        (ta, tb)
    };
    let type_annotation = if sa == sb {
        None
    } else {
        Some(string_of(cs, sa, sb))
    };
    (type_annotation, default_value, nullable)
}

/// Parses an `@input` body (see [`input_of`]).
pub fn parse_input(body: &str) -> (r: Option<PropInput>)
    ensures
        match r {
            Some(p) => input_of(body@) == Some(p@),
            None => input_of(body@) is None,
        },
{
    let cs = chars_of(body);
    let n = cs.len();
    let ghost b = cs@;
    proof {
        assert(b.subrange(0, n as int) =~= b);
    }
    assert(seq![':'] =~= [':']@);
    let colon = match find_in(&cs, 0, n, &[':']) {
        Some(k) => k,
        None => {
            return None;
        },
    };
    let (na, nb) = trim_range(&cs, 0, colon);
    proof {
        assert(b.take(colon as int) =~= b.subrange(0, colon as int));
        assert(b.skip(colon + 1) =~= b.subrange(colon + 1, n as int));
    }
    if na == nb || !ident_check(&cs, na, nb) {
        return None;
    }
    let (type_annotation, default_value, nullable) = input_rest(&cs, colon + 1, n);
    let p = PropInput {
        name: string_of(&cs, na, nb),
        type_annotation,
        default_value,
        nullable,
        range: TextRange::empty(TextSize::new(0)),
    };
    proof {
        assert(p@.range == origin());
    }
    Some(p)
}

/// The `@use` declaration a body spells: `Name from "path"` (single or
/// double quotes). Its range is left at the origin.
pub open spec fn use_of(body: Seq<char>) -> Option<SUseComponent> {
    match find(body, seq!['f', 'r', 'o', 'm']) {
        None => None,
        Some(k) => {
            let name = trim_white(body.take(k));
            if name.len() == 0 || !ident_like(name) {
                None
            } else {
                match unquoted(trim_white(body.skip(k + 4))) {
                    Some(path) => Some(SUseComponent { component_name: name, path, range: origin() }),
                    None => None,
                }
            }
        },
    }
}

/// Parses a `@use` body (see [`use_of`]).
pub fn parse_use(body: &str) -> (r: Option<UseComponent>)
    ensures
        match r {
            Some(u) => use_of(body@) == Some(u@),
            None => use_of(body@) is None,
        },
{
    let cs = chars_of(body);
    let n = cs.len();
    let ghost b = cs@;
    proof {
        assert(b.subrange(0, n as int) =~= b);
    }
    let at = match find_in(&cs, 0, n, &['f', 'r', 'o', 'm']) {
        Some(k) => k,
        None => {
            assert(seq!['f', 'r', 'o', 'm'] =~= ['f', 'r', 'o', 'm']@);
            return None;
        },
    };
    assert(seq!['f', 'r', 'o', 'm'] =~= ['f', 'r', 'o', 'm']@);
    let (na, nb) = trim_range(&cs, 0, at);
    proof {
        assert(b.take(at as int) =~= b.subrange(0, at as int));
    }
    if na == nb || !ident_check(&cs, na, nb) {
        return None;
    }
    proof {
        assert(b.skip(at + 4) =~= b.subrange(at + 4, n as int));
    }
    let (pa, pb) = trim_range(&cs, at + 4, n);
    if pb - pa >= 2 {
        let first = cs[pa];
        if (first == '"' || first == '\'') && first == cs[pb - 1] {
            let u = UseComponent {
                component_name: string_of(&cs, na, nb),
                path: string_of(&cs, pa + 1, pb - 1),
                range: TextRange::empty(TextSize::new(0)),
            };
            proof {
                assert(cs@.subrange(pa + 1, pb - 1) =~= cs@.subrange(pa as int, pb as int).subrange(
                    1,
                    (pb - pa) - 1,
                ));
            }
            return Some(u);
        }
    }
    None
}

// ---------------------------------------------------------------------------
// Raw directives.

/// A directive as the block splitter found it: `@keyword(params)` with an
/// optional body on the following line(s).
#[derive(Debug, Clone, PartialEq)]
pub struct RawDirective {
    pub keyword: String,
    pub params: Option<String>,
    /// Range of the directive body line(s), if any.
    pub body_range: Option<TextRange>,
}

/// The trimmed text of a directive's body.
pub open spec fn body_text(source: Seq<u8>, body_range: Option<TextRange>) -> Seq<char> {
    match body_range {
        Some(r) => trim_white(range_text(source, r)),
        None => Seq::empty(),
    }
}

/// The range diagnostics about a directive point at.
pub open spec fn body_range_or_origin(body_range: Option<TextRange>) -> TextRange {
    match body_range {
        Some(r) => r,
        None => origin(),
    }
}

/// What lowering a directive gives: the directive, or `None` together with
/// the diagnostic reported for it.
pub open spec fn lowered(source: Seq<u8>, keyword: Seq<char>, body_range: Option<TextRange>) -> (
    Option<SDirective>,
    Seq<SDiag>,
) {
    let body = body_text(source, body_range);
    let range = body_range_or_origin(body_range);
    if keyword == "input"@ {
        match input_of(body) {
            Some(p) => (Some(SDirective::Input(SPropInput { range, ..p })), Seq::empty()),
            None => (
                None,
                seq![
                    SDiag {
                        range,
                        severity: Severity::Error,
                        message: "invalid `@input` declaration; expected `name: Type = default`"@,
                    },
                ],
            ),
        }
    } else if keyword == "use"@ {
        match use_of(body) {
            Some(u) => (Some(SDirective::UseComponent(SUseComponent { range, ..u })), Seq::empty()),
            None => (
                None,
                seq![
                    SDiag {
                        range,
                        severity: Severity::Error,
                        message: "invalid `@use` declaration; expected `Name from \"path\"`"@,
                    },
                ],
            ),
        }
    } else if keyword == "useAutoRouting"@ {
        (Some(SDirective::UseAutoRouting), Seq::empty())
    } else if keyword == "useRouting"@ {
        (Some(SDirective::UseRouting), Seq::empty())
    } else {
        (
            None,
            seq![
                SDiag {
                    range,
                    severity: Severity::Warning,
                    message: "unknown directive `@"@ + keyword + "`"@,
                },
            ],
        )
    }
}

pub open spec fn opt_directive(o: Option<Directive>) -> Option<SDirective> {
    match o {
        Some(d) => Some(d@),
        None => None,
    }
}

/// Lowers a raw directive: `@input` and `@use` bodies are parsed (a body that
/// does not parse is reported as an error), `@useAutoRouting` and
/// `@useRouting` are recognized, and any other keyword is reported as a
/// warning.
pub fn lower_directive(source: &str, raw: &RawDirective, diagnostics: &mut Vec<Diagnostic>) -> (r:
    Option<Directive>)
    ensures
        opt_directive(r) == lowered(source.spec_bytes(), raw.keyword@, raw.body_range).0,
        diags_abs(final(diagnostics)@) == diags_abs(old(diagnostics)@) + lowered(
            source.spec_bytes(),
            raw.keyword@,
            raw.body_range,
        ).1,
{
    let body: String = match raw.body_range {
        Some(r) => {
            let t = slice_owned(source, r);
            let cs = chars_of(t.as_str());
            proof {
                assert(cs@.subrange(0, cs@.len() as int) =~= cs@);
            }
            let (a, b) = trim_range(&cs, 0, cs.len());
            string_of(&cs, a, b)
        },
        None => String::new(),
    };
    let body_range = match raw.body_range {
        Some(r) => r,
        None => TextRange::empty(TextSize::new(0)),
    };
    let keyword = raw.keyword.as_str();
    if crate::script::json::str_eq(keyword, "input") {
        match parse_input(body.as_str()) {
            Some(prop) => {
                let prop = PropInput { range: body_range, ..prop };
                Some(Directive::Input(prop))
            },
            None => {
                let d = Diagnostic::error(
                    body_range,
                    "invalid `@input` declaration; expected `name: Type = default`",
                );
                diagnostics.push(d);
                assert(diags_abs(diagnostics@) =~= diags_abs(old(diagnostics)@).push(diag_abs(d)));
                None
            },
        }
    } else if crate::script::json::str_eq(keyword, "use") {
        match parse_use(body.as_str()) {
            Some(comp) => {
                let comp = UseComponent { range: body_range, ..comp };
                Some(Directive::UseComponent(comp))
            },
            None => {
                let d = Diagnostic::error(
                    body_range,
                    "invalid `@use` declaration; expected `Name from \"path\"`",
                );
                diagnostics.push(d);
                assert(diags_abs(diagnostics@) =~= diags_abs(old(diagnostics)@).push(diag_abs(d)));
                None
            },
        }
    } else if crate::script::json::str_eq(keyword, "useAutoRouting") {
        Some(Directive::UseAutoRouting)
    } else if crate::script::json::str_eq(keyword, "useRouting") {
        Some(Directive::UseRouting)
    } else {
        let message = concat3("unknown directive `@", keyword, "`");
        let d = Diagnostic::warning(body_range, message);
        diagnostics.push(d);
        assert(diags_abs(diagnostics@) =~= diags_abs(old(diagnostics)@).push(diag_abs(d)));
        None
    }
}


// ---------------------------------------------------------------------------
// Laws.

/// A stripped block body neither starts nor ends with a line break: blank
/// lines at either end are dropped.
pub proof fn law_stripped_has_no_outer_newlines(text: Seq<char>)
    ensures
        stripped_text(text).len() > 0 ==> stripped_text(text)[0] != '\n' && stripped_text(text).last()
            != '\n',
{
    let ls = lines(text);
    crate::text::law_trim_char(join_lines(dedent_lines(ls, common_indent(ls))), '\n');
}

/// An accepted `@input` or `@use` declaration names an identifier, and its
/// range is left at the origin for the caller to set.
pub proof fn law_declarations_name_identifiers(body: Seq<char>)
    ensures
        input_of(body) matches Some(p) ==> ident_like(p.name) && p.range == origin(),
        use_of(body) matches Some(u) ==> ident_like(u.component_name) && u.range == origin(),
{
}

/// Lowering a directive gives either a directive and no diagnostic, or no
/// directive and exactly one diagnostic; an accepted `@input` or `@use`
/// carries the directive body's range.
pub proof fn law_directive_or_diagnostic(
    source: Seq<u8>,
    keyword: Seq<char>,
    body_range: Option<TextRange>,
)
    ensures
        ({
            let (d, diags) = lowered(source, keyword, body_range);
            (d is Some && diags.len() == 0) || (d is None && diags.len() == 1)
        }),
        lowered(source, keyword, body_range).0 matches Some(SDirective::Input(p)) ==> p.range
            == body_range_or_origin(body_range),
        lowered(source, keyword, body_range).0 matches Some(SDirective::UseComponent(u)) ==> u.range
            == body_range_or_origin(body_range),
{
}

} // verus!
