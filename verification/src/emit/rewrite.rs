//! Text edits over a script and the reactive rewriting of expressions: every
//! free read of a reactive variable `name` becomes `name.v`.

use vstd::prelude::*;
use vstd::string::{StringExecFns, StringSliceAdditionalSpecFns};

use crate::model::ReactiveVar;
use crate::script::analysis::{
    expr_source, free, free_identifiers_with_spans, program, ranges_view, rebase_all, string_views,
};
use crate::span::{on_boundary, slice_str, TextRange};
use crate::text::{trim_white, trimmed};

verus! {

/// An edit: replace the bytes `[start, end)` with the text.
pub type SEdit = (u32, u32, Seq<char>);

pub open spec fn edits_view(s: Seq<(u32, u32, String)>) -> Seq<SEdit> {
    s.map_values(|e: (u32, u32, String)| (e.0, e.1, e.2@))
}

/// `a` comes before `b` when edits are ordered right to left: by start, then
/// by end, both descending.
pub open spec fn goes_before(a: SEdit, b: SEdit) -> bool {
    a.0 > b.0 || (a.0 == b.0 && a.1 > b.1)
}

/// `e` placed into the ordered `s` after every edit it does not go before
/// (a stable insertion).
pub open spec fn insert_edit(s: Seq<SEdit>, e: SEdit) -> Seq<SEdit>
    decreases s.len(),
{
    if s.len() == 0 {
        seq![e]
    } else if goes_before(e, s.last()) {
        insert_edit(s.drop_last(), e).push(s.last())
    } else {
        s.push(e)
    }
}

/// The edits in right-to-left order, edits with the same range kept in their
/// given order (a stable sort).
pub open spec fn sort_edits(s: Seq<SEdit>) -> Seq<SEdit>
    decreases s.len(),
{
    if s.len() == 0 {
        Seq::empty()
    } else {
        insert_edit(sort_edits(s.drop_last()), s.last())
    }
}

/// `text` with one edit applied, when its range is a well-formed slice of
/// the text; otherwise `text` unchanged.
pub open spec fn apply_one(text: Seq<char>, e: SEdit) -> Seq<char> {
    let b = vstd::utf8::encode_utf8(text);
    let (s, t) = (e.0 as int, e.1 as int);
    if s <= t <= b.len() && on_boundary(b, s) && on_boundary(b, t) {
        vstd::utf8::decode_utf8(b.subrange(0, s)) + e.2 + vstd::utf8::decode_utf8(
            b.subrange(t, b.len() as int),
        )
    } else {
        text
    }
}

/// `text` with the edits applied one after the other.
pub open spec fn apply_all(text: Seq<char>, s: Seq<SEdit>) -> Seq<char>
    decreases s.len(),
{
    if s.len() == 0 {
        text
    } else {
        apply_one(apply_all(text, s.drop_last()), s.last())
    }
}

/// What applying `edits` to `src` gives: the edits sorted right to left,
/// then applied in that order.
pub open spec fn edited(src: Seq<char>, edits: Seq<SEdit>) -> Seq<char> {
    apply_all(src, sort_edits(edits))
}

proof fn lemma_insert_at(s: Seq<SEdit>, e: SEdit, j: int)
    requires
        0 <= j <= s.len(),
        forall|k: int| j <= k < s.len() ==> goes_before(e, #[trigger] s[k]),
        j == 0 || !goes_before(e, s[j - 1]),
    ensures
        insert_edit(s, e) == s.insert(j, e),
    decreases s.len(),
{
    if s.len() > 0 {
        if j < s.len() {
            lemma_insert_at(s.drop_last(), e, j);
            assert(s.drop_last().insert(j, e).push(s.last()) =~= s.insert(j, e));
        } else {
            assert(s.push(e) =~= s.insert(j, e));
        }
    }
}

fn before_edit(a: &(u32, u32, String), b: &(u32, u32, String)) -> (r: bool)
    ensures
        r == goes_before((a.0, a.1, a.2@), (b.0, b.1, b.2@)),
{
    a.0 > b.0 || (a.0 == b.0 && a.1 > b.1)
}

/// The edits in right-to-left order (see [`sort_edits`]).
fn sorted_edits(edits: &Vec<(u32, u32, String)>) -> (r: Vec<(u32, u32, String)>)
    ensures
        edits_view(r@) == sort_edits(edits_view(edits@)),
{
    let ghost ev = edits_view(edits@);
    let mut out: Vec<(u32, u32, String)> = Vec::new();
    let mut k: usize = 0;
    while k < edits.len()
        invariant
            k <= edits@.len(),
            ev == edits_view(edits@),
            edits_view(out@) == sort_edits(ev.take(k as int)),
        decreases edits@.len() - k,
    {
        let e = (edits[k].0, edits[k].1, edits[k].2.clone());
        proof {
            assert(ev.take(k + 1).drop_last() =~= ev.take(k as int));
            assert(ev.take(k + 1).last() == (e.0, e.1, e.2@));
        }
        let mut j = out.len();
        while j > 0 && before_edit(&e, &out[j - 1])
            invariant
                j <= out@.len(),
                forall|m: int| j <= m < out@.len() ==> goes_before((e.0, e.1, e.2@), #[trigger] edits_view(out@)[m]),
            decreases j,
        {
            j -= 1;
        }
        proof {
            lemma_insert_at(edits_view(out@), (e.0, e.1, e.2@), j as int);
        }
        let ghost before = out@;
        out.insert(j, e);
        assert(edits_view(out@) =~= edits_view(before).insert(j as int, (e.0, e.1, e.2@)));
        k += 1;
    }
    assert(ev.take(ev.len() as int) =~= ev);
    out
}

/// `out` with `[s, e)` replaced by `text`, when that is a well-formed slice.
fn replace(out: String, s: u32, e: u32, text: &str) -> (r: String)
    ensures
        r@ == apply_one(out@, (s, e, text@)),
{
    let src = out.as_str();
    let len = src.as_bytes().len();
    if (s as usize) <= (e as usize) && (e as usize) <= len {
        match (slice_str(src, 0, s as usize), slice_str(src, e as usize, len)) {
            (Some(head), Some(tail)) => {
                proof {
                    vstd::utf8::encode_utf8_decode_utf8(head@);
                    vstd::utf8::encode_utf8_decode_utf8(tail@);
                    vstd::utf8::encode_utf8_valid_utf8(out@);
                    vstd::utf8::is_char_boundary_start_end_of_seq(src.spec_bytes());
                }
                let mut r = String::from_str(head);
                r.append(text);
                r.append(tail);
                r
            },
            _ => {
                proof {
                    vstd::utf8::encode_utf8_valid_utf8(out@);
                    vstd::utf8::is_char_boundary_start_end_of_seq(src.spec_bytes());
                }
                out
            },
        }
    } else {
        out
    }
}

/// Applies `(start, end, replacement)` edits to `src`, right to left (see
/// [`edited`]). Edits are meant not to overlap, zero-width inserts aside; an
/// edit whose range is not a well-formed slice is skipped.
pub fn apply_edits(src: &str, edits: Vec<(u32, u32, String)>) -> (r: String)
    ensures
        r@ == edited(src@, edits_view(edits@)),
{
    let sorted = sorted_edits(&edits);
    let ghost sv = edits_view(sorted@);
    let mut out = String::from_str(src);
    let mut k: usize = 0;
    while k < sorted.len()
        invariant
            k <= sorted@.len(),
            sv == edits_view(sorted@),
            out@ == apply_all(src@, sv.take(k as int)),
        decreases sorted@.len() - k,
    {
        let (s, e) = (sorted[k].0, sorted[k].1);
        out = replace(out, s, e, sorted[k].2.as_str());
        proof {
            assert(sv.take(k + 1).drop_last() =~= sv.take(k as int));
        }
        k += 1;
    }
    assert(sv.take(sv.len() as int) =~= sv);
    out
}

/// The names of the variables that are not shadowed.
pub open spec fn unshadowed(vars: Seq<ReactiveVar>, shadowed: Seq<Seq<char>>) -> Seq<Seq<char>>
    decreases vars.len(),
{
    if vars.len() == 0 {
        Seq::empty()
    } else {
        let prev = unshadowed(vars.drop_last(), shadowed);
        if shadowed.contains(vars.last().name@) {
            prev
        } else {
            prev.push(vars.last().name@)
        }
    }
}

/// An insert of `.v` after each free read of a reactive name.
pub open spec fn dot_v_edits(spans: Seq<(Seq<char>, TextRange)>, reactive: Seq<Seq<char>>) -> Seq<SEdit>
    decreases spans.len(),
{
    if spans.len() == 0 {
        Seq::empty()
    } else {
        let prev = dot_v_edits(spans.drop_last(), reactive);
        let (name, range) = spans.last();
        if reactive.contains(name) {
            prev.push((range.end.raw, range.end.raw, ".v"@))
        } else {
            prev
        }
    }
}

/// A standalone JS expression with each free read of a reactive variable
/// (not one of the `shadowed` loop bindings) rewritten to `name.v`, trimmed;
/// an expression that does not parse, or with nothing to rewrite, is only
/// trimmed.
pub open spec fn rewritten(expr: Seq<char>, vars: Seq<ReactiveVar>, shadowed: Seq<Seq<char>>) -> Seq<
    char,
> {
    let reactive = unshadowed(vars, shadowed);
    if reactive.len() == 0 {
        trim_white(expr)
    } else {
        match program(expr_source(expr)) {
            Ok((m, base)) => trim_white(
                edited(
                    expr,
                    dot_v_edits(
                        rebase_all(free(m, Seq::empty()), base, 1, vstd::utf8::encode_utf8(expr).len() as int),
                        reactive,
                    ),
                ),
            ),
            Err(_) => trim_white(expr),
        }
    }
}

fn contains_view(v: &Vec<String>, s: &str) -> (r: bool)
    ensures
        r == string_views(v@).contains(s@),
{
    let mut i: usize = 0;
    while i < v.len()
        invariant
            i <= v@.len(),
            forall|k: int| 0 <= k < i ==> v@[k]@ != s@,
        decreases v@.len() - i,
    {
        if crate::script::json::str_eq(v[i].as_str(), s) {
            assert(string_views(v@)[i as int] == s@);
            return true;
        }
        i += 1;
    }
    assert(!string_views(v@).contains(s@)) by {
        if string_views(v@).contains(s@) {
            let k = choose|k: int| 0 <= k < v@.len() && string_views(v@)[k] == s@;
            assert(v@[k]@ == s@);
        }
    }
    false
}

/// Rewrites a standalone JS expression so reactive reads become `name.v`
/// (see [`rewritten`]).
pub fn rewrite_expr(expr: &str, vars: &[ReactiveVar], shadowed: &Vec<String>) -> (r: String)
    requires
        vstd::utf8::encode_utf8(expr@).len() <= u32::MAX,
    ensures
        r@ == rewritten(expr@, vars@, string_views(shadowed@)),
{
    let ghost sh = string_views(shadowed@);
    let mut reactive: Vec<String> = Vec::new();
    let mut k: usize = 0;
    while k < vars.len()
        invariant
            k <= vars@.len(),
            sh == string_views(shadowed@),
            string_views(reactive@) == unshadowed(vars@.take(k as int), sh),
        decreases vars@.len() - k,
    {
        proof {
            assert(vars@.take(k + 1).drop_last() =~= vars@.take(k as int));
        }
        if !contains_view(shadowed, vars[k].name.as_str()) {
            let c = vars[k].name.clone();
            let ghost before = reactive@;
            reactive.push(c);
            assert(string_views(reactive@) =~= string_views(before).push(
                c@,
            ));
        }
        k += 1;
    }
    assert(vars@.take(vars@.len() as int) =~= vars@);
    let ghost rv = string_views(reactive@);
    if reactive.len() == 0 {
        return trimmed(expr);
    }
    let spans = match free_identifiers_with_spans(expr) {
        Ok(s) => s,
        Err(_) => {
            return trimmed(expr);
        },
    };
    let ghost sp = ranges_view(spans@);
    let mut edits: Vec<(u32, u32, String)> = Vec::new();
    let mut i: usize = 0;
    while i < spans.len()
        invariant
            i <= spans@.len(),
            sp == ranges_view(spans@),
            rv == string_views(reactive@),
            edits_view(edits@) == dot_v_edits(sp.take(i as int), rv),
        decreases spans@.len() - i,
    {
        proof {
            assert(sp.take(i + 1).drop_last() =~= sp.take(i as int));
            assert(sp.take(i + 1).last() == (spans@[i as int].0@, spans@[i as int].1));
        }
        if contains_view(&reactive, spans[i].0.as_str()) {
            let end = spans[i].1.end.raw;
            let ghost before = edits@;
            edits.push((end, end, String::from_str(".v")));
            assert(edits_view(edits@) =~= edits_view(before).push((end, end, ".v"@)));
        }
        i += 1;
    }
    assert(sp.take(sp.len() as int) =~= sp);
    let out = apply_edits(expr, edits);
    trimmed(out.as_str())
}

} // verus!
