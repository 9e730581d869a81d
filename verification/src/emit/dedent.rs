//! Removing the indentation a block of emitted code shares.
//!
//! Indentation is measured in characters: the common amount is the least
//! leading-whitespace count among the non-blank lines, and each line is cut
//! that many characters in, so no cut can split a character.

use vstd::prelude::*;

use crate::sfc::lower::{blank, char_views, join_lines, lines, lines_of};
use crate::text::{
    all_white, chars_of, is_whitespace_char, lemma_white_prefix_all, lemma_white_prefix_step,
    push_char, white_prefix,
};

verus! {

/// The least indentation, in characters, among the non-blank lines, if
/// there is one.
pub open spec fn min_indent_chars(ls: Seq<Seq<char>>) -> Option<nat>
    decreases ls.len(),
{
    if ls.len() == 0 {
        None
    } else {
        let m = min_indent_chars(ls.drop_last());
        let l = ls.last();
        if all_white(l) {
            m
        } else {
            match m {
                Some(v) => Some(if white_prefix(l) < v {
                    white_prefix(l)
                } else {
                    v
                }),
                None => Some(white_prefix(l)),
            }
        }
    }
}

/// The number of characters every line is cut by.
pub open spec fn cut_width(ls: Seq<Seq<char>>) -> nat {
    match min_indent_chars(ls) {
        Some(v) => v,
        None => 0,
    }
}

/// A line cut `m` characters in, or with its leading whitespace removed
/// when it is shorter than that.
pub open spec fn cut_line(l: Seq<char>, m: nat) -> Seq<char> {
    if l.len() >= m {
        l.skip(m as int)
    } else {
        l.skip(white_prefix(l) as int)
    }
}

/// The lines of `s`, each cut by the common indentation, joined with `\n`.
pub open spec fn dedented(s: Seq<char>) -> Seq<char> {
    let ls = lines(s);
    join_lines(ls.map_values(|l: Seq<char>| cut_line(l, cut_width(ls))))
}

/// The number of whitespace characters `cs` starts with.
fn white_count(cs: &[char]) -> (r: usize)
    ensures
        r == white_prefix(cs@),
        r <= cs@.len(),
{
    let mut a: usize = 0;
    while a < cs.len() && is_whitespace_char(cs[a])
        invariant
            a <= cs@.len(),
            forall|k: int| 0 <= k < a ==> crate::text::is_white(#[trigger] cs@[k]),
        decreases cs@.len() - a,
    {
        a += 1;
    }
    proof {
        if a == cs.len() {
            assert(all_white(cs@));
            lemma_white_prefix_all(cs@);
        } else {
            lemma_white_prefix_step(cs@, a as int);
        }
    }
    a
}

/// Removes the indentation that the non-blank lines of `s` share, counted
/// in characters: each line is cut that many characters in, or has its
/// leading whitespace removed if it is shorter, and the lines are joined
/// with `\n`.
pub fn dedent(s: &str) -> (r: String)
    ensures
        r@ == dedented(s@),
{
    let cs = chars_of(s);
    let ls = lines_of(&cs);
    let ghost lv = char_views(ls@);
    assert(lv == lines(s@));
    let mut any = false;
    let mut m: usize = 0;
    let mut k: usize = 0;
    assert(lv.take(0) =~= Seq::<Seq<char>>::empty());
    while k < ls.len()
        invariant
            k <= ls@.len(),
            lv == char_views(ls@),
            any <==> min_indent_chars(lv.take(k as int)) is Some,
            any ==> min_indent_chars(lv.take(k as int)) == Some(m as nat),
        decreases ls@.len() - k,
    {
        let line = &ls[k];
        proof {
            assert(lv.take(k + 1).drop_last() =~= lv.take(k as int));
            assert(lv.take(k + 1).last() == line@);
        }
        if !blank(line.as_slice()) {
            let wc = white_count(line.as_slice());
            if !any || wc < m {
                m = wc;
            }
            any = true;
        }
        k += 1;
    }
    assert(lv.take(ls@.len() as int) =~= lv);
    if !any {
        m = 0;
    }
    assert(m == cut_width(lv));
    let ghost cut = lv.map_values(|l: Seq<char>| cut_line(l, cut_width(lv)));
    let mut out = String::new();
    let mut j: usize = 0;
    assert(cut.take(0) =~= Seq::<Seq<char>>::empty());
    while j < ls.len()
        invariant
            j <= ls@.len(),
            lv == char_views(ls@),
            lv == lines(s@),
            m == cut_width(lv),
            cut == lv.map_values(|l: Seq<char>| cut_line(l, cut_width(lv))),
            out@ == join_lines(cut.take(j as int)),
        decreases ls@.len() - j,
    {
        let line = ls[j].as_slice();
        assert(line@ == lv[j as int]);
        let from = if line.len() >= m {
            m
        } else {
            white_count(line)
        };
        assert(line@.skip(from as int) == cut[j as int]);
        let ghost before = out@;
        if j > 0 {
            push_char(&mut out, '\n');
        }
        let ghost mid = out@;
        let mut c = from;
        while c < line.len()
            invariant
                from <= c <= line@.len(),
                out@ == mid + line@.subrange(from as int, c as int),
            decreases line@.len() - c,
        {
            push_char(&mut out, line[c]);
            assert(line@.subrange(from as int, c + 1) =~= line@.subrange(from as int, c as int).push(line@[c as int]));
            c += 1;
        }
        proof {
            assert(line@.subrange(from as int, line@.len() as int) =~= line@.skip(from as int));
            assert(cut.take(j + 1).drop_last() =~= cut.take(j as int));
            if j == 0 {
                assert(out@ =~= cut.take(1)[0]);
            } else {
                assert(out@ =~= before + seq!['\n'] + cut[j as int]);
            }
        }
        j += 1;
    }
    assert(cut.take(ls@.len() as int) =~= cut);
    out
}

} // verus!
