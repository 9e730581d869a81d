//! Textual detection of deep mutation: whether a script writes through a
//! member or index of a variable (`name.x = …`, `name[i] = …`, `name.x++`) or
//! calls a mutating method on it (`name.push(…)`), which decides between a
//! plain and a deep reactive box.

use vstd::prelude::*;
use vstd::string::StringSliceAdditionalSpecFns;

use crate::model::ReactiveVar;
use crate::span::slice_str;
use crate::text::{chars_of, is_white, is_whitespace_char, text_of, white_prefix};

verus! {

/// An ASCII letter or digit, `_` or `$`.
pub open spec fn ident_byte(b: u8) -> bool {
    (48 <= b <= 57) || (65 <= b <= 90) || (97 <= b <= 122) || b == 95 || b == 36
}

pub fn is_ident_byte(b: u8) -> (r: bool)
    ensures
        r == ident_byte(b),
{
    (48 <= b && b <= 57) || (65 <= b && b <= 90) || (97 <= b && b <= 122) || b == 95 || b == 36
}

/// The first position at or after `i` where `pat` occurs in `b`.
pub open spec fn first_match(b: Seq<u8>, pat: Seq<u8>, i: int) -> Option<int>
    decreases b.len() + 1 - i,
{
    if i < 0 || i + pat.len() > b.len() {
        None
    } else if b.subrange(i, i + pat.len()) == pat {
        Some(i)
    } else {
        first_match(b, pat, i + 1)
    }
}

/// The standalone occurrences of `pat` in `b` from `i` on, scanning left to
/// right and resuming after each match: a match counts when no identifier
/// byte touches it on either side.
pub open spec fn occurrences(b: Seq<u8>, pat: Seq<u8>, i: int) -> Seq<(int, int)>
    decreases b.len() + 1 - i,
{
    if pat.len() == 0 {
        Seq::empty()
    } else {
        match first_match(b, pat, i) {
            None => Seq::empty(),
            Some(start) => {
                let end = start + pat.len();
                let ok = (start == 0 || !ident_byte(b[start - 1])) && (end >= b.len()
                    || !ident_byte(b[end]));
                if i <= start && end <= b.len() {
                    (if ok {
                        seq![(start, end)]
                    } else {
                        Seq::empty()
                    }) + occurrences(b, pat, end)
                } else {
                    Seq::empty()
                }
            },
        }
    }
}

proof fn lemma_first_match_bounds(b: Seq<u8>, pat: Seq<u8>, i: int)
    ensures
        first_match(b, pat, i) matches Some(k) ==> i <= k && k + pat.len() <= b.len(),
    decreases b.len() + 1 - i,
{
    if !(i < 0 || i + pat.len() > b.len()) && b.subrange(i, i + pat.len()) != pat {
        lemma_first_match_bounds(b, pat, i + 1);
    }
}

fn first_match_from(b: &[u8], pat: &[u8], i0: usize) -> (r: Option<usize>)
    ensures
        r matches Some(k) ==> first_match(b@, pat@, i0 as int) == Some(k as int),
        r is None ==> first_match(b@, pat@, i0 as int) is None,
{
    let mut i = i0;
    loop
        invariant
            i0 <= i,
            first_match(b@, pat@, i as int) == first_match(b@, pat@, i0 as int),
        decreases b@.len() + 1 - i,
    {
        if i > b.len() || pat.len() > b.len() - i {
            return None;
        }
        let mut k: usize = 0;
        let mut same = true;
        while k < pat.len()
            invariant
                i + pat@.len() <= b@.len(),
                b@.len() <= usize::MAX,
                k <= pat@.len(),
                same == forall|m: int| 0 <= m < k ==> b@[i + m] == pat@[m],
            decreases pat@.len() - k,
        {
            if b[i + k] != pat[k] {
                same = false;
            }
            k += 1;
        }
        if same {
            assert(b@.subrange(i as int, i + pat@.len()) =~= pat@);
            return Some(i);
        }
        proof {
            let m = choose|m: int| 0 <= m < pat@.len() && b@[i + m] != pat@[m];
            assert(b@.subrange(i as int, i + pat@.len())[m] != pat@[m]);
        }
        i += 1;
    }
}

/// Byte offsets `(start, end)` where `name` occurs in `script` as a
/// standalone identifier (see [`occurrences`]).
pub fn match_identifier_occurrences(script: &str, name: &str) -> (r: Vec<(usize, usize)>)
    ensures
        r@.map_values(|p: (usize, usize)| (p.0 as int, p.1 as int)) == occurrences(
            script.spec_bytes(),
            name.spec_bytes(),
            0,
        ),
{
    let bytes = script.as_bytes();
    let pat = name.as_bytes();
    let ghost b = bytes@;
    let ghost whole = occurrences(b, pat@, 0);
    let mut out: Vec<(usize, usize)> = Vec::new();
    if pat.len() == 0 {
        assert(out@.map_values(|p: (usize, usize)| (p.0 as int, p.1 as int)) =~= whole);
        return out;
    }
    let blen = bytes.len();
    let mut i: usize = 0;
    loop
        invariant
            pat@.len() > 0,
            b == bytes@,
            blen == b.len(),
            b == script.spec_bytes(),
            pat@ == name.spec_bytes(),
            whole == occurrences(b, pat@, 0),
            out@.map_values(|p: (usize, usize)| (p.0 as int, p.1 as int)) + occurrences(
                b,
                pat@,
                i as int,
            ) == whole,
        decreases b.len() + 1 - i,
    {
        let ghost before = out@.map_values(|p: (usize, usize)| (p.0 as int, p.1 as int));
        match first_match_from(bytes, pat, i) {
            None => {
                assert(out@.map_values(|p: (usize, usize)| (p.0 as int, p.1 as int)) =~= whole);
                return out;
            },
            Some(start) => {
                proof {
                    lemma_first_match_bounds(b, pat@, i as int);
                }
                let end = start + pat.len();
                let before_ok = start == 0 || !is_ident_byte(bytes[start - 1]);
                let after_ok = end >= bytes.len() || !is_ident_byte(bytes[end]);
                if before_ok && after_ok {
                    out.push((start, end));
                }
                assert(out@.map_values(|p: (usize, usize)| (p.0 as int, p.1 as int)) + occurrences(
                    b,
                    pat@,
                    end as int,
                ) =~= whole);
                i = end;
            },
        }
    }
}

/// `s` without its leading whitespace.
pub open spec fn skip_white(s: Seq<char>) -> Seq<char> {
    s.skip(white_prefix(s) as int)
}

/// `s` starts with `p`.
pub open spec fn starts(s: Seq<char>, p: Seq<char>) -> bool {
    p.len() <= s.len() && s.take(p.len() as int) == p
}

/// The array and collection methods that mutate their receiver.
pub open spec fn mutators() -> Seq<Seq<char>> {
    seq![
        "push"@,
        "pop"@,
        "shift"@,
        "unshift"@,
        "splice"@,
        "sort"@,
        "reverse"@,
        "fill"@,
        "copyWithin"@,
        "set"@,
        "add"@,
        "delete"@,
        "clear"@,
    ]
}

/// `rest` calls a mutating method: it starts with a mutator's name followed,
/// after any whitespace, by `(`.
pub open spec fn mutator_call(rest: Seq<char>) -> bool {
    exists|k: int|
        0 <= k < mutators().len() && starts(rest, #[trigger] mutators()[k]) && starts(
            skip_white(rest.skip(mutators()[k].len() as int)),
            seq!['('],
        )
}

/// An ASCII letter, `_` or `$`.
pub open spec fn ident_start_char(c: char) -> bool {
    ('a' <= c <= 'z') || ('A' <= c <= 'Z') || c == '_' || c == '$'
}

/// An ASCII letter or digit, `_` or `$`.
pub open spec fn ident_char(c: char) -> bool {
    ident_start_char(c) || ('0' <= c <= '9')
}

/// The length of the identifier `s` starts with, if it starts with one.
pub open spec fn ident_len(s: Seq<char>) -> Option<nat> {
    if s.len() > 0 && ident_start_char(s[0]) {
        Some(ident_run(s, 1))
    } else {
        None
    }
}

/// The end of the run of identifier characters of `s` from `i`.
pub open spec fn ident_run(s: Seq<char>, i: int) -> nat
    decreases s.len() - i,
{
    if 0 <= i < s.len() && ident_char(s[i]) {
        ident_run(s, i + 1)
    } else if i < 0 {
        0
    } else {
        i as nat
    }
}

proof fn lemma_ident_run_bound(s: Seq<char>, i: int)
    requires
        0 <= i <= s.len(),
    ensures
        i <= ident_run(s, i) <= s.len(),
    decreases s.len() - i,
{
    if i < s.len() && ident_char(s[i]) {
        lemma_ident_run_bound(s, i + 1);
    }
}

/// An assignment or increment operator: `=` (not `==`), `++`, `--`, `+=`,
/// `-=`, `*=` or `/=`.
pub open spec fn assign_op(p: Seq<char>) -> bool {
    (starts(p, seq!['=']) && !starts(p, seq!['=', '='])) || starts(p, seq!['+', '+']) || starts(
        p,
        seq!['-', '-'],
    ) || starts(p, seq!['+', '=']) || starts(p, seq!['-', '=']) || starts(p, seq!['*', '='])
        || starts(p, seq!['/', '='])
}

/// What follows an occurrence of a variable writes through it: `.method(`
/// with a mutating method, `.prop` followed by an assignment operator, or
/// `[`.
pub open spec fn deep_after(after: Seq<char>) -> bool {
    let a = skip_white(after);
    if starts(a, seq!['.']) {
        let rest = skip_white(a.drop_first());
        mutator_call(rest) || match ident_len(rest) {
            Some(n) => assign_op(skip_white(rest.skip(n as int))),
            None => false,
        }
    } else {
        starts(a, seq!['['])
    }
}

/// Some standalone occurrence of `name` in `script` is followed by a deep
/// write (see [`deep_after`]).
pub open spec fn deeply_mutated(script: Seq<u8>, name: Seq<u8>) -> bool {
    exists|k: int|
        0 <= k < occurrences(script, name, 0).len() && deep_after(
            text_of(script, #[trigger] occurrences(script, name, 0)[k].1, script.len() as int),
        )
}

proof fn lemma_white_prefix_bound(s: Seq<char>)
    ensures
        white_prefix(s) <= s.len(),
        forall|k: int| 0 <= k < white_prefix(s) ==> is_white(#[trigger] s[k]),
        white_prefix(s) < s.len() ==> !is_white(s[white_prefix(s) as int]),
    decreases s.len(),
{
    if s.len() > 0 && is_white(s[0]) {
        lemma_white_prefix_bound(s.drop_first());
        assert forall|k: int| 0 <= k < white_prefix(s) implies is_white(#[trigger] s[k]) by {
            if k > 0 {
                assert(s[k] == s.drop_first()[k - 1]);
            }
        }
        if white_prefix(s) < s.len() {
            assert(s[white_prefix(s) as int] == s.drop_first()[white_prefix(s) - 1]);
        }
    }
}

proof fn lemma_white_prefix_from(s: Seq<char>, i: int)
    requires
        0 <= i <= s.len(),
        forall|k: int| 0 <= k < i ==> is_white(#[trigger] s[k]),
        i == s.len() || !is_white(s[i]),
    ensures
        white_prefix(s) == i,
    decreases i,
{
    if i > 0 {
        lemma_white_prefix_from(s.drop_first(), i - 1);
    }
}

/// The index of the first non-whitespace character of `cs` at or after `i`.
fn skip_ws(cs: &[char], i: usize) -> (r: usize)
    requires
        i <= cs@.len(),
    ensures
        i <= r <= cs@.len(),
        cs@.skip(r as int) == skip_white(cs@.skip(i as int)),
{
    let mut j = i;
    while j < cs.len() && is_whitespace_char(cs[j])
        invariant
            i <= j <= cs@.len(),
            forall|k: int| i <= k < j ==> is_white(#[trigger] cs@[k]),
        decreases cs@.len() - j,
    {
        j += 1;
    }
    proof {
        let s = cs@.skip(i as int);
        assert forall|k: int| 0 <= k < j - i implies is_white(#[trigger] s[k]) by {
            assert(s[k] == cs@[i + k]);
        }
        if j < cs@.len() {
            assert(s[j - i] == cs@[j as int]);
        }
        lemma_white_prefix_from(s, j - i);
        assert(cs@.skip(j as int) =~= s.skip(j - i));
    }
    j
}

/// `cs[i..]` starts with `p`.
fn starts_at(cs: &[char], i: usize, p: &[char]) -> (r: bool)
    requires
        i <= cs@.len(),
    ensures
        r == starts(cs@.skip(i as int), p@),
{
    if p.len() > cs.len() - i {
        return false;
    }
    let mut k: usize = 0;
    while k < p.len()
        invariant
            i + p@.len() <= cs@.len(),
            cs@.len() <= usize::MAX,
            k <= p@.len(),
            forall|m: int| 0 <= m < k ==> cs@[i + m] == p@[m],
        decreases p@.len() - k,
    {
        if cs[i + k] != p[k] {
            assert(cs@.skip(i as int).take(p@.len() as int)[k as int] != p@[k as int]);
            return false;
        }
        k += 1;
    }
    assert(cs@.skip(i as int).take(p@.len() as int) =~= p@);
    true
}

/// `cs[i..]` calls a mutating method (see [`mutator_call`]).
fn mutator_call_at(cs: &[char], i: usize) -> (r: bool)
    requires
        i <= cs@.len(),
    ensures
        r == mutator_call(cs@.skip(i as int)),
{
    let ms: [&[char]; 13] = [
        &['p', 'u', 's', 'h'],
        &['p', 'o', 'p'],
        &['s', 'h', 'i', 'f', 't'],
        &['u', 'n', 's', 'h', 'i', 'f', 't'],
        &['s', 'p', 'l', 'i', 'c', 'e'],
        &['s', 'o', 'r', 't'],
        &['r', 'e', 'v', 'e', 'r', 's', 'e'],
        &['f', 'i', 'l', 'l'],
        &['c', 'o', 'p', 'y', 'W', 'i', 't', 'h', 'i', 'n'],
        &['s', 'e', 't'],
        &['a', 'd', 'd'],
        &['d', 'e', 'l', 'e', 't', 'e'],
        &['c', 'l', 'e', 'a', 'r'],
    ];
    proof {
        reveal_strlit("push");
        reveal_strlit("pop");
        reveal_strlit("shift");
        reveal_strlit("unshift");
        reveal_strlit("splice");
        reveal_strlit("sort");
        reveal_strlit("reverse");
        reveal_strlit("fill");
        reveal_strlit("copyWithin");
        reveal_strlit("set");
        reveal_strlit("add");
        reveal_strlit("delete");
        reveal_strlit("clear");
        assert forall|k: int| 0 <= k < 13 implies ms@[k]@ == #[trigger] mutators()[k] by {
            assert(ms@[0]@ =~= mutators()[0]);
            assert(ms@[1]@ =~= mutators()[1]);
            assert(ms@[2]@ =~= mutators()[2]);
            assert(ms@[3]@ =~= mutators()[3]);
            assert(ms@[4]@ =~= mutators()[4]);
            assert(ms@[5]@ =~= mutators()[5]);
            assert(ms@[6]@ =~= mutators()[6]);
            assert(ms@[7]@ =~= mutators()[7]);
            assert(ms@[8]@ =~= mutators()[8]);
            assert(ms@[9]@ =~= mutators()[9]);
            assert(ms@[10]@ =~= mutators()[10]);
            assert(ms@[11]@ =~= mutators()[11]);
            assert(ms@[12]@ =~= mutators()[12]);
        }
    }
    let ghost rest = cs@.skip(i as int);
    let mut k: usize = 0;
    while k < 13
        invariant
            k <= 13,
            i <= cs@.len(),
            rest == cs@.skip(i as int),
            forall|x: int| 0 <= x < 13 ==> ms@[x]@ == #[trigger] mutators()[x],
            forall|x: int|
                0 <= x < k ==> !(starts(rest, #[trigger] mutators()[x]) && starts(
                    skip_white(rest.skip(mutators()[x].len() as int)),
                    seq!['('],
                )),
        decreases 13 - k,
    {
        let m = ms[k];
        let n = cs.len();
        if starts_at(cs, i, m) {
            assert(m@.len() <= n - i);
            let j = skip_ws(cs, i + m.len());
            proof {
                assert(rest.skip(mutators()[k as int].len() as int) =~= cs@.skip(i + m@.len()));
                assert(seq!['('] =~= ['(']@);
            }
            if starts_at(cs, j, &['(']) {
                assert(starts(rest, mutators()[k as int]) && starts(
                    skip_white(rest.skip(mutators()[k as int].len() as int)),
                    seq!['('],
                ));
                return true;
            }
        }
        k += 1;
    }
    false
}

fn is_ident_char(d: char) -> (r: bool)
    ensures
        r == ident_char(d),
{
    ('a' <= d && d <= 'z') || ('A' <= d && d <= 'Z') || d == '_' || d == '$' || ('0' <= d && d <= '9')
}

/// The index just past the identifier `cs[i..]` starts with, if any.
fn skip_ident_at(cs: &[char], i: usize) -> (r: Option<usize>)
    requires
        i <= cs@.len(),
    ensures
        match ident_len(cs@.skip(i as int)) {
            Some(n) => r == Some((i + n) as usize),
            None => r is None,
        },
{
    let ghost s = cs@.skip(i as int);
    if i >= cs.len() {
        return None;
    }
    let c = cs[i];
    assert(s[0] == c);
    if !(('a' <= c && c <= 'z') || ('A' <= c && c <= 'Z') || c == '_' || c == '$') {
        return None;
    }
    let mut j = i + 1;
    while j < cs.len() && is_ident_char(cs[j])
        invariant
            i < j <= cs@.len(),
            s == cs@.skip(i as int),
            ident_run(s, (j - i) as int) == ident_run(s, 1),
        decreases cs@.len() - j,
    {
        assert(s[j - i] == cs@[j as int]);
        j += 1;
    }
    proof {
        if j < cs@.len() {
            assert(s[j - i] == cs@[j as int]);
        }
    }
    Some(j)
}

/// Whether `p[i..]` starts with an assignment or increment operator.
fn assign_op_at(cs: &[char], i: usize) -> (r: bool)
    requires
        i <= cs@.len(),
    ensures
        r == assign_op(cs@.skip(i as int)),
{
    assert(seq!['='] =~= ['=']@);
    assert(seq!['=', '='] =~= ['=', '=']@);
    assert(seq!['+', '+'] =~= ['+', '+']@);
    assert(seq!['-', '-'] =~= ['-', '-']@);
    assert(seq!['+', '='] =~= ['+', '=']@);
    assert(seq!['-', '='] =~= ['-', '=']@);
    assert(seq!['*', '='] =~= ['*', '=']@);
    assert(seq!['/', '='] =~= ['/', '=']@);
    (starts_at(cs, i, &['=']) && !starts_at(cs, i, &['=', '='])) || starts_at(cs, i, &['+', '+'])
        || starts_at(cs, i, &['-', '-']) || starts_at(cs, i, &['+', '=']) || starts_at(
        cs,
        i,
        &['-', '='],
    ) || starts_at(cs, i, &['*', '=']) || starts_at(cs, i, &['/', '='])
}

/// Whether the text `after` an occurrence writes through it (see
/// [`deep_after`]).
fn deep_after_check(after: &[char]) -> (r: bool)
    ensures
        r == deep_after(after@),
{
    let a = skip_ws(after, 0);
    proof {
        assert(after@.skip(0) =~= after@);
        assert(seq!['.'] =~= ['.']@);
        assert(seq!['['] =~= ['[']@);
    }
    let n = after.len();
    if starts_at(after, a, &['.']) {
        assert(a < n);
        let r0 = skip_ws(after, a + 1);
        proof {
            assert(after@.skip(a as int).drop_first() =~= after@.skip(a + 1));
        }
        if mutator_call_at(after, r0) {
            return true;
        }
        match skip_ident_at(after, r0) {
            Some(e) => {
                proof {
                    lemma_ident_run_bound(after@.skip(r0 as int), 1);
                }
                let p = skip_ws(after, e);
                proof {
                    let rest = after@.skip(r0 as int);
                    let n = ident_len(rest)->0;
                    assert(rest.skip(n as int) =~= after@.skip(e as int));
                }
                assign_op_at(after, p)
            },
            None => false,
        }
    } else {
        starts_at(after, a, &['['])
    }
}

/// Textual heuristic for deep mutation of `name` in `script` (see
/// [`deeply_mutated`]). Conservative; on a false negative a variable still
/// reacts to whole reassignment.
pub fn is_deeply_mutated(script: &str, name: &str) -> (r: bool)
    ensures
        r == deeply_mutated(script.spec_bytes(), name.spec_bytes()),
{
    let occ = match_identifier_occurrences(script, name);
    let ghost os = occurrences(script.spec_bytes(), name.spec_bytes(), 0);
    let n = script.as_bytes().len();
    let mut k: usize = 0;
    while k < occ.len()
        invariant
            k <= occ@.len(),
            os == occurrences(script.spec_bytes(), name.spec_bytes(), 0),
            occ@.map_values(|p: (usize, usize)| (p.0 as int, p.1 as int)) == os,
            n == script.spec_bytes().len(),
            forall|x: int|
                0 <= x < k ==> !deep_after(
                    text_of(script.spec_bytes(), #[trigger] os[x].1, n as int),
                ),
        decreases occ@.len() - k,
    {
        let end = occ[k].1;
        assert(os[k as int] == (occ@[k as int].0 as int, occ@[k as int].1 as int));
        let after = match slice_str(script, end, n) {
            Some(t) => {
                proof {
                    vstd::utf8::encode_utf8_decode_utf8(t@);
                }
                chars_of(t)
            },
            None => Vec::new(),
        };
        assert(after@ == text_of(script.spec_bytes(), end as int, n as int));
        if deep_after_check(&after) {
            return true;
        }
        k += 1;
    }
    false
}

/// The box helper of each reactive variable, with its index: `deepBox` when
/// `hint` deeply mutates it, else `box`.
pub open spec fn box_kinds(hint: Seq<u8>, vars: Seq<ReactiveVar>) -> Seq<(Seq<char>, u32)> {
    vars.map_values(
        |v: ReactiveVar|
            (
                if deeply_mutated(hint, vstd::utf8::encode_utf8(v.name@)) {
                    "deepBox"@
                } else {
                    "box"@
                },
                v.index,
            ),
    )
}

/// The box helper each reactive variable should use, in declaration order
/// (see [`box_kinds`]).
pub fn reactive_box_kinds(hint: &str, vars: &[ReactiveVar]) -> (r: Vec<(&'static str, u32)>)
    ensures
        r@.map_values(|p: (&'static str, u32)| (p.0@, p.1)) == box_kinds(hint.spec_bytes(), vars@),
{
    let mut out: Vec<(&'static str, u32)> = Vec::new();
    let mut k: usize = 0;
    while k < vars.len()
        invariant
            k <= vars@.len(),
            out@.map_values(|p: (&'static str, u32)| (p.0@, p.1)) == box_kinds(
                hint.spec_bytes(),
                vars@.take(k as int),
            ),
        decreases vars@.len() - k,
    {
        let kind = if is_deeply_mutated(hint, vars[k].name.as_str()) {
            "deepBox"
        } else {
            "box"
        };
        let ghost before = out@;
        out.push((kind, vars[k].index));
        proof {
            let f = |p: (&'static str, u32)| (p.0@, p.1);
            assert(out@.map_values(f) =~= before.map_values(f).push((kind@, vars@[k as int].index)));
            assert(vars@.take(k + 1) =~= vars@.take(k as int).push(vars@[k as int]));
            assert(box_kinds(hint.spec_bytes(), vars@.take(k + 1)) =~= box_kinds(
                hint.spec_bytes(),
                vars@.take(k as int),
            ).push(box_kinds(hint.spec_bytes(), vars@)[k as int]));
        }
        k += 1;
    }
    assert(vars@.take(vars@.len() as int) =~= vars@);
    out
}

} // verus!
