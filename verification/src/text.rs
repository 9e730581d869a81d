//! Character-level text helpers shared by the parsers: slicing by byte range,
//! ASCII case folding, and Unicode whitespace.

use vstd::prelude::*;
use vstd::string::{StrSliceExecFns, StringExecFns, StringSliceAdditionalSpecFns};

use crate::span::{on_boundary, TextRange};

verus! {

broadcast use vstd::string::group_string_axioms;

/// The characters of `b[lo..hi]`, or nothing when that is not a well-formed
/// slice (reversed, out of bounds, or cutting through a character).
pub open spec fn text_of(b: Seq<u8>, lo: int, hi: int) -> Seq<char> {
    if 0 <= lo <= hi <= b.len() && on_boundary(b, lo) && on_boundary(b, hi) {
        vstd::utf8::decode_utf8(b.subrange(lo, hi))
    } else {
        Seq::empty()
    }
}

/// The characters a range covers in the text whose bytes are `b`.
pub open spec fn range_text(b: Seq<u8>, r: TextRange) -> Seq<char> {
    text_of(b, r.lo(), r.hi())
}

/// ASCII lowercase of one character; every other character is unchanged.
pub open spec fn lower_char(c: char) -> char {
    if 65 <= c as u32 <= 90 {
        ((c as u32) + 32) as char
    } else {
        c
    }
}

pub open spec fn lower_chars(s: Seq<char>) -> Seq<char> {
    s.map_values(|c: char| lower_char(c))
}

/// Unicode `White_Space`: the characters `char::is_whitespace` accepts.
pub open spec fn is_white(c: char) -> bool {
    let u = c as u32;
    (9 <= u <= 13) || u == 32 || u == 0x85 || u == 0xA0 || u == 0x1680 || (0x2000 <= u <= 0x200A)
        || u == 0x2028 || u == 0x2029 || u == 0x202F || u == 0x205F || u == 0x3000
}

/// Every character of `s` is whitespace (so `s.trim()` is empty).
pub open spec fn all_white(s: Seq<char>) -> bool {
    forall|i: int| 0 <= i < s.len() ==> is_white(#[trigger] s[i])
}

/// Unicode whitespace, as `char::is_whitespace` defines it.
pub fn is_whitespace_char(c: char) -> (r: bool)
    ensures
        r == is_white(c),
{
    let u = c as u32;
    (9 <= u && u <= 13) || u == 32 || u == 0x85 || u == 0xA0 || u == 0x1680 || (0x2000 <= u && u
        <= 0x200A) || u == 0x2028 || u == 0x2029 || u == 0x202F || u == 0x205F || u == 0x3000
}

/// Whether `s` consists of whitespace only (`s.trim().is_empty()`).
pub fn is_blank(s: &str) -> (r: bool)
    ensures
        r == all_white(s@),
{
    for c in it: s.chars()
        invariant
            it.seq() == s@,
            forall|i: int| 0 <= i < it.index() ==> is_white(#[trigger] s@[i]),
    {
        if !is_whitespace_char(c) {
            return false;
        }
    }
    true
}

/// The text of `source` inside `range`, or an empty string when the range is
/// not a well-formed slice of it.
pub fn slice_owned(source: &str, range: TextRange) -> (r: String)
    ensures
        r@ == range_text(source.spec_bytes(), range),
{
    match range.slice(source) {
        Some(t) => {
            proof {
                vstd::utf8::encode_utf8_decode_utf8(t@);
            }
            String::from_str(t)
        },
        None => String::new(),
    }
}

/// ASCII lowercase of one character.
fn lower_one(c: char) -> (r: char)
    ensures
        r == lower_char(c),
{
    if 'A' <= c && c <= 'Z' {
        let u = c as u8;
        (u + 32) as char
    } else {
        c
    }
}

/// A copy of `s` in which `A`–`Z` become `a`–`z` and every other character
/// is unchanged (`str::to_ascii_lowercase`).
pub(crate) fn to_ascii_lowercase(s: &str) -> (r: String)
    ensures
        r@ == lower_chars(s@),
{
    let cs = chars_of(s);
    let mut out = String::new();
    let mut i: usize = 0;
    while i < cs.len()
        invariant
            i <= cs@.len(),
            cs@ == s@,
            out@ == lower_chars(cs@.take(i as int)),
        decreases cs@.len() - i,
    {
        push_char(&mut out, lower_one(cs[i]));
        assert(lower_chars(cs@.take(i + 1)) =~= lower_chars(cs@.take(i as int)).push(lower_char(cs@[i as int])));
        i += 1;
    }
    assert(cs@.take(cs@.len() as int) =~= cs@);
    out
}

/// `s` spells exactly the characters of `word`.
pub fn str_is(s: &str, word: &[char]) -> (r: bool)
    ensures
        r == (s@ == word@),
{
    let n = s.unicode_len();
    if n != word.len() {
        return false;
    }
    let mut i: usize = 0;
    while i < n
        invariant
            n == s@.len(),
            n == word@.len(),
            i <= n,
            forall|k: int| 0 <= k < i ==> s@[k] == word@[k],
        decreases n - i,
    {
        if s.get_char(i) != word[i] {
            return false;
        }
        i += 1;
    }
    assert(s@ =~= word@);
    true
}

/// The concatenation `a + b + c` as a new string.
pub fn concat3(a: &str, b: &str, c: &str) -> (r: String)
    ensures
        r@ == a@ + b@ + c@,
{
    let mut s = String::from_str(a);
    s.append(b);
    s.append(c);
    s
}

/// The concatenation `a + b + c + d + e` as a new string.
pub fn concat5(a: &str, b: &str, c: &str, d: &str, e: &str) -> (r: String)
    ensures
        r@ == a@ + b@ + c@ + d@ + e@,
{
    let mut s = String::from_str(a);
    s.append(b);
    s.append(c);
    s.append(d);
    s.append(e);
    s
}


/// `String::push`: appends `c` to the end of `s`.
#[verifier::external_body]
pub(crate) fn push_char(s: &mut String, c: char)
    ensures
        final(s)@ == old(s)@.push(c),
{
    s.push(c);
}

/// The characters of `s`.
pub fn chars_of(s: &str) -> (r: Vec<char>)
    ensures
        r@ == s@,
{
    let mut r: Vec<char> = Vec::new();
    for c in it: s.chars()
        invariant
            it.seq() == s@,
            r@ == s@.subrange(0, it.index() as int),
    {
        r.push(c);
        assert(r@ =~= s@.subrange(0, it.index() + 1));
    }
    assert(r@ =~= s@);
    r
}

/// A string of the characters `cs[lo..hi]`.
pub fn string_of(cs: &[char], lo: usize, hi: usize) -> (r: String)
    requires
        lo <= hi <= cs@.len(),
    ensures
        r@ == cs@.subrange(lo as int, hi as int),
{
    let mut r = String::new();
    let mut i = lo;
    while i < hi
        invariant
            lo <= i <= hi <= cs@.len(),
            r@ == cs@.subrange(lo as int, i as int),
        decreases hi - i,
    {
        push_char(&mut r, cs[i]);
        assert(r@ =~= cs@.subrange(lo as int, i + 1));
        i += 1;
    }
    r
}

/// The number of whitespace characters `s` starts with.
pub open spec fn white_prefix(s: Seq<char>) -> nat
    decreases s.len(),
{
    if s.len() > 0 && is_white(s[0]) {
        1 + white_prefix(s.drop_first())
    } else {
        0
    }
}

/// The number of whitespace characters `s` ends with.
pub open spec fn white_suffix(s: Seq<char>) -> nat
    decreases s.len(),
{
    if s.len() > 0 && is_white(s.last()) {
        1 + white_suffix(s.drop_last())
    } else {
        0
    }
}

/// `s` without leading and trailing whitespace (`str::trim`).
pub open spec fn trim_white(s: Seq<char>) -> Seq<char> {
    if white_prefix(s) == s.len() {
        Seq::empty()
    } else {
        s.subrange(white_prefix(s) as int, s.len() - white_suffix(s))
    }
}

proof fn lemma_white_suffix_bound(s: Seq<char>)
    ensures
        white_suffix(s) <= s.len(),
        forall|k: int| s.len() - white_suffix(s) <= k < s.len() ==> is_white(#[trigger] s[k]),
    decreases s.len(),
{
    if s.len() > 0 && is_white(s.last()) {
        lemma_white_suffix_bound(s.drop_last());
        assert forall|k: int| s.len() - white_suffix(s) <= k < s.len() implies is_white(#[trigger] s[k]) by {
            if k < s.len() - 1 {
                assert(s[k] == s.drop_last()[k]);
            }
        }
    }
}

proof fn lemma_white_prefix_facts(s: Seq<char>)
    ensures
        white_prefix(s) <= s.len(),
        white_prefix(s) < s.len() ==> !is_white(s[white_prefix(s) as int]),
    decreases s.len(),
{
    if s.len() > 0 && is_white(s[0]) {
        lemma_white_prefix_facts(s.drop_first());
        if white_prefix(s) < s.len() {
            assert(s[white_prefix(s) as int] == s.drop_first()[white_prefix(s) - 1]);
        }
    }
}

/// Trimming keeps a middle part: `trim_white(s)` is `s[p..q]` for some
/// `p <= q`, and when it is not empty neither of its ends is whitespace.
pub proof fn lemma_trim_shape(s: Seq<char>)
    ensures
        exists|p: int, q: int| 0 <= p <= q <= s.len() && trim_white(s) == s.subrange(p, q),
        trim_white(s).len() > 0 ==> !is_white(trim_white(s)[0]) && !is_white(trim_white(s).last()),
{
    lemma_white_prefix_facts(s);
    lemma_white_suffix_bound(s);
    let p = white_prefix(s) as int;
    let q = white_suffix(s) as int;
    if p == s.len() {
        assert(trim_white(s) == s.subrange(0, 0));
    } else {
        if s.len() - q <= p {
            assert(is_white(s[p]));
        }
        assert(p < s.len() - q);
        let t = trim_white(s);
        assert(t == s.subrange(p, s.len() - q));
        assert(t[0] == s[p]);
        if is_white(t.last()) {
            assert(t.last() == s[s.len() - q - 1]);
            lemma_white_suffix_step(s, q);
        }
    }
}

/// Trimming twice is trimming once.
pub proof fn law_trim_idempotent(s: Seq<char>)
    ensures
        trim_white(trim_white(s)) == trim_white(s),
{
    lemma_trim_shape(s);
    let t = trim_white(s);
    if t.len() == 0 {
        assert(white_prefix(t) == 0);
        assert(trim_white(t) =~= t);
    } else {
        lemma_white_prefix_step(t, 0);
        lemma_white_suffix_step(t, 0);
        assert(t.subrange(0, t.len() as int) =~= t);
    }
}

/// UTF-8 encoding distributes over concatenation.
pub proof fn lemma_encode_concat(a: Seq<char>, b: Seq<char>)
    ensures
        vstd::utf8::encode_utf8(a + b) == vstd::utf8::encode_utf8(a) + vstd::utf8::encode_utf8(b),
    decreases a.len(),
{
    if a.len() == 0 {
        assert(a + b =~= b);
        assert(vstd::utf8::encode_utf8(a) + vstd::utf8::encode_utf8(b) =~= vstd::utf8::encode_utf8(b));
    } else {
        assert((a + b).drop_first() =~= a.drop_first() + b);
        assert((a + b)[0] == a[0]);
        lemma_encode_concat(a.drop_first(), b);
        assert(vstd::utf8::encode_utf8(a + b) =~= vstd::utf8::encode_utf8(a) + vstd::utf8::encode_utf8(b));
    }
}

/// A part of a text encodes to no more bytes than the text.
pub proof fn lemma_encode_sub_len(s: Seq<char>, i: int, j: int)
    requires
        0 <= i <= j <= s.len(),
    ensures
        vstd::utf8::encode_utf8(s.subrange(i, j)).len() <= vstd::utf8::encode_utf8(s).len(),
{
    let (x, y, z) = (s.subrange(0, i), s.subrange(i, j), s.subrange(j, s.len() as int));
    assert(s =~= (x + y) + z);
    lemma_encode_concat(x + y, z);
    lemma_encode_concat(x, y);
}

/// Trimming never lengthens the encoding.
pub proof fn lemma_trim_encode_len(s: Seq<char>)
    ensures
        vstd::utf8::encode_utf8(trim_white(s)).len() <= vstd::utf8::encode_utf8(s).len(),
{
    lemma_trim_shape(s);
    let (p, q) = choose|p: int, q: int| 0 <= p <= q <= s.len() && trim_white(s) == s.subrange(p, q);
    lemma_encode_sub_len(s, p, q);
}

/// A well-formed slice of valid UTF-8 decodes to text that encodes back to
/// the slice.
pub proof fn lemma_text_of_encode(b: Seq<u8>, lo: int, hi: int)
    requires
        vstd::utf8::valid_utf8(b),
        0 <= lo <= hi <= b.len(),
        on_boundary(b, lo),
        on_boundary(b, hi),
    ensures
        vstd::utf8::encode_utf8(text_of(b, lo, hi)) == b.subrange(lo, hi),
{
    vstd::utf8::valid_utf8_split(b, lo);
    let s1 = b.subrange(lo, b.len() as int);
    let sub = b.subrange(lo, hi);
    if hi < b.len() {
        vstd::utf8::is_char_boundary_iff_not_is_continuation_byte(b, hi);
        vstd::utf8::is_char_boundary_iff_not_is_continuation_byte(s1, hi - lo);
        assert(s1[hi - lo] == b[hi]);
        vstd::utf8::valid_utf8_split(s1, hi - lo);
        assert(s1.subrange(0, hi - lo) =~= sub);
    } else {
        assert(s1 =~= sub);
    }
    vstd::utf8::decode_utf8_encode_utf8(sub);
}

pub proof fn lemma_white_prefix_step(s: Seq<char>, i: int)
    requires
        0 <= i < s.len(),
        forall|k: int| 0 <= k < i ==> is_white(#[trigger] s[k]),
    ensures
        is_white(s[i]) ==> white_prefix(s) > i,
        !is_white(s[i]) ==> white_prefix(s) == i,
    decreases i,
{
    if i > 0 {
        lemma_white_prefix_step(s.drop_first(), i - 1);
    }
}

pub proof fn lemma_white_prefix_all(s: Seq<char>)
    requires
        all_white(s),
    ensures
        white_prefix(s) == s.len(),
    decreases s.len(),
{
    if s.len() > 0 {
        lemma_white_prefix_all(s.drop_first());
    }
}

proof fn lemma_white_suffix_step(s: Seq<char>, i: int)
    requires
        0 <= i < s.len(),
        forall|k: int| s.len() - i <= k < s.len() ==> is_white(#[trigger] s[k]),
    ensures
        is_white(s[s.len() - 1 - i]) ==> white_suffix(s) > i,
        !is_white(s[s.len() - 1 - i]) ==> white_suffix(s) == i,
    decreases i,
{
    if i > 0 {
        lemma_white_suffix_step(s.drop_last(), i - 1);
    }
}

/// The bounds of `trim_white(cs[lo..hi])` within `cs`.
pub fn trim_range(cs: &[char], lo: usize, hi: usize) -> (r: (usize, usize))
    requires
        lo <= hi <= cs@.len(),
    ensures
        lo <= r.0 <= r.1 <= hi,
        cs@.subrange(r.0 as int, r.1 as int) == trim_white(cs@.subrange(lo as int, hi as int)),
{
    let ghost s = cs@.subrange(lo as int, hi as int);
    let mut a = lo;
    while a < hi && is_whitespace_char(cs[a])
        invariant
            lo <= a <= hi <= cs@.len(),
            s == cs@.subrange(lo as int, hi as int),
            forall|k: int| 0 <= k < a - lo ==> is_white(#[trigger] s[k]),
        decreases hi - a,
    {
        a += 1;
    }
    if a == hi {
        proof {
            lemma_white_prefix_all(s);
        }
        return (hi, hi);
    }
    proof {
        lemma_white_prefix_step(s, a - lo);
    }
    let mut b = hi;
    while b > a && is_whitespace_char(cs[b - 1])
        invariant
            lo <= a < hi,
            a <= b <= hi <= cs@.len(),
            s == cs@.subrange(lo as int, hi as int),
            !is_white(s[a - lo]),
            forall|k: int| b - lo <= k < s.len() ==> is_white(#[trigger] s[k]),
        decreases b - a,
    {
        b -= 1;
    }
    proof {
        assert(b > a);
        lemma_white_suffix_step(s, hi - b);
        assert(cs@.subrange(a as int, b as int) =~= s.subrange(a - lo, s.len() - (hi - b)));
    }
    (a, b)
}

/// `pat` occurs in `s` at `k`.
pub open spec fn occurs_at(s: Seq<char>, pat: Seq<char>, k: int) -> bool {
    0 <= k && k + pat.len() <= s.len() && s.subrange(k, k + pat.len()) == pat
}

/// `pat` occurs in `s` at `k` and nowhere before.
pub open spec fn first_at(s: Seq<char>, pat: Seq<char>, k: int) -> bool {
    &&& occurs_at(s, pat, k)
    &&& forall|j: int| 0 <= j < k ==> !#[trigger] occurs_at(s, pat, j)
}

/// Where `pat` first occurs in `s`.
pub open spec fn find(s: Seq<char>, pat: Seq<char>) -> Option<int> {
    if exists|k: int| first_at(s, pat, k) {
        Some(choose|k: int| first_at(s, pat, k))
    } else {
        None
    }
}

proof fn lemma_first_unique(s: Seq<char>, pat: Seq<char>, k1: int, k2: int)
    requires
        first_at(s, pat, k1),
        first_at(s, pat, k2),
    ensures
        k1 == k2,
{
    if k1 < k2 {
        assert(occurs_at(s, pat, k1));
    } else if k2 < k1 {
        assert(occurs_at(s, pat, k2));
    }
}

/// `cs[lo + k..]` starts with `pat`.
fn matches_at(cs: &[char], i: usize, hi: usize, pat: &[char]) -> (r: bool)
    requires
        i <= hi <= cs@.len(),
    ensures
        r == (i + pat@.len() <= hi && cs@.subrange(i as int, i + pat@.len()) == pat@),
{
    if pat.len() > hi - i {
        return false;
    }
    let mut k: usize = 0;
    while k < pat.len()
        invariant
            i + pat@.len() <= hi <= cs@.len(),
            k <= pat@.len(),
            forall|m: int| 0 <= m < k ==> cs@[i + m] == pat@[m],
        decreases pat@.len() - k,
    {
        if cs[i + k] != pat[k] {
            assert(cs@.subrange(i as int, i + pat@.len())[k as int] != pat@[k as int]);
            return false;
        }
        k += 1;
    }
    assert(cs@.subrange(i as int, i + pat@.len()) =~= pat@);
    true
}

/// Where `pat` first occurs in `cs[lo..hi]` (an offset from `lo`).
pub fn find_in(cs: &[char], lo: usize, hi: usize, pat: &[char]) -> (r: Option<usize>)
    requires
        lo <= hi <= cs@.len(),
    ensures
        r matches Some(k) ==> find(cs@.subrange(lo as int, hi as int), pat@) == Some(k as int),
        r is None ==> find(cs@.subrange(lo as int, hi as int), pat@) is None,
{
    let ghost s = cs@.subrange(lo as int, hi as int);
    let mut i = lo;
    loop
        invariant
            lo <= i <= hi,
            hi <= cs@.len(),
            s == cs@.subrange(lo as int, hi as int),
            forall|j: int| 0 <= j < i - lo ==> !#[trigger] occurs_at(s, pat@, j),
        decreases hi - i,
    {
        let m = matches_at(cs, i, hi, pat);
        let ghost k = (i - lo) as int;
        proof {
            if k + pat@.len() <= s.len() {
                assert(s.subrange(k, k + pat@.len()) =~= cs@.subrange(i as int, i + pat@.len()));
            }
        }
        if m {
            proof {
                assert(first_at(s, pat@, k));
                assert forall|k2: int| first_at(s, pat@, k2) implies k2 == k by {
                    lemma_first_unique(s, pat@, k, k2);
                }
            }
            return Some(i - lo);
        }
        if i == hi {
            proof {
                assert forall|k2: int| !first_at(s, pat@, k2) by {
                    if first_at(s, pat@, k2) {
                        assert(occurs_at(s, pat@, k2));
                    }
                }
            }
            return None;
        }
        i += 1;
    }
}


/// Whether `c` has the Unicode `Alphabetic` property.
pub uninterp spec fn alphabetic(c: char) -> bool;

/// Whether `c` is `Alphabetic` or numeric (Unicode general categories `Nd`,
/// `Nl`, `No`).
pub uninterp spec fn alphanumeric(c: char) -> bool;

/// `char::is_alphabetic`; the contract only names its result (`alphabetic`).
#[verifier::external_body]
pub(crate) fn is_alphabetic(c: char) -> (r: bool)
    ensures
        r == alphabetic(c),
{
    c.is_alphabetic()
}

/// `char::is_alphanumeric`; the contract only names its result
/// (`alphanumeric`).
#[verifier::external_body]
pub(crate) fn is_alphanumeric(c: char) -> (r: bool)
    ensures
        r == alphanumeric(c),
{
    c.is_alphanumeric()
}

/// The number of leading characters of `s` equal to `c`.
pub open spec fn count_lead(s: Seq<char>, c: char) -> nat
    decreases s.len(),
{
    if s.len() > 0 && s[0] == c {
        1 + count_lead(s.drop_first(), c)
    } else {
        0
    }
}

/// The number of trailing characters of `s` equal to `c`.
pub open spec fn count_trail(s: Seq<char>, c: char) -> nat
    decreases s.len(),
{
    if s.len() > 0 && s.last() == c {
        1 + count_trail(s.drop_last(), c)
    } else {
        0
    }
}

/// `s` without leading and trailing `c` (`str::trim_matches` with one char).
pub open spec fn trim_char(s: Seq<char>, c: char) -> Seq<char> {
    if count_lead(s, c) == s.len() {
        Seq::empty()
    } else {
        s.subrange(count_lead(s, c) as int, s.len() - count_trail(s, c))
    }
}

proof fn lemma_count_lead_step(s: Seq<char>, c: char, i: int)
    requires
        0 <= i < s.len(),
        forall|k: int| 0 <= k < i ==> #[trigger] s[k] == c,
    ensures
        s[i] == c ==> count_lead(s, c) > i,
        s[i] != c ==> count_lead(s, c) == i,
    decreases i,
{
    if i > 0 {
        lemma_count_lead_step(s.drop_first(), c, i - 1);
    }
}

proof fn lemma_count_lead_all(s: Seq<char>, c: char)
    requires
        forall|k: int| 0 <= k < s.len() ==> #[trigger] s[k] == c,
    ensures
        count_lead(s, c) == s.len(),
    decreases s.len(),
{
    if s.len() > 0 {
        lemma_count_lead_all(s.drop_first(), c);
    }
}

proof fn lemma_count_trail_step(s: Seq<char>, c: char, i: int)
    requires
        0 <= i < s.len(),
        forall|k: int| s.len() - i <= k < s.len() ==> #[trigger] s[k] == c,
    ensures
        s[s.len() - 1 - i] == c ==> count_trail(s, c) > i,
        s[s.len() - 1 - i] != c ==> count_trail(s, c) == i,
    decreases i,
{
    if i > 0 {
        lemma_count_trail_step(s.drop_last(), c, i - 1);
    }
}

/// The bounds of `trim_char(cs, c)` within `cs`.
pub fn trim_char_range(cs: &[char], c: char) -> (r: (usize, usize))
    ensures
        r.0 <= r.1 <= cs@.len(),
        cs@.subrange(r.0 as int, r.1 as int) == trim_char(cs@, c),
{
    let n = cs.len();
    let mut a: usize = 0;
    while a < n && cs[a] == c
        invariant
            a <= n == cs@.len(),
            forall|k: int| 0 <= k < a ==> #[trigger] cs@[k] == c,
        decreases n - a,
    {
        a += 1;
    }
    if a == n {
        proof {
            lemma_count_lead_all(cs@, c);
        }
        return (n, n);
    }
    proof {
        lemma_count_lead_step(cs@, c, a as int);
    }
    let mut b = n;
    while b > a && cs[b - 1] == c
        invariant
            a < n == cs@.len(),
            a <= b <= n,
            cs@[a as int] != c,
            forall|k: int| b <= k < n ==> #[trigger] cs@[k] == c,
        decreases b - a,
    {
        b -= 1;
    }
    proof {
        lemma_count_trail_step(cs@, c, n - b);
    }
    (a, b)
}


/// `s` without leading and trailing whitespace, as a new string.
pub fn trimmed(s: &str) -> (r: String)
    ensures
        r@ == trim_white(s@),
{
    let cs = chars_of(s);
    proof {
        assert(cs@.subrange(0, cs@.len() as int) =~= cs@);
    }
    let (a, b) = trim_range(&cs, 0, cs.len());
    string_of(&cs, a, b)
}


/// Trimming `c` leaves text that neither starts nor ends with `c`.
pub proof fn law_trim_char(s: Seq<char>, c: char)
    ensures
        trim_char(s, c).len() > 0 ==> trim_char(s, c)[0] != c && trim_char(s, c).last() != c,
{
    lemma_count_lead_facts(s, c);
    lemma_count_trail_facts(s, c);
    let a = count_lead(s, c) as int;
    let t = count_trail(s, c) as int;
    if a < s.len() {
        assert(s[a] != c);
        assert(a < s.len() - t);
        let r = trim_char(s, c);
        assert(r[0] == s[a]);
        assert(r.last() == s[s.len() - t - 1]);
    }
}

proof fn lemma_count_lead_facts(s: Seq<char>, c: char)
    ensures
        count_lead(s, c) <= s.len(),
        count_lead(s, c) < s.len() ==> s[count_lead(s, c) as int] != c,
        forall|k: int| 0 <= k < count_lead(s, c) ==> #[trigger] s[k] == c,
    decreases s.len(),
{
    if s.len() > 0 && s[0] == c {
        lemma_count_lead_facts(s.drop_first(), c);
        if count_lead(s, c) < s.len() {
            assert(s[count_lead(s, c) as int] == s.drop_first()[count_lead(s, c) - 1]);
        }
        assert forall|k: int| 0 <= k < count_lead(s, c) implies #[trigger] s[k] == c by {
            if k > 0 {
                assert(s[k] == s.drop_first()[k - 1]);
            }
        }
    }
}

proof fn lemma_count_trail_facts(s: Seq<char>, c: char)
    ensures
        count_trail(s, c) <= s.len(),
        count_trail(s, c) < s.len() ==> s[s.len() - 1 - count_trail(s, c)] != c,
        forall|k: int| s.len() - count_trail(s, c) <= k < s.len() ==> #[trigger] s[k] == c,
    decreases s.len(),
{
    if s.len() > 0 && s.last() == c {
        lemma_count_trail_facts(s.drop_last(), c);
        assert forall|k: int| s.len() - count_trail(s, c) <= k < s.len() implies #[trigger] s[k]
            == c by {
            if k < s.len() - 1 {
                assert(s[k] == s.drop_last()[k]);
            }
        }
        if count_trail(s, c) < s.len() {
            assert(s[s.len() - 1 - count_trail(s, c)] == s.drop_last()[s.drop_last().len() - 1
                - count_trail(s.drop_last(), c)]);
        }
    }
}

} // verus!
