//! Names the emitter generates or must avoid: collision-free aliases for
//! runtime helpers and child components, the emitter's own generated locals,
//! the names a `:for` binding pattern binds, and whether an expression reads
//! any of a set of names.

use vstd::prelude::*;
use vstd::string::{StringExecFns, StrSliceExecFns};

use crate::script::analysis::{expr_source, free, free_identifiers, names, program, string_views};
use crate::script::json::str_eq;
use crate::text::{chars_of, concat3, push_char, trim_white, trimmed};

verus! {

/// `n` underscores.
pub open spec fn underscores(n: nat) -> Seq<char> {
    Seq::new(n, |i: int| '_')
}

/// `r` is `base` followed by the fewest underscores that make it a name not
/// in `reserved`.
pub open spec fn first_free(r: Seq<char>, base: Seq<char>, reserved: Seq<Seq<char>>) -> bool {
    exists|k: nat|
        {
            &&& r == base + underscores(k)
            &&& !reserved.contains(r)
            &&& forall|j: nat| j < k ==> reserved.contains(#[trigger] (base + underscores(j)))
        }
}

fn contains_string(v: &[String], s: &str) -> (r: bool)
    ensures
        r == string_views(v@).contains(s@),
{
    let mut i: usize = 0;
    while i < v.len()
        invariant
            i <= v@.len(),
            forall|k: int| 0 <= k < i ==> v@[k]@ != s@,
        decreases v@.len() - i,
    {
        if str_eq(v[i].as_str(), s) {
            assert(string_views(v@)[i as int] == s@);
            return true;
        }
        i += 1;
    }
    assert(!string_views(v@).contains(s@)) by {
        if string_views(v@).contains(s@) {
            let k = choose|k: int| 0 <= k < v@.len() && string_views(v@)[k] == s@;
            assert(v@[k]@ == s@);
        }
    }
    false
}

/// The length of the longest name in `v`.
pub open spec fn longest(v: Seq<Seq<char>>) -> nat
    decreases v.len(),
{
    if v.len() == 0 {
        0
    } else {
        let m = longest(v.drop_last());
        if v.last().len() > m {
            v.last().len()
        } else {
            m
        }
    }
}

proof fn lemma_longest(v: Seq<Seq<char>>, k: int)
    requires
        0 <= k < v.len(),
    ensures
        v[k].len() <= longest(v),
    decreases v.len(),
{
    if k < v.len() - 1 {
        lemma_longest(v.drop_last(), k);
    }
}

/// `base` followed by the fewest underscores that make a name not in
/// `reserved`.
fn fresh_name(base: String, reserved: &[String]) -> (r: String)
    ensures
        first_free(r@, base@, string_views(reserved@)),
{
    let ghost rv = string_views(reserved@);
    let mut name = base;
    let ghost mut k: nat = 0;
    assert(name@ =~= name@ + underscores(0));
    while contains_string(reserved, name.as_str())
        invariant
            rv == string_views(reserved@),
            name@ == base@ + underscores(k),
            forall|j: nat| j < k ==> rv.contains(#[trigger] (base@ + underscores(j))),
        decreases longest(rv) + 1 - name@.len(),
    {
        proof {
            let i = choose|i: int| 0 <= i < rv.len() && rv[i] == name@;
            lemma_longest(rv, i);
            assert forall|j: nat| j < k + 1 implies rv.contains(#[trigger] (base@ + underscores(j))) by {
                if j == k {
                    assert(base@ + underscores(j) == name@);
                }
            }
        }
        push_char(&mut name, '_');
        proof {
            k = k + 1;
            assert(name@ =~= base@ + underscores(k));
        }
    }
    name
}

/// A collision-free local alias for a runtime helper whose canonical name is
/// taken: `$` and the helper's name, then underscores until the name is not
/// reserved.
pub fn alias_name(helper: &str, reserved: &[String]) -> (r: String)
    ensures
        first_free(r@, seq!['$'] + helper@, string_views(reserved@)),
{
    let mut base = String::new();
    push_char(&mut base, '$');
    base.append(helper);
    fresh_name(base, reserved)
}

/// A name the emitter gives its own locals: `e`, `t`, `a`, `r` or `d`
/// followed by decimal digits.
pub open spec fn generated(s: Seq<char>) -> bool {
    &&& s.len() > 1
    &&& (s[0] == 'e' || s[0] == 't' || s[0] == 'a' || s[0] == 'r' || s[0] == 'd')
    &&& forall|i: int| 1 <= i < s.len() ==> '0' <= #[trigger] s[i] <= '9'
}

/// Whether a user name would collide with the emitter's generated locals.
pub fn is_generated_name(name: &str) -> (r: bool)
    ensures
        r == generated(name@),
{
    let cs = chars_of(name);
    if cs.len() < 2 {
        return false;
    }
    let c = cs[0];
    if !(c == 'e' || c == 't' || c == 'a' || c == 'r' || c == 'd') {
        return false;
    }
    let mut i: usize = 1;
    while i < cs.len()
        invariant
            1 <= i <= cs@.len(),
            cs@ == name@,
            forall|k: int| 1 <= k < i ==> '0' <= #[trigger] cs@[k] <= '9',
        decreases cs@.len() - i,
    {
        if !('0' <= cs[i] && cs[i] <= '9') {
            return false;
        }
        i += 1;
    }
    true
}

/// The local name a child component is imported under: its tag, unless the
/// tag is reserved or looks like a generated local; then the tag, `$`, and
/// the fewest underscores that make it free.
pub open spec fn child_local(r: Seq<char>, tag: Seq<char>, reserved: Seq<Seq<char>>) -> bool {
    if !reserved.contains(tag) && !generated(tag) {
        r == tag
    } else {
        first_free(r, tag + seq!['$'], reserved)
    }
}

/// The local name a child component is imported under (see [`child_local`]).
pub fn child_local_name(tag: &str, reserved: &[String]) -> (r: String)
    ensures
        child_local(r@, tag@, string_views(reserved@)),
{
    if !contains_string(reserved, tag) && !is_generated_name(tag) {
        return String::from_str(tag);
    }
    let mut base = String::from_str(tag);
    push_char(&mut base, '$');
    assert(base@ =~= tag@ + seq!['$']);
    fresh_name(base, reserved)
}

/// `path` without its first `strip` indices (nothing if it is shorter).
pub fn strip_path(path: &[u32], strip: usize) -> (r: &[u32])
    ensures
        r@ == (if path@.len() >= strip {
            path@.skip(strip as int)
        } else {
            Seq::empty()
        }),
{
    if path.len() >= strip {
        let (_, rest) = path.split_at(strip);
        rest
    } else {
        &[]
    }
}

/// The names a `:for` binding pattern binds: the free identifiers of the
/// pattern read as a parenthesized expression (none for an empty pattern or
/// one that does not parse).
pub open spec fn pattern_names(pattern: Seq<char>) -> Seq<Seq<char>> {
    let p = trim_white(pattern);
    if p.len() == 0 {
        Seq::empty()
    } else {
        match program(expr_source("("@ + p + ")"@)) {
            Ok((m, _)) => names(free(m, Seq::empty())),
            Err(_) => Seq::empty(),
        }
    }
}

/// The names a `:for` binding pattern binds (see [`pattern_names`]).
pub fn binding_names(pattern: &str) -> (r: Vec<String>)
    ensures
        string_views(r@) == pattern_names(pattern@),
{
    let p = trimmed(pattern);
    if p.unicode_len() == 0 {
        return Vec::new();
    }
    let as_expr = concat3("(", p.as_str(), ")");
    match free_identifiers(as_expr.as_str()) {
        Ok(v) => v,
        Err(_) => Vec::new(),
    }
}

/// Whether `expr` reads any of `names`; an expression that does not parse is
/// assumed to read them.
pub open spec fn reads(expr: Seq<char>, names_read: Seq<Seq<char>>) -> bool {
    if names_read.len() == 0 {
        false
    } else {
        match program(expr_source(expr)) {
            Ok((m, _)) => exists|i: int|
                0 <= i < free(m, Seq::empty()).len() && names_read.contains(
                    #[trigger] free(m, Seq::empty())[i].name,
                ),
            Err(_) => true,
        }
    }
}

/// Whether `expr` reads any of the (loop-binding) `names` (see [`reads`]).
#[verifier::loop_isolation(false)]
pub fn reads_any(expr: &str, names_read: &[String]) -> (r: bool)
    ensures
        r == reads(expr@, string_views(names_read@)),
{
    if names_read.len() == 0 {
        return false;
    }
    match free_identifiers(expr) {
        Ok(found) => {
            let ghost m = match program(expr_source(expr@)) {
                Ok((m, _)) => m,
                Err(_) => arbitrary(),
            };
            let mut i: usize = 0;
            while i < found.len()
                invariant
                    i <= found@.len(),
                    string_views(found@) == names(free(m, Seq::empty())),
                    forall|k: int|
                        0 <= k < i ==> !string_views(names_read@).contains(
                            #[trigger] free(m, Seq::empty())[k].name,
                        ),
                decreases found@.len() - i,
            {
                let ghost fr = free(m, Seq::empty());
                proof {
                    assert(names(fr).len() == fr.len());
                    assert(names(fr)[i as int] == fr[i as int].name);
                    assert(string_views(found@)[i as int] == found@[i as int]@);
                }
                if contains_string(names_read, found[i].as_str()) {
                    proof {
                        assert(string_views(found@).len() == found@.len());
                        assert(0 <= i < fr.len() && string_views(names_read@).contains(
                            fr[i as int].name,
                        ));
                    }
                    return true;
                }
                i += 1;
            }
            proof {
                let fr = free(m, Seq::empty());
                assert(names(fr).len() == fr.len());
                assert(string_views(found@).len() == found@.len());
            }
            false
        },
        Err(_) => true,
    }
}

} // verus!
