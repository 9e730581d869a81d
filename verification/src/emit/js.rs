//! JavaScript text: string literals, template-literal chunks, object keys,
//! decimal numbers, array literals and `childNodes` navigation.

use vstd::prelude::*;
use vstd::string::StringExecFns;

use crate::text::{chars_of, push_char};

verus! {

/// The decimal digit character of `d`.
pub open spec fn digit(d: nat) -> char {
    (48 + d) as char
}

/// The decimal text of `n`.
pub open spec fn dec(n: nat) -> Seq<char>
    decreases n,
{
    if n < 10 {
        seq![digit(n)]
    } else {
        dec(n / 10).push(digit(n % 10))
    }
}

/// The decimal text of `n`.
pub fn u32_text(n: u32) -> (r: String)
    ensures
        r@ == dec(n as nat),
{
    usize_text(n as usize)
}

/// The decimal text of `n`.
pub fn usize_text(n: usize) -> (r: String)
    ensures
        r@ == dec(n as nat),
{
    // Digits from the least significant one.
    let mut rev: Vec<char> = Vec::new();
    let mut m = n;
    let ghost mut done: Seq<char> = Seq::empty();
    loop
        invariant_except_break
            dec(n as nat) == dec(m as nat) + done,
        invariant
            rev@ == done.reverse(),
        ensures
            dec(n as nat) == done,
        decreases m,
    {
        let d = m % 10;
        let c: char = match d {
            0 => '0',
            1 => '1',
            2 => '2',
            3 => '3',
            4 => '4',
            5 => '5',
            6 => '6',
            7 => '7',
            8 => '8',
            _ => '9',
        };
        assert(c == digit(d as nat));
        if m < 10 {
            proof {
                assert(dec(m as nat) == seq![c]);
                assert(dec(m as nat) + done =~= seq![c] + done);
                done = seq![c] + done;
                assert(rev@.push(c) =~= done.reverse());
            }
            rev.push(c);
            break;
        }
        proof {
            assert(dec(m as nat) == dec((m / 10) as nat).push(c));
            assert(dec(m as nat) + done =~= dec((m / 10) as nat) + (seq![c] + done));
            done = seq![c] + done;
            assert(rev@.push(c) =~= done.reverse());
        }
        rev.push(c);
        m = m / 10;
    }
    assert(rev@ == dec(n as nat).reverse());
    let mut r = String::new();
    let mut k = rev.len();
    while k > 0
        invariant
            k <= rev@.len(),
            rev@ == dec(n as nat).reverse(),
            r@ == rev@.subrange(k as int, rev@.len() as int).reverse(),
        decreases k,
    {
        k -= 1;
        push_char(&mut r, rev[k]);
        assert(r@ =~= rev@.subrange(k as int, rev@.len() as int).reverse());
    }
    proof {
        assert(rev@.subrange(0, rev@.len() as int) =~= rev@);
        assert(dec(n as nat).reverse().reverse() =~= dec(n as nat));
    }
    r
}

/// Two spaces per indentation level.
pub open spec fn indent(level: nat) -> Seq<char> {
    Seq::new(2 * level, |i: int| ' ')
}

/// Appends `level` indentation steps of two spaces.
pub fn push_indent(b: &mut String, level: usize)
    ensures
        final(b)@ == old(b)@ + indent(level as nat),
{
    let mut k: usize = 0;
    while k < level
        invariant
            k <= level,
            b@ == old(b)@ + indent(k as nat),
        decreases level - k,
    {
        b.append("  ");
        proof {
            reveal_strlit("  ");
            assert(old(b)@ + indent(k as nat) + "  "@ =~= old(b)@ + indent((k + 1) as nat));
        }
        k += 1;
    }
}

/// `.childNodes[i]` for each index of `path`.
pub open spec fn child_nodes(path: Seq<u32>) -> Seq<char>
    decreases path.len(),
{
    if path.len() == 0 {
        Seq::empty()
    } else {
        child_nodes(path.drop_last()) + ".childNodes["@ + dec(path.last() as nat) + "]"@
    }
}

/// Appends `base.childNodes[i]…`, the navigation to a positional path from
/// `base` (`[]` is `base` itself).
pub fn push_node_at(b: &mut String, base: &str, path: &[u32])
    ensures
        final(b)@ == old(b)@ + base@ + child_nodes(path@),
{
    b.append(base);
    let mut k: usize = 0;
    while k < path.len()
        invariant
            k <= path@.len(),
            b@ == old(b)@ + base@ + child_nodes(path@.take(k as int)),
        decreases path@.len() - k,
    {
        let ghost before = b@;
        b.append(".childNodes[");
        let t = u32_text(path[k]);
        b.append(t.as_str());
        b.append("]");
        proof {
            let p = path@.take(k + 1);
            assert(p.drop_last() =~= path@.take(k as int));
            assert(b@ =~= before + ".childNodes["@ + dec(path@[k as int] as nat) + "]"@);
        }
        k += 1;
    }
    proof {
        assert(path@.take(path@.len() as int) =~= path@);
    }
}

/// The numbers of `s` in decimal, separated by `, `.
pub open spec fn joined(s: Seq<u32>) -> Seq<char>
    decreases s.len(),
{
    if s.len() == 0 {
        Seq::empty()
    } else if s.len() == 1 {
        dec(s[0] as nat)
    } else {
        joined(s.drop_last()) + ", "@ + dec(s.last() as nat)
    }
}

/// A JS array literal of the numbers of `s`, e.g. `[0, 1]`.
pub open spec fn array_text(s: Seq<u32>) -> Seq<char> {
    "["@ + joined(s) + "]"@
}

/// Appends the numbers of `list` as a JS array literal.
fn push_number_list(b: &mut String, list: &[u32])
    ensures
        final(b)@ == old(b)@ + array_text(list@),
{
    b.append("[");
    let ghost start = b@;
    let mut k: usize = 0;
    while k < list.len()
        invariant
            k <= list@.len(),
            start == old(b)@ + "["@,
            b@ == start + joined(list@.take(k as int)),
        decreases list@.len() - k,
    {
        let ghost before = b@;
        if k > 0 {
            b.append(", ");
        }
        let t = u32_text(list[k]);
        b.append(t.as_str());
        proof {
            let p = list@.take(k + 1);
            assert(p.drop_last() =~= list@.take(k as int));
            if k == 0 {
                assert(b@ =~= start + joined(p));
            } else {
                assert(b@ =~= start + (joined(list@.take(k as int)) + ", "@ + dec(list@[k as int] as nat)));
            }
        }
        k += 1;
    }
    b.append("]");
    proof {
        assert(list@.take(list@.len() as int) =~= list@);
    }
}

/// Appends a positional path as a JS array literal, e.g. `[0, 1]`.
pub fn push_path(b: &mut String, path: &[u32])
    ensures
        final(b)@ == old(b)@ + array_text(path@),
{
    push_number_list(b, path)
}

/// Appends a dependency-index list as a JS array literal, e.g. `[0, 2]`.
pub fn push_dep_list(b: &mut String, deps: &[u32])
    ensures
        final(b)@ == old(b)@ + array_text(deps@),
{
    push_number_list(b, deps)
}

/// The escaped form of one character inside a double-quoted JS string.
pub open spec fn js_escape_char(c: char) -> Seq<char> {
    if c == '"' {
        "\\\""@
    } else if c == '\\' {
        "\\\\"@
    } else if c == '\n' {
        "\\n"@
    } else if c == '\r' {
        "\\r"@
    } else if c == '\t' {
        "\\t"@
    } else {
        seq![c]
    }
}

pub open spec fn js_escape(s: Seq<char>) -> Seq<char>
    decreases s.len(),
{
    if s.len() == 0 {
        Seq::empty()
    } else {
        js_escape(s.drop_last()) + js_escape_char(s.last())
    }
}

/// The double-quoted JS string literal for `s`.
pub open spec fn js_quoted(s: Seq<char>) -> Seq<char> {
    seq!['"'] + js_escape(s) + seq!['"']
}

/// Appends `s` as a double-quoted JS string literal.
pub fn push_js_string(b: &mut String, s: &str)
    ensures
        final(b)@ == old(b)@ + js_quoted(s@),
{
    push_char(b, '"');
    let ghost start = b@;
    let cs = chars_of(s);
    let mut k: usize = 0;
    while k < cs.len()
        invariant
            k <= cs@.len(),
            cs@ == s@,
            start == old(b)@.push('"'),
            b@ == start + js_escape(cs@.take(k as int)),
        decreases cs@.len() - k,
    {
        let ghost before = b@;
        let ch = cs[k];
        if ch == '"' {
            b.append("\\\"");
        } else if ch == '\\' {
            b.append("\\\\");
        } else if ch == '\n' {
            b.append("\\n");
        } else if ch == '\r' {
            b.append("\\r");
        } else if ch == '\t' {
            b.append("\\t");
        } else {
            push_char(b, ch);
        }
        proof {
            let p = cs@.take(k + 1);
            assert(p.drop_last() =~= cs@.take(k as int));
            assert(b@ =~= before + js_escape_char(ch));
        }
        k += 1;
    }
    push_char(b, '"');
    proof {
        assert(cs@.take(cs@.len() as int) =~= cs@);
        assert(b@ =~= old(b)@ + js_quoted(s@));
    }
}

/// The double-quoted JS string literal for `s`.
pub fn js_string(s: &str) -> (r: String)
    ensures
        r@ == js_quoted(s@),
{
    let mut out = String::new();
    push_js_string(&mut out, s);
    out
}

/// An ASCII letter, `_` or `$`.
pub open spec fn key_start(c: char) -> bool {
    ('a' <= c <= 'z') || ('A' <= c <= 'Z') || c == '_' || c == '$'
}

/// An ASCII letter or digit, `_` or `$`.
pub open spec fn key_char(c: char) -> bool {
    key_start(c) || ('0' <= c <= '9')
}

/// A valid bare JS object key.
pub open spec fn bare_key(s: Seq<char>) -> bool {
    s.len() > 0 && key_start(s[0]) && forall|i: int| 1 <= i < s.len() ==> key_char(#[trigger] s[i])
}

/// A JS object-literal key for a prop name: the bare name if it is a valid
/// identifier, else a quoted string key.
pub open spec fn prop_key_text(name: Seq<char>) -> Seq<char> {
    if bare_key(name) {
        name
    } else {
        js_quoted(name)
    }
}

fn is_bare_key(cs: &[char]) -> (r: bool)
    ensures
        r == bare_key(cs@),
{
    if cs.len() == 0 {
        return false;
    }
    let c = cs[0];
    if !(('a' <= c && c <= 'z') || ('A' <= c && c <= 'Z') || c == '_' || c == '$') {
        return false;
    }
    let mut i: usize = 1;
    while i < cs.len()
        invariant
            1 <= i <= cs@.len(),
            forall|k: int| 1 <= k < i ==> key_char(#[trigger] cs@[k]),
        decreases cs@.len() - i,
    {
        let d = cs[i];
        if !(('a' <= d && d <= 'z') || ('A' <= d && d <= 'Z') || d == '_' || d == '$' || ('0' <= d
            && d <= '9')) {
            return false;
        }
        i += 1;
    }
    true
}

/// A JS object-literal key for a prop name (see [`prop_key_text`]).
pub fn prop_key(name: &str) -> (r: String)
    ensures
        r@ == prop_key_text(name@),
{
    let cs = chars_of(name);
    if is_bare_key(&cs) {
        String::from_str(name)
    } else {
        js_string(name)
    }
}

/// The escaped form of character `c` of a template-literal chunk, followed in
/// the chunk by `next` (if any): backtick, backslash and a `$` that starts
/// `${` are escaped.
pub open spec fn tpl_escape_char(c: char, next: Option<char>) -> Seq<char> {
    if c == '`' {
        "\\`"@
    } else if c == '\\' {
        "\\\\"@
    } else if c == '$' && next == Some('{') {
        "\\$"@
    } else {
        seq![c]
    }
}

pub open spec fn tpl_escape(s: Seq<char>) -> Seq<char>
    decreases s.len(),
{
    if s.len() == 0 {
        Seq::empty()
    } else {
        tpl_escape_char(s[0], if s.len() > 1 {
            Some(s[1])
        } else {
            None
        }) + tpl_escape(s.drop_first())
    }
}

proof fn lemma_tpl_escape_split(s: Seq<char>, k: int)
    requires
        0 <= k < s.len(),
    ensures
        tpl_escape(s.skip(k)) == tpl_escape_char(s[k], if k + 1 < s.len() {
            Some(s[k + 1])
        } else {
            None
        }) + tpl_escape(s.skip(k + 1)),
{
    assert(s.skip(k).drop_first() =~= s.skip(k + 1));
}

/// Appends a literal chunk to a JS template literal, escaping backtick, `${`
/// and backslash so the text round-trips.
pub fn push_template_literal_chunk(b: &mut String, s: &str)
    ensures
        final(b)@ == old(b)@ + tpl_escape(s@),
{
    let cs = chars_of(s);
    let n = cs.len();
    assert(cs@.skip(0) =~= cs@);
    let mut k: usize = 0;
    while k < n
        invariant
            k <= n == cs@.len(),
            cs@ == s@,
            b@ + tpl_escape(cs@.skip(k as int)) == old(b)@ + tpl_escape(s@),
        decreases n - k,
    {
        proof {
            lemma_tpl_escape_split(cs@, k as int);
        }
        let ghost before = b@;
        let ch = cs[k];
        if ch == '`' {
            b.append("\\`");
        } else if ch == '\\' {
            b.append("\\\\");
        } else if ch == '$' && k + 1 < n && cs[k + 1] == '{' {
            b.append("\\$");
        } else {
            push_char(b, ch);
        }
        proof {
            assert(b@ =~= before + tpl_escape_char(ch, if k + 1 < n {
                Some(cs@[k + 1])
            } else {
                None
            }));
            assert(b@ + tpl_escape(cs@.skip(k + 1)) =~= before + tpl_escape(cs@.skip(k as int)));
        }
        k += 1;
    }
    proof {
        assert(cs@.skip(0) =~= cs@);
        assert(cs@.skip(n as int) =~= Seq::<char>::empty());
    }
}

} // verus!
