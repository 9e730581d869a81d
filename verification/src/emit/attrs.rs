//! Attribute writes: which attributes are set as DOM properties, the
//! statement that assigns an attribute, and the event and read expression of
//! a two-way binding's write-back.

use vstd::prelude::*;
use vstd::string::StringExecFns;

use crate::emit::js::key_char;
use crate::script::json::str_eq;
use crate::text::chars_of;

verus! {

/// Attributes best set as a boolean DOM property, with the property's name.
pub open spec fn boolean_prop(attr: Seq<char>) -> Option<Seq<char>> {
    if attr == "checked"@ {
        Some("checked"@)
    } else if attr == "disabled"@ {
        Some("disabled"@)
    } else if attr == "selected"@ {
        Some("selected"@)
    } else if attr == "readonly"@ {
        Some("readOnly"@)
    } else if attr == "multiple"@ {
        Some("multiple"@)
    } else if attr == "hidden"@ {
        Some("hidden"@)
    } else {
        None
    }
}

/// Attributes best set as an IDL property, with the property's name.
pub open spec fn idl_prop(attr: Seq<char>) -> Option<Seq<char>> {
    if attr == "value"@ {
        Some("value"@)
    } else {
        None
    }
}

pub open spec fn opt_str(o: Option<&str>) -> Option<Seq<char>> {
    match o {
        Some(s) => Some(s@),
        None => None,
    }
}

/// The boolean DOM property for `attr`, if it is one.
pub fn boolean_property(attr: &str) -> (r: Option<&'static str>)
    ensures
        opt_str(r) == boolean_prop(attr@),
{
    if str_eq(attr, "checked") {
        Some("checked")
    } else if str_eq(attr, "disabled") {
        Some("disabled")
    } else if str_eq(attr, "selected") {
        Some("selected")
    } else if str_eq(attr, "readonly") {
        Some("readOnly")
    } else if str_eq(attr, "multiple") {
        Some("multiple")
    } else if str_eq(attr, "hidden") {
        Some("hidden")
    } else {
        None
    }
}

/// The IDL property for `attr`, if it is one.
pub fn idl_property(attr: &str) -> (r: Option<&'static str>)
    ensures
        opt_str(r) == idl_prop(attr@),
{
    if str_eq(attr, "value") {
        Some("value")
    } else {
        None
    }
}

/// The statement that assigns the JS expression `value` to `attr` on `node`:
/// a boolean attribute reflects the value's truthiness onto its property, an
/// IDL attribute is assigned to its property, any other goes through
/// `setAttribute`.
pub open spec fn set_statement(node: Seq<char>, attr: Seq<char>, value: Seq<char>) -> Seq<char> {
    match boolean_prop(attr) {
        Some(p) => node + "."@ + p + " = !!("@ + value + ");"@,
        None => match idl_prop(attr) {
            Some(p) => node + "."@ + p + " = "@ + value + ";"@,
            None => node + ".setAttribute(\""@ + attr + "\", "@ + value + ");"@,
        },
    }
}

/// Appends each of `parts` to `s`.
fn append_all(s: &mut String, parts: &[&str])
    ensures
        final(s)@ == old(s)@ + concat_all(parts@),
{
    let mut k: usize = 0;
    while k < parts.len()
        invariant
            k <= parts@.len(),
            s@ == old(s)@ + concat_all(parts@.take(k as int)),
        decreases parts@.len() - k,
    {
        s.append(parts[k]);
        proof {
            let t = parts@.take(k + 1);
            assert(t.drop_last() =~= parts@.take(k as int));
            assert(s@ =~= old(s)@ + concat_all(t));
        }
        k += 1;
    }
    assert(parts@.take(parts@.len() as int) =~= parts@);
}

/// The text of all the pieces, one after the other.
pub open spec fn concat_all(parts: Seq<&str>) -> Seq<char>
    decreases parts.len(),
{
    if parts.len() == 0 {
        Seq::empty()
    } else {
        concat_all(parts.drop_last()) + parts.last()@
    }
}

/// A string made of the pieces, one after the other.
pub fn concat_parts(parts: &[&str]) -> (r: String)
    ensures
        r@ == concat_all(parts@),
{
    let mut s = String::new();
    append_all(&mut s, parts);
    s
}

/// The statement that assigns `value` to `attr` on `node` (see
/// [`set_statement`]).
pub fn attr_set_statement(node: &str, attr: &str, value: &str) -> (r: String)
    ensures
        r@ == set_statement(node@, attr@, value@),
{
    let r = match boolean_property(attr) {
        Some(prop) => concat_parts(&[node, ".", prop, " = !!(", value, ");"]),
        None => match idl_property(attr) {
            Some(prop) => concat_parts(&[node, ".", prop, " = ", value, ";"]),
            None => concat_parts(&[node, ".setAttribute(\"", attr, "\", ", value, ");"]),
        },
    };
    proof {
        reveal_with_fuel(concat_all, 7);
    }
    r
}

/// Every character is an ASCII letter or digit, `_` or `$`.
pub open spec fn plain_name(s: Seq<char>) -> bool {
    forall|i: int| 0 <= i < s.len() ==> key_char(#[trigger] s[i])
}

/// The event and the element-read expression of a two-way binding's
/// write-back listener: checkbox-like state commits on `change`; other
/// attributes on `input`, read from the property of the same name when the
/// name can be one, else through `getAttribute`.
pub open spec fn two_way_read_of(node: Seq<char>, attr: Seq<char>) -> (Seq<char>, Seq<char>) {
    match boolean_prop(attr) {
        Some(p) => ("change"@, node + "."@ + p),
        None => if idl_prop(attr) is Some {
            ("input"@, node + ".value"@)
        } else if plain_name(attr) {
            ("input"@, node + "."@ + attr)
        } else {
            ("input"@, node + ".getAttribute(\""@ + attr + "\")"@)
        },
    }
}

fn is_plain_name(s: &str) -> (r: bool)
    ensures
        r == plain_name(s@),
{
    let cs = chars_of(s);
    let mut i: usize = 0;
    while i < cs.len()
        invariant
            i <= cs@.len(),
            cs@ == s@,
            forall|k: int| 0 <= k < i ==> key_char(#[trigger] cs@[k]),
        decreases cs@.len() - i,
    {
        let d = cs[i];
        if !(('a' <= d && d <= 'z') || ('A' <= d && d <= 'Z') || d == '_' || d == '$' || ('0' <= d
            && d <= '9')) {
            return false;
        }
        i += 1;
    }
    true
}

/// The write-back event and read expression of a two-way binding (see
/// [`two_way_read_of`]).
pub fn two_way_read(node: &str, attr: &str) -> (r: (&'static str, String))
    ensures
        (r.0@, r.1@) == two_way_read_of(node@, attr@),
{
    proof {
        reveal_with_fuel(concat_all, 5);
    }
    match boolean_property(attr) {
        Some(prop) => ("change", concat_parts(&[node, ".", prop])),
        None => if idl_property(attr).is_some() {
            ("input", concat_parts(&[node, ".value"]))
        } else if is_plain_name(attr) {
            ("input", concat_parts(&[node, ".", attr]))
        } else {
            ("input", concat_parts(&[node, ".getAttribute(\"", attr, "\")"]))
        },
    }
}

} // verus!
