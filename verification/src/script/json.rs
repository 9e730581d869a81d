//! The JSON form of a swc syntax tree, and the call into swc that produces it.

use vstd::prelude::*;
use vstd::string::StringSliceAdditionalSpecFns;

use swc_common::{sync::Lrc, FileName, SourceMap};
use swc_ecma_parser::{lexer::Lexer, EsSyntax, Parser, StringInput, Syntax, TsSyntax};

verus! {

#[verifier::external_type_specification]
#[verifier::external_body]
pub struct ExJsonValue(serde_json::Value);

/// A JSON value. Object members keep the order in which swc serializes a
/// node's fields, which is the order its visitor walks them.
#[derive(Debug)]
pub enum Json {
    Null,
    Bool(bool),
    /// A number, in its decimal text form.
    Number(String),
    Str(String),
    Array(Vec<Json>),
    Object(Vec<Member>),
}

#[derive(Debug)]
pub struct Member {
    pub key: String,
    pub value: Json,
}

/// The syntax tree swc parses `code` into, as JSON, with the offset swc gives
/// the first byte of `code`; an error message when swc rejects the code.
/// `typescript` selects TypeScript rather than ECMAScript syntax; with
/// `strict`, errors swc recovered from count as a rejection too.
pub uninterp spec fn swc_module(code: Seq<char>, typescript: bool, strict: bool) -> Result<(Json, u32), String>;

/// Parses `code` as a module with `swc_ecma_parser` (`Parser::parse_module`,
/// in a fresh `SourceMap`) and returns its tree serialized by `serde_json`,
/// together with the source file's start offset; on a parse error, the
/// error's debug text. The contract claims only that the result is a
/// function of the arguments (`swc_module`).
#[verifier::external_body]
pub(crate) fn swc_parse(code: &str, typescript: bool, strict: bool) -> (r: Result<(Json, u32), String>)
    ensures
        r == swc_module(code@, typescript, strict),
{
    let cm: Lrc<SourceMap> = Default::default();
    let fm = cm.new_source_file(Lrc::new(FileName::Anon), code.to_string());
    let syntax = if typescript { Syntax::Typescript(TsSyntax::default()) } else { Syntax::Es(EsSyntax::default()) };
    let mut parser = Parser::new_from(Lexer::new(syntax, Default::default(), StringInput::from(&*fm), None));
    let module = parser.parse_module().map_err(|e| format!("{:?}", e))?;
    let errors = parser.take_errors();
    if strict && !errors.is_empty() {
        return Err(format!("{:?}", errors));
    }
    let value = serde_json::to_value(&module).map_err(|e| e.to_string())?;
    Ok((json_from_value(&value), fm.start_pos.0))
}

/// Copies a `serde_json::Value` into a [`Json`], member order included.
#[verifier::external_body]
fn json_from_value(v: &serde_json::Value) -> Json {
    match v {
        serde_json::Value::Null => Json::Null,
        serde_json::Value::Bool(b) => Json::Bool(*b),
        serde_json::Value::Number(n) => Json::Number(n.to_string()),
        serde_json::Value::String(s) => Json::Str(s.clone()),
        serde_json::Value::Array(a) => Json::Array(a.iter().map(json_from_value).collect()),
        serde_json::Value::Object(o) => Json::Object(o.iter().map(|(k, x)| Member { key: k.clone(), value: json_from_value(x) }).collect()),
    }
}

// ---------------------------------------------------------------------------
// Reading nodes.

/// Two strings are equal (compared byte by byte).
pub fn str_eq(a: &str, b: &str) -> (r: bool)
    ensures
        r == (a@ == b@),
{
    let x = a.as_bytes();
    let y = b.as_bytes();
    proof {
        vstd::utf8::encode_utf8_decode_utf8(a@);
        vstd::utf8::encode_utf8_decode_utf8(b@);
    }
    if x.len() != y.len() {
        proof {
            assert(x@.len() != y@.len());
            assert(a@ != b@);
        }
        return false;
    }
    let mut i: usize = 0;
    while i < x.len()
        invariant
            x@ == a.spec_bytes(),
            y@ == b.spec_bytes(),
            x@.len() == y@.len(),
            i <= x@.len(),
            forall|k: int| 0 <= k < i ==> x@[k] == y@[k],
        decreases x@.len() - i,
    {
        if x[i] != y[i] {
            proof {
                assert(x@[i as int] != y@[i as int]);
                if a@ == b@ {
                    assert(a.spec_bytes() == b.spec_bytes());
                }
            }
            return false;
        }
        i += 1;
    }
    assert(x@ =~= y@);
    true
}

/// The value of the first member named `key`.
pub open spec fn field(ms: Seq<Member>, key: Seq<char>) -> Option<Json>
    decreases ms.len(),
{
    if ms.len() == 0 {
        None
    } else if ms[0].key@ == key {
        Some(ms[0].value)
    } else {
        field(ms.drop_first(), key)
    }
}

/// The string member named `key`, if any.
pub open spec fn str_field(ms: Seq<Member>, key: Seq<char>) -> Option<Seq<char>> {
    match field(ms, key) {
        Some(Json::Str(s)) => Some(s@),
        _ => None,
    }
}

/// The node kind: the `type` member.
pub open spec fn type_of(ms: Seq<Member>) -> Seq<char> {
    match str_field(ms, "type"@) {
        Some(t) => t,
        None => Seq::empty(),
    }
}

pub proof fn lemma_field_in(ms: Seq<Member>, key: Seq<char>)
    ensures
        field(ms, key) matches Some(v) ==> exists|i: int| 0 <= i < ms.len() && ms[i].value == v,
    decreases ms.len(),
{
    if ms.len() > 0 && ms[0].key@ != key {
        lemma_field_in(ms.drop_first(), key);
        if let Some(v) = field(ms, key) {
            let i = choose|i: int| 0 <= i < ms.drop_first().len() && ms.drop_first()[i].value == v;
            assert(ms[i + 1].value == v);
        }
    }
}

/// The member named `key`.
pub fn get_field<'a>(ms: &'a Vec<Member>, key: &str) -> (r: Option<&'a Json>)
    ensures
        r matches Some(v) ==> field(ms@, key@) == Some(*v),
        r is None ==> field(ms@, key@) is None,
{
    let mut i: usize = 0;
    proof {
        assert(ms@.subrange(0, ms@.len() as int) =~= ms@);
    }
    while i < ms.len()
        invariant
            i <= ms@.len(),
            field(ms@, key@) == field(ms@.subrange(i as int, ms@.len() as int), key@),
        decreases ms@.len() - i,
    {
        proof {
            let rest = ms@.subrange(i as int, ms@.len() as int);
            assert(rest.drop_first() =~= ms@.subrange(i + 1, ms@.len() as int));
            assert(rest[0] == ms@[i as int]);
        }
        if str_eq(ms[i].key.as_str(), key) {
            return Some(&ms[i].value);
        }
        i += 1;
    }
    None
}

/// The string member named `key`.
pub fn get_str<'a>(ms: &'a Vec<Member>, key: &str) -> (r: Option<&'a String>)
    ensures
        r matches Some(s) ==> str_field(ms@, key@) == Some(s@) && field(ms@, key@) == Some(
            Json::Str(*s),
        ),
        r is None ==> str_field(ms@, key@) is None,
{
    match get_field(ms, key) {
        Some(Json::Str(s)) => Some(s),
        _ => None,
    }
}

/// The node kind of an object node.
pub fn node_type(ms: &Vec<Member>) -> (r: &str)
    ensures
        r@ == type_of(ms@),
{
    match get_str(ms, "type") {
        Some(s) => s.as_str(),
        None => {
            proof {
                reveal_strlit("");
            }
            ""
        },
    }
}

/// The decimal value of `s` when it is a run of ASCII digits that fits a `u32`.
pub open spec fn dec_u32(s: Seq<u8>) -> Option<u32>
    decreases s.len(),
{
    if s.len() == 0 {
        None
    } else {
        let d = s.last() as int - 48;
        if !(0 <= d <= 9) {
            None
        } else if s.len() == 1 {
            Some(d as u32)
        } else {
            match dec_u32(s.drop_last()) {
                Some(v) => if v * 10 + d <= u32::MAX {
                    Some((v * 10 + d) as u32)
                } else {
                    None
                },
                None => None,
            }
        }
    }
}

/// Parses an unsigned decimal number that fits a `u32`.
pub fn parse_u32(s: &str) -> (r: Option<u32>)
    ensures
        r == dec_u32(s.spec_bytes()),
{
    let b = s.as_bytes();
    if b.len() == 0 {
        return None;
    }
    let mut v: u64 = 0;
    let mut i: usize = 0;
    while i < b.len()
        invariant
            b@ == s.spec_bytes(),
            0 < b@.len(),
            i <= b@.len(),
            i > 0 ==> dec_u32(b@.subrange(0, i as int)) == Some(v as u32),
            v <= u32::MAX,
        decreases b@.len() - i,
    {
        let c = b[i];
        let ghost sub = b@.subrange(0, i + 1);
        proof {
            assert(sub.drop_last() =~= b@.subrange(0, i as int));
            assert(sub.last() == c);
        }
        if c < 48 || c > 57 {
            proof {
                lemma_dec_none_extends(b@, i + 1);
                assert(b@.subrange(0, b@.len() as int) =~= b@);
            }
            return None;
        }
        let d = (c - 48) as u64;
        if i == 0 {
            v = d;
        } else if v * 10 + d <= 0xffff_ffff {
            v = v * 10 + d;
        } else {
            proof {
                lemma_dec_none_extends(b@, i + 1);
                assert(b@.subrange(0, b@.len() as int) =~= b@);
            }
            return None;
        }
        i += 1;
    }
    proof {
        assert(b@.subrange(0, b@.len() as int) =~= b@);
    }
    Some(v as u32)
}

/// Once a prefix is not a number, no longer prefix is.
proof fn lemma_dec_none_extends(s: Seq<u8>, i: int)
    requires
        0 < i <= s.len(),
        dec_u32(s.subrange(0, i)) is None,
    ensures
        forall|j: int| i <= j <= s.len() ==> j > 0 && #[trigger] dec_u32(s.subrange(0, j)) is None,
{
    assert forall|j: int| i <= j <= s.len() implies j > 0 && #[trigger] dec_u32(s.subrange(0, j))
        is None by {
        lemma_dec_none_step(s, i, j);
    }
}

proof fn lemma_dec_none_step(s: Seq<u8>, i: int, j: int)
    requires
        0 < i <= j <= s.len(),
        dec_u32(s.subrange(0, i)) is None,
    ensures
        dec_u32(s.subrange(0, j)) is None,
    decreases j - i,
{
    if j > i {
        lemma_dec_none_step(s, i, j - 1);
        assert(s.subrange(0, j).drop_last() =~= s.subrange(0, j - 1));
    }
}

} // verus!
