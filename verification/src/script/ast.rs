//! The syntax tree of a script as JSON: a span-annotated projection of the
//! module's top-level statements, `{ "type": "Module", "body": [{ "type": …,
//! "span": { "lo": …, "hi": … } }, …] }`, with the kinds and byte positions
//! swc reports.

use vstd::prelude::*;
use vstd::string::StringExecFns;

use crate::script::analysis::{body_items, body_of, is_parse_error, program, ScriptParseError};
use crate::script::json::{field, get_field, node_type, type_of, Json, Member};

verus! {

/// The number text of member `key` of the `span` of a statement.
pub open spec fn span_bound(item: Json, key: Seq<char>) -> Option<Seq<char>> {
    match item {
        Json::Object(ms) => match field(ms@, "span"@) {
            Some(Json::Object(sp)) => match field(sp@, key) {
                Some(Json::Number(n)) => Some(n@),
                _ => None,
            },
            _ => None,
        },
        _ => None,
    }
}

/// `v` is the number `n` when there is one, `null` otherwise.
pub open spec fn number_or_null(v: Json, n: Option<Seq<char>>) -> bool {
    match n {
        Some(t) => v matches Json::Number(x) && x@ == t,
        None => v is Null,
    }
}

/// The kind of a statement: its `type`.
pub open spec fn item_type(item: Json) -> Seq<char> {
    match item {
        Json::Object(ms) => type_of(ms@),
        _ => Seq::empty(),
    }
}

/// `s` summarizes the statement `item`: its kind and the bounds of its span.
pub open spec fn summarizes(s: Json, item: Json) -> bool {
    &&& s matches Json::Object(ms)
    &&& ms@.len() == 2
    &&& ms@[0].key@ == "type"@
    &&& ms@[1].key@ == "span"@
    &&& ms@[0].value matches Json::Str(t)
    &&& t@ == item_type(item)
    &&& ms@[1].value matches Json::Object(sp)
    &&& sp@.len() == 2
    &&& sp@[0].key@ == "lo"@ && number_or_null(sp@[0].value, span_bound(item, "start"@))
    &&& sp@[1].key@ == "hi"@ && number_or_null(sp@[1].value, span_bound(item, "end"@))
}

/// `j` is the projection of the module `m`.
pub open spec fn projects(j: Json, m: Json) -> bool {
    &&& j matches Json::Object(ms)
    &&& ms@.len() == 2
    &&& ms@[0].key@ == "type"@
    &&& ms@[1].key@ == "body"@
    &&& ms@[0].value matches Json::Str(t)
    &&& t@ == "Module"@
    &&& ms@[1].value matches Json::Array(v)
    &&& v@.len() == body_of(m).len()
    &&& forall|i: int| 0 <= i < v@.len() ==> summarizes(#[trigger] v@[i], body_of(m)[i])
}

fn member(key: &str, value: Json) -> (r: Member)
    ensures
        r.key@ == key@,
        r.value == value,
{
    Member { key: String::from_str(key), value }
}

fn bound(item: &Json, key: &str) -> (r: Json)
    ensures
        number_or_null(r, span_bound(*item, key@)),
{
    if let Json::Object(ms) = item {
        if let Some(Json::Object(sp)) = get_field(ms, "span") {
            if let Some(Json::Number(n)) = get_field(sp, key) {
                return Json::Number(n.clone());
            }
        }
    }
    Json::Null
}

fn summary(item: &Json) -> (r: Json)
    ensures
        summarizes(r, *item),
{
    let t = match item {
        Json::Object(ms) => String::from_str(node_type(ms)),
        _ => String::new(),
    };
    let span = vec![member("lo", bound(item, "start")), member("hi", bound(item, "end"))];
    Json::Object(vec![member("type", Json::Str(t)), member("span", Json::Object(span))])
}

/// Parses `code` as a module (TypeScript syntax accepted as is) and returns
/// its top-level statements as JSON: `{ "type": "Module", "body": [...] }`,
/// each statement as its kind and the `lo`/`hi` bounds of its span.
pub fn parse_to_ast_json(code: &str) -> (r: Result<Json, ScriptParseError>)
    ensures
        match program(code@) {
            Ok((m, _)) => r matches Ok(j) && projects(j, m),
            Err(e) => is_parse_error(r, e),
        },
{
    let (m, _) = crate::script::analysis::parse_program(code)?;
    let items = body_items(&m);
    let mut out: Vec<Json> = Vec::new();
    let mut i: usize = 0;
    while i < items.len()
        invariant
            i <= items@.len(),
            items@ == body_of(m),
            out@.len() == i,
            forall|k: int| 0 <= k < i ==> summarizes(#[trigger] out@[k], items@[k]),
        decreases items@.len() - i,
    {
        let s = summary(&items[i]);
        out.push(s);
        i += 1;
    }
    proof {
        reveal_strlit("Module");
    }
    Ok(Json::Object(vec![member("type", Json::Str(String::from_str("Module"))), member("body", Json::Array(out))]))
}

} // verus!
