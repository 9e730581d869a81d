//! `for … of` / `for … in` loop headers of templates.
//!
//! The header is wrapped into a `for(<header>){}` statement and parsed with
//! swc; the binding pattern and the iterable expression are then taken from
//! the source by their spans, trimmed. In a `for … of` over `x.entries()`
//! (or `Object.entries(e)`) the `.entries()` call is dropped in the cases the
//! template runtime iterates directly.

use vstd::prelude::*;
use vstd::string::{StringExecFns, StringSliceAdditionalSpecFns};

use crate::script::analysis::{body_items, body_of, ident_check, is_ident, span_pos, span_position};
use crate::script::json::{field, get_field, get_str, node_type, str_eq, str_field, swc_module, swc_parse, type_of, Json, Member};
use crate::span::{on_boundary, slice_str};
use crate::text::{
    concat3, law_trim_idempotent, lemma_text_of_encode, lemma_trim_encode_len, lemma_encode_concat, text_of,
    trim_white, trimmed,
};

verus! {

#[derive(Debug, Clone, Copy, PartialEq, Eq, Structural)]
pub enum ForKind {
    Of,
    In,
}

/// The parsed pieces of a `for` loop header.
#[derive(Debug, Clone, PartialEq)]
pub struct ParsedFor {
    pub kind: ForKind,
    /// The binding pattern on the left of `of`/`in`, e.g. `item` or `[i, v]`,
    /// without any `let`/`const`/`var` keyword.
    pub binding: String,
    /// The iterable expression on the right.
    pub iterable: String,
}

/// The abstract form of a [`ParsedFor`].
pub struct SParsedFor {
    pub kind: ForKind,
    pub binding: Seq<char>,
    pub iterable: Seq<char>,
}

impl View for ParsedFor {
    type V = SParsedFor;

    open spec fn view(&self) -> SParsedFor {
        SParsedFor { kind: self.kind, binding: self.binding@, iterable: self.iterable@ }
    }
}

/// The statement swc parses for a header.
pub open spec fn for_source(input: Seq<char>) -> Seq<char> {
    "for("@ + trim_white(input) + "){}"@
}

/// The source text between swc positions `lo` and `hi` of a file whose bytes
/// are `bytes` and which swc placed at `base`; `None` for a dummy position, a
/// reversed span, or one that is not within the file.
pub open spec fn snippet(bytes: Seq<u8>, base: u32, lo: u32, hi: u32) -> Option<Seq<char>> {
    if lo != 0 && hi != 0 && base <= lo <= hi && hi - base <= bytes.len() && on_boundary(
        bytes,
        lo - base,
    ) && on_boundary(bytes, hi - base) {
        Some(text_of(bytes, lo - base, hi - base))
    } else {
        None
    }
}

/// The source text of a node's span.
pub open spec fn node_snippet(bytes: Seq<u8>, base: u32, j: Json) -> Option<Seq<char>> {
    match j {
        Json::Object(ms) => snippet(bytes, base, span_pos(ms@, "start"@), span_pos(ms@, "end"@)),
        _ => None,
    }
}

/// The pattern a loop head binds: the first declarator's of a variable
/// declaration, or the head itself when it is a bare pattern; `None` for a
/// `using` declaration.
pub open spec fn head_pattern(left: Json) -> Option<Json> {
    match left {
        Json::Object(lm) => {
            let t = type_of(lm@);
            if t == "VariableDeclaration"@ {
                match field(lm@, "declarations"@) {
                    Some(Json::Array(ds)) => if ds@.len() > 0 {
                        match ds@[0] {
                            Json::Object(dm) => field(dm@, "id"@),
                            _ => None,
                        }
                    } else {
                        None
                    },
                    _ => None,
                }
            } else if t == "UsingDeclaration"@ {
                None
            } else {
                Some(left)
            }
        },
        _ => Some(left),
    }
}

/// A call's first argument, when it is not spread and not a bare identifier:
/// its expression.
pub open spec fn plain_first_arg(cm: Seq<Member>) -> Option<Json> {
    match field(cm, "arguments"@) {
        Some(Json::Array(args)) => if args@.len() > 0 {
            match args@[0] {
                Json::Object(am) => {
                    let no_spread = match field(am@, "spread"@) {
                        Some(Json::Null) => true,
                        None => true,
                        _ => false,
                    };
                    match field(am@, "expression"@) {
                        Some(e) => if no_spread && !(e matches Json::Object(em) && is_ident(em@)) {
                            Some(e)
                        } else {
                            None
                        },
                        None => None,
                    }
                },
                _ => None,
            }
        } else {
            None
        },
        _ => None,
    }
}

/// A member expression whose property is the name `entries`.
pub open spec fn is_entries_member(cm: Seq<Member>) -> bool {
    type_of(cm) == "MemberExpression"@ && match field(cm, "property"@) {
        Some(Json::Object(pm)) => type_of(pm@) == "Identifier"@ && str_field(pm@, "value"@) == Some(
            "entries"@,
        ),
        _ => false,
    }
}

/// The identifier `Object`.
pub open spec fn is_object_global(om: Seq<Member>) -> bool {
    is_ident(om) && str_field(om, "value"@) == Some("Object"@)
}

/// For a call `x.entries()` where `x` is a member expression, `x`; for
/// `Object.entries(e)` with a plain first argument, `e`; otherwise `None`
/// (the iterable stays the whole right side).
pub open spec fn entries_target(right: Json) -> Option<Json> {
    match right {
        Json::Object(rm) => if type_of(rm@) == "CallExpression"@ {
            match field(rm@, "callee"@) {
                Some(Json::Object(cm)) => if !is_entries_member(cm@) {
                    None
                } else {
                    match field(cm@, "object"@) {
                        Some(Json::Object(om)) => if is_object_global(om@) {
                            plain_first_arg(rm@)
                        } else if type_of(om@) == "MemberExpression"@ {
                            Some(Json::Object(om))
                        } else {
                            None
                        },
                        _ => None,
                    }
                },
                _ => None,
            }
        } else {
            None
        },
        _ => None,
    }
}

/// The header a `for` statement tree spells, read against the bytes and
/// base position of the parsed source.
pub open spec fn header_of(bytes: Seq<u8>, base: u32, m: Json) -> Option<SParsedFor> {
    let items = body_of(m);
    if items.len() != 1 {
        None
    } else {
        match items[0] {
            Json::Object(sm) => if span_pos(sm@, "start"@) != base || span_pos(sm@, "end"@) != base
                + bytes.len() {
                None
            } else {
                let t = type_of(sm@);
                let kind = if t == "ForOfStatement"@ {
                    Some(ForKind::Of)
                } else if t == "ForInStatement"@ {
                    Some(ForKind::In)
                } else {
                    None
                };
                match (kind, field(sm@, "left"@), field(sm@, "right"@)) {
                    (Some(k), Some(left), Some(right)) => match head_pattern(left) {
                        Some(p) => match node_snippet(bytes, base, p) {
                            Some(b) => {
                                let it = if k == ForKind::Of {
                                    match entries_target(right) {
                                        Some(x) => x,
                                        None => right,
                                    }
                                } else {
                                    right
                                };
                                match node_snippet(bytes, base, it) {
                                    Some(i) => Some(
                                        SParsedFor {
                                            kind: k,
                                            binding: trim_white(b),
                                            iterable: trim_white(i),
                                        },
                                    ),
                                    None => None,
                                }
                            },
                            None => None,
                        },
                        None => None,
                    },
                    _ => None,
                }
            },
            _ => None,
        }
    }
}

/// The header `input` spells: `None` if swc rejects `for(<input>){}` as a
/// JavaScript module (recovered errors included) or the statement is not a
/// `for … of` / `for … in` loop.
pub open spec fn parsed_for(input: Seq<char>) -> Option<SParsedFor> {
    match swc_module(for_source(input), false, true) {
        Ok((m, base)) => header_of(vstd::utf8::encode_utf8(for_source(input)), base, m),
        Err(_) => None,
    }
}

pub open spec fn opt_for(o: Option<ParsedFor>) -> Option<SParsedFor> {
    match o {
        Some(p) => Some(p@),
        None => None,
    }
}

fn snippet_of(src: &str, base: u32, j: &Json) -> (r: Option<String>)
    ensures
        r matches Some(s) ==> node_snippet(src.spec_bytes(), base, *j) == Some(s@),
        r is None ==> node_snippet(src.spec_bytes(), base, *j) is None,
{
    match j {
        Json::Object(ms) => {
            let lo = span_position(ms, "start");
            let hi = span_position(ms, "end");
            if lo != 0 && hi != 0 && base <= lo && lo <= hi {
                let a = (lo - base) as usize;
                let b = (hi - base) as usize;
                match slice_str(src, a, b) {
                    Some(t) => {
                        proof {
                            vstd::utf8::encode_utf8_decode_utf8(t@);
                        }
                        Some(String::from_str(t))
                    },
                    None => None,
                }
            } else {
                None
            }
        },
        _ => None,
    }
}

fn head_pattern_of(left: &Json) -> (r: Option<&Json>)
    ensures
        r matches Some(p) ==> head_pattern(*left) == Some(*p),
        r is None ==> head_pattern(*left) is None,
{
    match left {
        Json::Object(lm) => {
            let t = node_type(lm);
            if str_eq(t, "VariableDeclaration") {
                match get_field(lm, "declarations") {
                    Some(Json::Array(ds)) => if ds.len() > 0 {
                        match &ds[0] {
                            Json::Object(dm) => get_field(dm, "id"),
                            _ => None,
                        }
                    } else {
                        None
                    },
                    _ => None,
                }
            } else if str_eq(t, "UsingDeclaration") {
                None
            } else {
                Some(left)
            }
        },
        _ => Some(left),
    }
}

fn plain_first_arg_of(cm: &Vec<Member>) -> (r: Option<&Json>)
    ensures
        r matches Some(e) ==> plain_first_arg(cm@) == Some(*e),
        r is None ==> plain_first_arg(cm@) is None,
{
    match get_field(cm, "arguments") {
        Some(Json::Array(args)) => if args.len() > 0 {
            match &args[0] {
                Json::Object(am) => {
                    let no_spread = match get_field(am, "spread") {
                        Some(Json::Null) => true,
                        None => true,
                        _ => false,
                    };
                    match get_field(am, "expression") {
                        Some(e) => {
                            let is_id = match e {
                                Json::Object(em) => ident_check(em),
                                _ => false,
                            };
                            if no_spread && !is_id {
                                Some(e)
                            } else {
                                None
                            }
                        },
                        None => None,
                    }
                },
                _ => None,
            }
        } else {
            None
        },
        _ => None,
    }
}

fn is_entries_member_check(cm: &Vec<Member>) -> (r: bool)
    ensures
        r == is_entries_member(cm@),
{
    str_eq(node_type(cm), "MemberExpression") && match get_field(cm, "property") {
        Some(Json::Object(pm)) => str_eq(node_type(pm), "Identifier") && match get_str(pm, "value") {
            Some(v) => str_eq(v.as_str(), "entries"),
            None => false,
        },
        _ => false,
    }
}

fn is_object_global_check(om: &Vec<Member>) -> (r: bool)
    ensures
        r == is_object_global(om@),
{
    ident_check(om) && match get_str(om, "value") {
        Some(v) => str_eq(v.as_str(), "Object"),
        None => false,
    }
}

fn entries_target_of(right: &Json) -> (r: Option<&Json>)
    ensures
        r matches Some(x) ==> entries_target(*right) == Some(*x),
        r is None ==> entries_target(*right) is None,
{
    match right {
        Json::Object(rm) => {
            if !str_eq(node_type(rm), "CallExpression") {
                return None;
            }
            match get_field(rm, "callee") {
                Some(Json::Object(cm)) => {
                    if !is_entries_member_check(cm) {
                        return None;
                    }
                    match get_field(cm, "object") {
                        Some(obj) => match obj {
                            Json::Object(om) => if is_object_global_check(om) {
                                plain_first_arg_of(rm)
                            } else if str_eq(node_type(om), "MemberExpression") {
                                Some(obj)
                            } else {
                                None
                            },
                            _ => None,
                        },
                        _ => None,
                    }
                },
                _ => None,
            }
        },
        _ => None,
    }
}

/// Parses a `for` loop header such as `item of items` or `[i, v] in obj`;
/// `None` if it is not a recognizable `for … of` / `for … in` header, one
/// loop spanning the whole text (see [`parsed_for`]).
pub fn parse_for(input: &str) -> (r: Option<ParsedFor>)
    ensures
        opt_for(r) == parsed_for(input@),
{
    let src = trimmed(input);
    let wrapped = concat3("for(", src.as_str(), "){}");
    let (m, base) = match swc_parse(wrapped.as_str(), false, true) {
        Ok(p) => p,
        Err(_) => {
            return None;
        },
    };
    for_header(wrapped.as_str(), base, &m)
}

/// The header that the module tree `m` of the wrapped text `src` (whose first
/// byte swc places at `base`) spells: a single `for … of` / `for … in` loop
/// spanning all of `src`, its binding and iterable cut out of `src` and
/// trimmed; `None` otherwise (see [`header_of`]).
pub fn for_header(src: &str, base: u32, m: &Json) -> (r: Option<ParsedFor>)
    ensures
        opt_for(r) == header_of(src.spec_bytes(), base, *m),
{
    let wrapped = src;
    let items = body_items(m);
    if items.len() != 1 {
        return None;
    }
    let sm = match &items[0] {
        Json::Object(sm) => sm,
        _ => {
            return None;
        },
    };
    let start = span_position(sm, "start");
    let end = span_position(sm, "end");
    let len = wrapped.as_bytes().len();
    if start != base || end < base || (end - base) as usize != len {
        return None;
    }
    let t = node_type(sm);
    let kind = if str_eq(t, "ForOfStatement") {
        ForKind::Of
    } else if str_eq(t, "ForInStatement") {
        ForKind::In
    } else {
        return None;
    };
    let (left, right) = match (get_field(sm, "left"), get_field(sm, "right")) {
        (Some(l), Some(r)) => (l, r),
        _ => {
            return None;
        },
    };
    let pattern = match head_pattern_of(left) {
        Some(p) => p,
        None => {
            return None;
        },
    };
    let binding = match snippet_of(wrapped, base, pattern) {
        Some(b) => b,
        None => {
            return None;
        },
    };
    let it = match kind {
        ForKind::Of => match entries_target_of(right) {
            Some(x) => x,
            None => right,
        },
        ForKind::In => right,
    };
    let iterable = match snippet_of(wrapped, base, it) {
        Some(i) => i,
        None => {
            return None;
        },
    };
    Some(ParsedFor { kind, binding: trimmed(binding.as_str()), iterable: trimmed(iterable.as_str()) })
}


/// A node's source text encodes to no more bytes than the file.
proof fn lemma_node_snippet_len(bytes: Seq<u8>, base: u32, j: Json)
    requires
        vstd::utf8::valid_utf8(bytes),
    ensures
        node_snippet(bytes, base, j) matches Some(x) ==> vstd::utf8::encode_utf8(x).len() <= bytes.len(),
{
    match j {
        Json::Object(ms) => {
            let (lo, hi) = (span_pos(ms@, "start"@), span_pos(ms@, "end"@));
            if snippet(bytes, base, lo, hi) is Some {
                lemma_text_of_encode(bytes, lo - base, hi - base);
            }
        },
        _ => {},
    }
}

/// The binding and iterable a header tree spells are trimmed and encode to
/// no more bytes than the parsed source.
proof fn lemma_header_fits(bytes: Seq<u8>, base: u32, m: Json)
    requires
        vstd::utf8::valid_utf8(bytes),
    ensures
        header_of(bytes, base, m) matches Some(p) ==> {
            &&& trim_white(p.binding) == p.binding
            &&& trim_white(p.iterable) == p.iterable
            &&& vstd::utf8::encode_utf8(p.binding).len() <= bytes.len()
            &&& vstd::utf8::encode_utf8(p.iterable).len() <= bytes.len()
        },
{
    assert forall|j: Json| #[trigger] node_snippet(bytes, base, j) is Some implies {
        let x = node_snippet(bytes, base, j)->Some_0;
        &&& trim_white(trim_white(x)) == trim_white(x)
        &&& vstd::utf8::encode_utf8(trim_white(x)).len() <= bytes.len()
    } by {
        lemma_node_snippet_len(bytes, base, j);
        let x = node_snippet(bytes, base, j)->Some_0;
        law_trim_idempotent(x);
        lemma_trim_encode_len(x);
    }
}

/// The loop header of `input` is that of `input` trimmed; its binding and
/// iterable are trimmed, and each encodes to no more bytes than `input` and
/// the seven bytes of `for(` … `){}`.
pub proof fn law_parse_for_trim(input: Seq<char>)
    ensures
        parsed_for(input) == parsed_for(trim_white(input)),
        parsed_for(input) matches Some(p) ==> {
            &&& trim_white(p.binding) == p.binding
            &&& trim_white(p.iterable) == p.iterable
            &&& vstd::utf8::encode_utf8(p.binding).len() <= vstd::utf8::encode_utf8(input).len() + 7
            &&& vstd::utf8::encode_utf8(p.iterable).len() <= vstd::utf8::encode_utf8(input).len() + 7
        },
{
    law_trim_idempotent(input);
    assert(for_source(trim_white(input)) == for_source(input));
    let src = for_source(input);
    let bytes = vstd::utf8::encode_utf8(src);
    vstd::utf8::encode_utf8_valid_utf8(src);
    reveal_strlit("for(");
    reveal_strlit("){}");
    vstd::utf8::is_ascii_chars_encode_utf8("for("@);
    vstd::utf8::is_ascii_chars_encode_utf8("){}"@);
    lemma_encode_concat("for("@ + trim_white(input), "){}"@);
    lemma_encode_concat("for("@, trim_white(input));
    lemma_trim_encode_len(input);
    match swc_module(src, false, true) {
        Ok((m, base)) => {
            lemma_header_fits(bytes, base, m);
        },
        Err(_) => {},
    }
}

} // verus!
