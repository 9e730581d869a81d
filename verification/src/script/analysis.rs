//! Lightweight static analysis of a parsed script: the names a `script:`
//! block declares, the identifiers an expression reads (with or without
//! lexical scoping), and the identifiers a handler assigns to.
//!
//! swc parses the code; the analysis walks the JSON form of swc's syntax tree
//! (see [`crate::script::json`]). In that form every node is an object whose
//! `type` member names its kind, and an object's members come in the order in
//! which swc's visitor walks the node's fields. A value identifier is a node of
//! kind `Identifier` that carries a syntax context (`ctxt`); property names,
//! which swc does not treat as identifiers, carry none.

use vstd::prelude::*;
use vstd::string::StringSliceAdditionalSpecFns;

use crate::script::json::{
    field, get_field, get_str, node_type, parse_u32, str_eq, str_field, swc_module, swc_parse,
    type_of, dec_u32, Json, Member,
};
use crate::span::TextRange;
use crate::text::concat3;

verus! {

// ---------------------------------------------------------------------------
// Identifier occurrences.

/// An identifier occurrence: its name and the swc byte positions of its span.
#[derive(Debug)]
pub struct Occ {
    pub name: String,
    pub lo: u32,
    pub hi: u32,
}

/// The abstract form of an [`Occ`].
pub struct SOcc {
    pub name: Seq<char>,
    pub lo: u32,
    pub hi: u32,
}

impl View for Occ {
    type V = SOcc;

    open spec fn view(&self) -> SOcc {
        SOcc { name: self.name@, lo: self.lo, hi: self.hi }
    }
}

pub open spec fn occs(s: Seq<Occ>) -> Seq<SOcc> {
    s.map_values(|o: Occ| o@)
}

pub open spec fn names(s: Seq<SOcc>) -> Seq<Seq<char>> {
    s.map_values(|o: SOcc| o.name)
}

pub open spec fn string_views(s: Seq<String>) -> Seq<Seq<char>> {
    s.map_values(|x: String| x@)
}

pub proof fn lemma_occs_push(s: Seq<Occ>, o: Occ)
    ensures
        occs(s.push(o)) == occs(s).push(o@),
{
    assert(occs(s.push(o)) =~= occs(s).push(o@));
}

pub proof fn lemma_string_views_push(s: Seq<String>, x: String)
    ensures
        string_views(s.push(x)) == string_views(s).push(x@),
{
    assert(string_views(s.push(x)) =~= string_views(s).push(x@));
}

/// The number a JSON value holds, or 0.
pub open spec fn num_of(j: Option<Json>) -> u32 {
    match j {
        Some(Json::Number(n)) => match dec_u32(vstd::utf8::encode_utf8(n@)) {
            Some(v) => v,
            None => 0,
        },
        _ => 0,
    }
}

/// The `start` or `end` position of a node's `span`, or 0.
pub open spec fn span_pos(ms: Seq<Member>, key: Seq<char>) -> u32 {
    match field(ms, "span"@) {
        Some(Json::Object(sm)) => num_of(field(sm@, key)),
        _ => 0,
    }
}

/// A value identifier node.
pub open spec fn is_ident(ms: Seq<Member>) -> bool {
    type_of(ms) == "Identifier"@ && field(ms, "ctxt"@) is Some
}

/// The occurrence an identifier node stands for.
pub open spec fn occ_of(ms: Seq<Member>) -> SOcc {
    SOcc {
        name: match str_field(ms, "value"@) {
            Some(s) => s,
            None => Seq::empty(),
        },
        lo: span_pos(ms, "start"@),
        hi: span_pos(ms, "end"@),
    }
}

fn number_in(j: Option<&Json>) -> (r: u32)
    ensures
        r == num_of(
            match j {
                Some(v) => Some(*v),
                None => None,
            },
        ),
{
    match j {
        Some(Json::Number(n)) => {
            proof {
                vstd::utf8::encode_utf8_decode_utf8(n@);
            }
            match parse_u32(n.as_str()) {
                Some(v) => v,
                None => 0,
            }
        },
        _ => 0,
    }
}

pub(crate) fn span_position(ms: &Vec<Member>, key: &str) -> (r: u32)
    ensures
        r == span_pos(ms@, key@),
{
    match get_field(ms, "span") {
        Some(Json::Object(sm)) => number_in(get_field(sm, key)),
        _ => 0,
    }
}

pub(crate) fn ident_check(ms: &Vec<Member>) -> (r: bool)
    ensures
        r == is_ident(ms@),
{
    str_eq(node_type(ms), "Identifier") && get_field(ms, "ctxt").is_some()
}

pub(crate) fn ident_occ(ms: &Vec<Member>) -> (r: Occ)
    ensures
        r@ == occ_of(ms@),
{
    let name = match get_str(ms, "value") {
        Some(s) => s.clone(),
        None => String::new(),
    };
    Occ { name, lo: span_position(ms, "start"), hi: span_position(ms, "end") }
}

// ---------------------------------------------------------------------------
// Referenced identifiers: every value identifier, in visiting order.

pub open spec fn refs(j: Json) -> Seq<SOcc>
    decreases j,
{
    match j {
        Json::Array(v) => refs_list(v@),
        Json::Object(ms) => if is_ident(ms@) {
            seq![occ_of(ms@)]
        } else {
            refs_members(ms@)
        },
        _ => Seq::empty(),
    }
}

pub open spec fn refs_list(s: Seq<Json>) -> Seq<SOcc>
    decreases s,
{
    if s.len() == 0 {
        Seq::empty()
    } else {
        refs_list(s.drop_last()) + refs(s.last())
    }
}

pub open spec fn refs_members(ms: Seq<Member>) -> Seq<SOcc>
    decreases ms,
{
    if ms.len() == 0 {
        Seq::empty()
    } else {
        refs_members(ms.drop_last()) + refs(ms.last().value)
    }
}

#[verifier::loop_isolation(false)]
fn refs_into(j: &Json, out: &mut Vec<Occ>)
    ensures
        occs(final(out)@) == occs(old(out)@) + refs(*j),
    decreases j,
{
    match j {
        Json::Array(v) => {
            let mut i: usize = 0;
            while i < v.len()
                invariant
                    i <= v@.len(),
                    occs(out@) == occs(old(out)@) + refs_list(v@.subrange(0, i as int)),
                decreases v@.len() - i,
            {
                proof {
                    assert(decreases_to!(*j => v@[i as int]));
                }
                refs_into(&v[i], out);
                proof {
                    let t = v@.subrange(0, i + 1);
                    assert(t.drop_last() =~= v@.subrange(0, i as int));
                    assert(occs(out@) =~= occs(old(out)@) + refs_list(t));
                }
                i += 1;
            }
            assert(v@.subrange(0, v@.len() as int) =~= v@);
        },
        Json::Object(ms) => {
            if ident_check(ms) {
                let o = ident_occ(ms);
                proof {
                    lemma_occs_push(out@, o);
                }
                out.push(o);
                assert(occs(out@) =~= occs(old(out)@) + refs(*j));
            } else {
                let mut i: usize = 0;
                while i < ms.len()
                    invariant
                        i <= ms@.len(),
                        occs(out@) == occs(old(out)@) + refs_members(ms@.subrange(0, i as int)),
                    decreases ms@.len() - i,
                {
                    proof {
                        assert(decreases_to!(*j => ms@[i as int].value));
                    }
                    refs_into(&ms[i].value, out);
                    proof {
                        let t = ms@.subrange(0, i + 1);
                        assert(t.drop_last() =~= ms@.subrange(0, i as int));
                        assert(occs(out@) =~= occs(old(out)@) + refs_members(t));
                    }
                    i += 1;
                }
                assert(ms@.subrange(0, ms@.len() as int) =~= ms@);
            }
        },
        _ => {
            assert(occs(out@) =~= occs(old(out)@) + refs(*j));
        },
    }
}


// ---------------------------------------------------------------------------
// Binding constructs: the names a pattern, a parameter, a variable declarator
// or an import specifier introduces, in source order.

/// The member of a binding construct that holds what it binds.
pub open spec fn binder_key(t: Seq<char>) -> Option<Seq<char>> {
    if t == "ArrayPattern"@ {
        Some("elements"@)
    } else if t == "ObjectPattern"@ {
        Some("properties"@)
    } else if t == "RestElement"@ {
        Some("argument"@)
    } else if t == "AssignmentPattern"@ {
        Some("left"@)
    } else if t == "KeyValuePatternProperty"@ {
        Some("value"@)
    } else if t == "AssignmentPatternProperty"@ {
        Some("key"@)
    } else if t == "Parameter"@ {
        Some("pat"@)
    } else if t == "VariableDeclarator"@ {
        Some("id"@)
    } else if t == "ImportSpecifier"@ || t == "ImportDefaultSpecifier"@ || t
        == "ImportNamespaceSpecifier"@ {
        Some("local"@)
    } else {
        None
    }
}

pub open spec fn binders(j: Json) -> Seq<SOcc>
    decreases j,
{
    match j {
        Json::Array(v) => binders_list(v@),
        Json::Object(ms) => if is_ident(ms@) {
            seq![occ_of(ms@)]
        } else {
            match binder_key(type_of(ms@)) {
                Some(k) => binders_in(ms@, k),
                None => Seq::empty(),
            }
        },
        _ => Seq::empty(),
    }
}

pub open spec fn binders_list(s: Seq<Json>) -> Seq<SOcc>
    decreases s,
{
    if s.len() == 0 {
        Seq::empty()
    } else {
        binders_list(s.drop_last()) + binders(s.last())
    }
}

/// The names bound by the members named `key`.
pub open spec fn binders_in(ms: Seq<Member>, key: Seq<char>) -> Seq<SOcc>
    decreases ms,
{
    if ms.len() == 0 {
        Seq::empty()
    } else {
        binders_in(ms.drop_last(), key) + if ms.last().key@ == key {
            binders(ms.last().value)
        } else {
            Seq::empty()
        }
    }
}

fn binder_key_of(t: &str) -> (r: Option<&'static str>)
    ensures
        r matches Some(k) ==> binder_key(t@) == Some(k@),
        r is None ==> binder_key(t@) is None,
{
    if str_eq(t, "ArrayPattern") {
        Some("elements")
    } else if str_eq(t, "ObjectPattern") {
        Some("properties")
    } else if str_eq(t, "RestElement") {
        Some("argument")
    } else if str_eq(t, "AssignmentPattern") {
        Some("left")
    } else if str_eq(t, "KeyValuePatternProperty") {
        Some("value")
    } else if str_eq(t, "AssignmentPatternProperty") {
        Some("key")
    } else if str_eq(t, "Parameter") {
        Some("pat")
    } else if str_eq(t, "VariableDeclarator") {
        Some("id")
    } else if str_eq(t, "ImportSpecifier") || str_eq(t, "ImportDefaultSpecifier") || str_eq(
        t,
        "ImportNamespaceSpecifier",
    ) {
        Some("local")
    } else {
        None
    }
}

#[verifier::loop_isolation(false)]
fn binders_into(j: &Json, out: &mut Vec<Occ>)
    ensures
        occs(final(out)@) == occs(old(out)@) + binders(*j),
    decreases j,
{
    match j {
        Json::Array(v) => {
            let mut i: usize = 0;
            while i < v.len()
                invariant
                    i <= v@.len(),
                    occs(out@) == occs(old(out)@) + binders_list(v@.subrange(0, i as int)),
                decreases v@.len() - i,
            {
                proof {
                    assert(decreases_to!(*j => v@[i as int]));
                }
                binders_into(&v[i], out);
                proof {
                    let t = v@.subrange(0, i + 1);
                    assert(t.drop_last() =~= v@.subrange(0, i as int));
                    assert(occs(out@) =~= occs(old(out)@) + binders_list(t));
                }
                i += 1;
            }
            assert(v@.subrange(0, v@.len() as int) =~= v@);
        },
        Json::Object(ms) => {
            if ident_check(ms) {
                let o = ident_occ(ms);
                proof {
                    lemma_occs_push(out@, o);
                }
                out.push(o);
                assert(occs(out@) =~= occs(old(out)@) + binders(*j));
            } else {
                match binder_key_of(node_type(ms)) {
                    Some(k) => {
                        let mut i: usize = 0;
                        while i < ms.len()
                            invariant
                                i <= ms@.len(),
                                occs(out@) == occs(old(out)@) + binders_in(
                                    ms@.subrange(0, i as int),
                                    k@,
                                ),
                            decreases ms@.len() - i,
                        {
                            if str_eq(ms[i].key.as_str(), k) {
                                proof {
                                    assert(decreases_to!(*j => ms@[i as int].value));
                                }
                                binders_into(&ms[i].value, out);
                            }
                            proof {
                                let t = ms@.subrange(0, i + 1);
                                assert(t.drop_last() =~= ms@.subrange(0, i as int));
                                assert(occs(out@) =~= occs(old(out)@) + binders_in(t, k@));
                            }
                            i += 1;
                        }
                        assert(ms@.subrange(0, ms@.len() as int) =~= ms@);
                    },
                    None => {
                        assert(occs(out@) =~= occs(old(out)@) + binders(*j));
                    },
                }
            }
        },
        _ => {
            assert(occs(out@) =~= occs(old(out)@) + binders(*j));
        },
    }
}

fn binders_in_into(ms: &Vec<Member>, key: &str, out: &mut Vec<Occ>)
    ensures
        occs(final(out)@) == occs(old(out)@) + binders_in(ms@, key@),
{
    let mut i: usize = 0;
    while i < ms.len()
        invariant
            i <= ms@.len(),
            occs(out@) == occs(old(out)@) + binders_in(ms@.subrange(0, i as int), key@),
        decreases ms@.len() - i,
    {
        if str_eq(ms[i].key.as_str(), key) {
            binders_into(&ms[i].value, out);
        }
        proof {
            let t = ms@.subrange(0, i + 1);
            assert(t.drop_last() =~= ms@.subrange(0, i as int));
            assert(occs(out@) =~= occs(old(out)@) + binders_in(t, key@));
        }
        i += 1;
    }
    assert(ms@.subrange(0, ms@.len() as int) =~= ms@);
}


// ---------------------------------------------------------------------------
// Declarations: the names a declaration statement introduces into its scope
// (`let`/`const`/`var` declarators, `function` and `class` declarations).

pub open spec fn decl(j: Json) -> Seq<SOcc>
    decreases j,
{
    match j {
        Json::Array(v) => decl_list(v@),
        Json::Object(ms) => {
            let t = type_of(ms@);
            if t == "VariableDeclaration"@ {
                binders_in(ms@, "declarations"@)
            } else if t == "FunctionDeclaration"@ || t == "ClassDeclaration"@ {
                binders_in(ms@, "identifier"@)
            } else {
                Seq::empty()
            }
        },
        _ => Seq::empty(),
    }
}

pub open spec fn decl_list(s: Seq<Json>) -> Seq<SOcc>
    decreases s,
{
    if s.len() == 0 {
        Seq::empty()
    } else {
        decl_list(s.drop_last()) + decl(s.last())
    }
}

/// The names declared by the members named `key`.
pub open spec fn decl_in(ms: Seq<Member>, key: Seq<char>) -> Seq<SOcc>
    decreases ms.len(),
{
    if ms.len() == 0 {
        Seq::empty()
    } else {
        decl_in(ms.drop_last(), key) + if ms.last().key@ == key {
            decl(ms.last().value)
        } else {
            Seq::empty()
        }
    }
}

#[verifier::loop_isolation(false)]
fn decl_into(j: &Json, out: &mut Vec<Occ>)
    ensures
        occs(final(out)@) == occs(old(out)@) + decl(*j),
    decreases j,
{
    match j {
        Json::Array(v) => {
            let mut i: usize = 0;
            while i < v.len()
                invariant
                    i <= v@.len(),
                    occs(out@) == occs(old(out)@) + decl_list(v@.subrange(0, i as int)),
                decreases v@.len() - i,
            {
                proof {
                    assert(decreases_to!(*j => v@[i as int]));
                }
                decl_into(&v[i], out);
                proof {
                    let t = v@.subrange(0, i + 1);
                    assert(t.drop_last() =~= v@.subrange(0, i as int));
                    assert(occs(out@) =~= occs(old(out)@) + decl_list(t));
                }
                i += 1;
            }
            assert(v@.subrange(0, v@.len() as int) =~= v@);
        },
        Json::Object(ms) => {
            let t = node_type(ms);
            if str_eq(t, "VariableDeclaration") {
                binders_in_into(ms, "declarations", out);
            } else if str_eq(t, "FunctionDeclaration") || str_eq(t, "ClassDeclaration") {
                binders_in_into(ms, "identifier", out);
            } else {
                assert(occs(out@) =~= occs(old(out)@) + decl(*j));
            }
        },
        _ => {
            assert(occs(out@) =~= occs(old(out)@) + decl(*j));
        },
    }
}

fn decl_in_into(ms: &Vec<Member>, key: &str, out: &mut Vec<Occ>)
    ensures
        occs(final(out)@) == occs(old(out)@) + decl_in(ms@, key@),
{
    let mut i: usize = 0;
    while i < ms.len()
        invariant
            i <= ms@.len(),
            occs(out@) == occs(old(out)@) + decl_in(ms@.subrange(0, i as int), key@),
        decreases ms@.len() - i,
    {
        if str_eq(ms[i].key.as_str(), key) {
            decl_into(&ms[i].value, out);
        }
        proof {
            let t = ms@.subrange(0, i + 1);
            assert(t.drop_last() =~= ms@.subrange(0, i as int));
            assert(occs(out@) =~= occs(old(out)@) + decl_in(t, key@));
        }
        i += 1;
    }
    assert(ms@.subrange(0, ms@.len() as int) =~= ms@);
}

// ---------------------------------------------------------------------------
// Top-level bindings of a module.

/// The names a module item binds: its declaration (exported or not) or its
/// import locals.
pub open spec fn top(j: Json) -> Seq<SOcc> {
    match j {
        Json::Object(ms) => {
            let t = type_of(ms@);
            if t == "ExportDeclaration"@ {
                decl_in(ms@, "declaration"@)
            } else if t == "ImportDeclaration"@ {
                binders_in(ms@, "specifiers"@)
            } else {
                decl(j)
            }
        },
        _ => decl(j),
    }
}

pub open spec fn top_list(s: Seq<Json>) -> Seq<SOcc>
    decreases s.len(),
{
    if s.len() == 0 {
        Seq::empty()
    } else {
        top_list(s.drop_last()) + top(s.last())
    }
}

/// The items of a module tree (its `body`).
pub open spec fn body_of(m: Json) -> Seq<Json> {
    match m {
        Json::Object(ms) => match field(ms@, "body"@) {
            Some(Json::Array(v)) => v@,
            _ => Seq::empty(),
        },
        _ => Seq::empty(),
    }
}

fn top_into(j: &Json, out: &mut Vec<Occ>)
    ensures
        occs(final(out)@) == occs(old(out)@) + top(*j),
{
    match j {
        Json::Object(ms) => {
            let t = node_type(ms);
            if str_eq(t, "ExportDeclaration") {
                decl_in_into(ms, "declaration", out);
            } else if str_eq(t, "ImportDeclaration") {
                binders_in_into(ms, "specifiers", out);
            } else {
                decl_into(j, out);
            }
        },
        _ => decl_into(j, out),
    }
}

pub(crate) fn body_items(m: &Json) -> (r: &[Json])
    ensures
        r@ == body_of(*m),
{
    match m {
        Json::Object(ms) => match get_field(ms, "body") {
            Some(Json::Array(v)) => v.as_slice(),
            _ => &[],
        },
        _ => &[],
    }
}

fn module_bindings(m: &Json) -> (r: Vec<Occ>)
    ensures
        occs(r@) == top_list(body_of(*m)),
{
    let items = body_items(m);
    let mut out: Vec<Occ> = Vec::new();
    let mut i: usize = 0;
    while i < items.len()
        invariant
            i <= items@.len(),
            items@ == body_of(*m),
            occs(out@) == top_list(items@.subrange(0, i as int)),
        decreases items@.len() - i,
    {
        top_into(&items[i], &mut out);
        proof {
            let t = items@.subrange(0, i + 1);
            assert(t.drop_last() =~= items@.subrange(0, i as int));
        }
        i += 1;
    }
    assert(items@.subrange(0, items@.len() as int) =~= items@);
    out
}


// ---------------------------------------------------------------------------
// Free identifiers: identifiers not bound by an enclosing function or arrow
// parameter, a named function or class expression, or a declaration of an
// enclosing block or function body.

/// A function node that is a member of another node (a class method's
/// `function`): it has parameters but no kind of its own.
pub open spec fn is_function(ms: Seq<Member>) -> bool {
    type_of(ms).len() == 0 && field(ms, "params"@) is Some
}

/// The names a node binds for its own children.
pub open spec fn scope_of(ms: Seq<Member>) -> Seq<SOcc> {
    let t = type_of(ms);
    if t == "ArrowFunctionExpression"@ || t == "FunctionDeclaration"@ || t == "MethodProperty"@
        || is_function(ms) {
        binders_in(ms, "params"@)
    } else if t == "FunctionExpression"@ {
        binders_in(ms, "identifier"@) + binders_in(ms, "params"@)
    } else if t == "ClassExpression"@ {
        binders_in(ms, "identifier"@)
    } else if t == "BlockStatement"@ || t == "FunctionBody"@ {
        decl_in(ms, "stmts"@)
    } else {
        Seq::empty()
    }
}

/// The member a node does not visit: the name of a function or class
/// declaration or expression.
pub open spec fn skipped(ms: Seq<Member>) -> Option<Seq<char>> {
    let t = type_of(ms);
    if t == "FunctionDeclaration"@ || t == "FunctionExpression"@ || t == "ClassDeclaration"@ || t
        == "ClassExpression"@ {
        Some("identifier"@)
    } else {
        None
    }
}

/// The member a node visits outside its own scope: a method's key.
pub open spec fn outside(ms: Seq<Member>) -> Option<Seq<char>> {
    if type_of(ms) == "MethodProperty"@ {
        Some("key"@)
    } else {
        None
    }
}

pub open spec fn free(j: Json, bound: Seq<Seq<char>>) -> Seq<SOcc>
    decreases j,
{
    match j {
        Json::Array(v) => free_list(v@, bound),
        Json::Object(ms) => if is_ident(ms@) {
            if bound.contains(occ_of(ms@).name) {
                Seq::empty()
            } else {
                seq![occ_of(ms@)]
            }
        } else {
            free_members(
                ms@,
                bound,
                bound + names(scope_of(ms@)),
                skipped(ms@),
                outside(ms@),
            )
        },
        _ => Seq::empty(),
    }
}

pub open spec fn free_list(s: Seq<Json>, bound: Seq<Seq<char>>) -> Seq<SOcc>
    decreases s,
{
    if s.len() == 0 {
        Seq::empty()
    } else {
        free_list(s.drop_last(), bound) + free(s.last(), bound)
    }
}

/// The members of a node: `skip` is not visited, `keep` is visited with the
/// names bound around the node (`outer`), the rest with the node's own scope
/// added (`inner`).
pub open spec fn free_members(
    ms: Seq<Member>,
    outer: Seq<Seq<char>>,
    inner: Seq<Seq<char>>,
    skip: Option<Seq<char>>,
    keep: Option<Seq<char>>,
) -> Seq<SOcc>
    decreases ms,
{
    if ms.len() == 0 {
        Seq::empty()
    } else {
        let m = ms.last();
        free_members(ms.drop_last(), outer, inner, skip, keep) + if skip == Some(m.key@) {
            Seq::empty()
        } else if keep == Some(m.key@) {
            free(m.value, outer)
        } else {
            free(m.value, inner)
        }
    }
}

fn bound_has(bound: &Vec<String>, name: &str) -> (r: bool)
    ensures
        r == string_views(bound@).contains(name@),
{
    let mut i: usize = 0;
    while i < bound.len()
        invariant
            i <= bound@.len(),
            forall|k: int| 0 <= k < i ==> bound@[k]@ != name@,
        decreases bound@.len() - i,
    {
        if str_eq(bound[i].as_str(), name) {
            assert(string_views(bound@)[i as int] == name@);
            return true;
        }
        i += 1;
    }
    assert(!string_views(bound@).contains(name@)) by {
        if string_views(bound@).contains(name@) {
            let k = choose|k: int| 0 <= k < bound@.len() && string_views(bound@)[k] == name@;
            assert(bound@[k]@ == name@);
        }
    }
    false
}

/// `bound` followed by the names of `extra`.
fn extended(bound: &Vec<String>, extra: &Vec<Occ>) -> (r: Vec<String>)
    ensures
        string_views(r@) == string_views(bound@) + names(occs(extra@)),
{
    let mut r: Vec<String> = Vec::new();
    let mut i: usize = 0;
    while i < bound.len()
        invariant
            i <= bound@.len(),
            string_views(r@) == string_views(bound@.subrange(0, i as int)),
        decreases bound@.len() - i,
    {
        let c = bound[i].clone();
        proof {
            lemma_string_views_push(r@, c);
            lemma_string_views_push(bound@.subrange(0, i as int), bound@[i as int]);
            assert(bound@.subrange(0, i as int).push(bound@[i as int]) =~= bound@.subrange(0, i + 1));
        }
        r.push(c);
        i += 1;
    }
    assert(bound@.subrange(0, bound@.len() as int) =~= bound@);
    let mut k: usize = 0;
    while k < extra.len()
        invariant
            k <= extra@.len(),
            string_views(r@) == string_views(bound@) + names(occs(extra@.subrange(0, k as int))),
        decreases extra@.len() - k,
    {
        let c = extra[k].name.clone();
        proof {
            lemma_string_views_push(r@, c);
            let t = extra@.subrange(0, k as int);
            assert(t.push(extra@[k as int]) =~= extra@.subrange(0, k + 1));
            lemma_occs_push(t, extra@[k as int]);
            assert(names(occs(t).push(extra@[k as int]@)) =~= names(occs(t)).push(c@));
        }
        r.push(c);
        k += 1;
    }
    assert(extra@.subrange(0, extra@.len() as int) =~= extra@);
    r
}

fn is_function_check(ms: &Vec<Member>) -> (r: bool)
    ensures
        r == is_function(ms@),
{
    node_type(ms).unicode_len() == 0 && get_field(ms, "params").is_some()
}

fn scope_into(ms: &Vec<Member>) -> (r: Vec<Occ>)
    ensures
        occs(r@) == scope_of(ms@),
{
    let t = node_type(ms);
    let mut out: Vec<Occ> = Vec::new();
    if str_eq(t, "ArrowFunctionExpression") || str_eq(t, "FunctionDeclaration") || str_eq(
        t,
        "MethodProperty",
    ) || is_function_check(ms) {
        binders_in_into(ms, "params", &mut out);
    } else if str_eq(t, "FunctionExpression") {
        binders_in_into(ms, "identifier", &mut out);
        binders_in_into(ms, "params", &mut out);
    } else if str_eq(t, "ClassExpression") {
        binders_in_into(ms, "identifier", &mut out);
    } else if str_eq(t, "BlockStatement") || str_eq(t, "FunctionBody") {
        decl_in_into(ms, "stmts", &mut out);
    }
    assert(occs(out@) =~= scope_of(ms@));
    out
}

fn skipped_of(ms: &Vec<Member>) -> (r: Option<&'static str>)
    ensures
        r matches Some(k) ==> skipped(ms@) == Some(k@),
        r is None ==> skipped(ms@) is None,
{
    let t = node_type(ms);
    if str_eq(t, "FunctionDeclaration") || str_eq(t, "FunctionExpression") || str_eq(
        t,
        "ClassDeclaration",
    ) || str_eq(t, "ClassExpression") {
        Some("identifier")
    } else {
        None
    }
}

fn outside_of(ms: &Vec<Member>) -> (r: Option<&'static str>)
    ensures
        r matches Some(k) ==> outside(ms@) == Some(k@),
        r is None ==> outside(ms@) is None,
{
    if str_eq(node_type(ms), "MethodProperty") {
        Some("key")
    } else {
        None
    }
}

/// `key` is the member name `k` (`None` names no member).
fn key_is(key: &str, k: Option<&str>) -> (r: bool)
    ensures
        r == (k matches Some(x) && x@ == key@),
{
    match k {
        Some(x) => str_eq(x, key),
        None => false,
    }
}

#[verifier::loop_isolation(false)]
fn free_into(j: &Json, bound: &Vec<String>, out: &mut Vec<Occ>)
    ensures
        occs(final(out)@) == occs(old(out)@) + free(*j, string_views(bound@)),
    decreases j,
{
    let ghost b = string_views(bound@);
    match j {
        Json::Array(v) => {
            let mut i: usize = 0;
            while i < v.len()
                invariant
                    i <= v@.len(),
                    occs(out@) == occs(old(out)@) + free_list(v@.subrange(0, i as int), b),
                decreases v@.len() - i,
            {
                proof {
                    assert(decreases_to!(*j => v@[i as int]));
                }
                free_into(&v[i], bound, out);
                proof {
                    let t = v@.subrange(0, i + 1);
                    assert(t.drop_last() =~= v@.subrange(0, i as int));
                    assert(occs(out@) =~= occs(old(out)@) + free_list(t, b));
                }
                i += 1;
            }
            assert(v@.subrange(0, v@.len() as int) =~= v@);
        },
        Json::Object(ms) => {
            if ident_check(ms) {
                let o = ident_occ(ms);
                if !bound_has(bound, o.name.as_str()) {
                    proof {
                        lemma_occs_push(out@, o);
                    }
                    out.push(o);
                }
                assert(occs(out@) =~= occs(old(out)@) + free(*j, b));
            } else {
                let extra = scope_into(ms);
                let inner = extended(bound, &extra);
                let skip = skipped_of(ms);
                let keep = outside_of(ms);
                let ghost sk = skipped(ms@);
                let ghost kp = outside(ms@);
                let ghost ib = b + names(scope_of(ms@));
                let mut i: usize = 0;
                while i < ms.len()
                    invariant
                        i <= ms@.len(),
                        string_views(inner@) == ib,
                        occs(out@) == occs(old(out)@) + free_members(
                            ms@.subrange(0, i as int),
                            b,
                            ib,
                            sk,
                            kp,
                        ),
                    decreases ms@.len() - i,
                {
                    proof {
                        assert(decreases_to!(*j => ms@[i as int].value));
                    }
                    let key = ms[i].key.as_str();
                    if key_is(key, skip) {
                    } else if key_is(key, keep) {
                        free_into(&ms[i].value, bound, out);
                    } else {
                        free_into(&ms[i].value, &inner, out);
                    }
                    proof {
                        let t = ms@.subrange(0, i + 1);
                        assert(t.drop_last() =~= ms@.subrange(0, i as int));
                        assert(occs(out@) =~= occs(old(out)@) + free_members(t, b, ib, sk, kp));
                    }
                    i += 1;
                }
                assert(ms@.subrange(0, ms@.len() as int) =~= ms@);
            }
        },
        _ => {
            assert(occs(out@) =~= occs(old(out)@) + free(*j, b));
        },
    }
}


// ---------------------------------------------------------------------------
// Assigned identifiers: the targets of assignments and of `++`/`--`. A member
// target reports its root object.

/// Where the root identifier of an expression is found: a member expression's
/// object, a parenthesized expression's inner expression, or the member base of
/// an optional chain (the flag: only a member expression counts there).
pub open spec fn root_key(t: Seq<char>, member_only: bool) -> Option<(Seq<char>, bool)> {
    if t == "MemberExpression"@ {
        Some(("object"@, false))
    } else if member_only {
        None
    } else if t == "ParenthesisExpression"@ {
        Some(("expression"@, false))
    } else if t == "OptionalChainingExpression"@ {
        Some(("base"@, true))
    } else {
        None
    }
}

/// The leftmost identifier of a (possibly nested member, parenthesized or
/// optional-chain) expression, as a sequence of at most one occurrence.
pub open spec fn root(j: Json, member_only: bool) -> Seq<SOcc>
    decreases j,
{
    match j {
        Json::Object(ms) => if is_ident(ms@) {
            if member_only {
                Seq::empty()
            } else {
                seq![occ_of(ms@)]
            }
        } else {
            match root_key(type_of(ms@), member_only) {
                Some((k, f)) => root_in(ms@, k, f),
                None => Seq::empty(),
            }
        },
        _ => Seq::empty(),
    }
}

pub open spec fn root_in(ms: Seq<Member>, key: Seq<char>, member_only: bool) -> Seq<SOcc>
    decreases ms,
{
    if ms.len() == 0 {
        Seq::empty()
    } else {
        root_in(ms.drop_last(), key, member_only) + if ms.last().key@ == key {
            root(ms.last().value, member_only)
        } else {
            Seq::empty()
        }
    }
}

/// The names an assignment target assigns: the names of a destructuring
/// pattern, or the root of an identifier, member or parenthesized target.
pub open spec fn target(j: Json) -> Seq<SOcc> {
    match j {
        Json::Object(ms) => {
            let t = type_of(ms@);
            if t == "ArrayPattern"@ || t == "ObjectPattern"@ {
                binders(j)
            } else if is_ident(ms@) || t == "MemberExpression"@ || t == "ParenthesisExpression"@ {
                root(j, false)
            } else {
                Seq::empty()
            }
        },
        _ => Seq::empty(),
    }
}

pub open spec fn assigned(j: Json) -> Seq<SOcc>
    decreases j,
{
    match j {
        Json::Array(v) => assigned_list(v@),
        Json::Object(ms) => assigned_members(ms@, type_of(ms@)),
        _ => Seq::empty(),
    }
}

pub open spec fn assigned_list(s: Seq<Json>) -> Seq<SOcc>
    decreases s,
{
    if s.len() == 0 {
        Seq::empty()
    } else {
        assigned_list(s.drop_last()) + assigned(s.last())
    }
}

/// The members of a node of kind `t`: an assignment contributes its target
/// and what its right side assigns; an update contributes the root of its
/// argument and what the argument assigns; any other node, what its members
/// assign.
pub open spec fn assigned_members(ms: Seq<Member>, t: Seq<char>) -> Seq<SOcc>
    decreases ms,
{
    if ms.len() == 0 {
        Seq::empty()
    } else {
        let m = ms.last();
        assigned_members(ms.drop_last(), t) + if t == "AssignmentExpression"@ {
            if m.key@ == "left"@ {
                target(m.value)
            } else if m.key@ == "right"@ {
                assigned(m.value)
            } else {
                Seq::empty()
            }
        } else if t == "UpdateExpression"@ {
            if m.key@ == "argument"@ {
                root(m.value, false) + assigned(m.value)
            } else {
                Seq::empty()
            }
        } else {
            assigned(m.value)
        }
    }
}

fn root_key_of(t: &str, member_only: bool) -> (r: Option<(&'static str, bool)>)
    ensures
        r matches Some((k, f)) ==> root_key(t@, member_only) == Some((k@, f)),
        r is None ==> root_key(t@, member_only) is None,
{
    if str_eq(t, "MemberExpression") {
        Some(("object", false))
    } else if member_only {
        None
    } else if str_eq(t, "ParenthesisExpression") {
        Some(("expression", false))
    } else if str_eq(t, "OptionalChainingExpression") {
        Some(("base", true))
    } else {
        None
    }
}

#[verifier::loop_isolation(false)]
fn root_into(j: &Json, member_only: bool, out: &mut Vec<Occ>)
    ensures
        occs(final(out)@) == occs(old(out)@) + root(*j, member_only),
    decreases j,
{
    match j {
        Json::Object(ms) => {
            if ident_check(ms) {
                if !member_only {
                    let o = ident_occ(ms);
                    proof {
                        lemma_occs_push(out@, o);
                    }
                    out.push(o);
                }
                assert(occs(out@) =~= occs(old(out)@) + root(*j, member_only));
            } else {
                match root_key_of(node_type(ms), member_only) {
                    Some((k, f)) => {
                        let mut i: usize = 0;
                        while i < ms.len()
                            invariant
                                i <= ms@.len(),
                                occs(out@) == occs(old(out)@) + root_in(
                                    ms@.subrange(0, i as int),
                                    k@,
                                    f,
                                ),
                            decreases ms@.len() - i,
                        {
                            if str_eq(ms[i].key.as_str(), k) {
                                proof {
                                    assert(decreases_to!(*j => ms@[i as int].value));
                                }
                                root_into(&ms[i].value, f, out);
                            }
                            proof {
                                let t = ms@.subrange(0, i + 1);
                                assert(t.drop_last() =~= ms@.subrange(0, i as int));
                                assert(occs(out@) =~= occs(old(out)@) + root_in(t, k@, f));
                            }
                            i += 1;
                        }
                        assert(ms@.subrange(0, ms@.len() as int) =~= ms@);
                    },
                    None => {
                        assert(occs(out@) =~= occs(old(out)@) + root(*j, member_only));
                    },
                }
            }
        },
        _ => {
            assert(occs(out@) =~= occs(old(out)@) + root(*j, member_only));
        },
    }
}

fn target_into(j: &Json, out: &mut Vec<Occ>)
    ensures
        occs(final(out)@) == occs(old(out)@) + target(*j),
{
    match j {
        Json::Object(ms) => {
            let t = node_type(ms);
            if str_eq(t, "ArrayPattern") || str_eq(t, "ObjectPattern") {
                binders_into(j, out);
            } else if ident_check(ms) || str_eq(t, "MemberExpression") || str_eq(
                t,
                "ParenthesisExpression",
            ) {
                root_into(j, false, out);
            } else {
                assert(occs(out@) =~= occs(old(out)@) + target(*j));
            }
        },
        _ => {
            assert(occs(out@) =~= occs(old(out)@) + target(*j));
        },
    }
}

#[verifier::loop_isolation(false)]
fn assigned_into(j: &Json, out: &mut Vec<Occ>)
    ensures
        occs(final(out)@) == occs(old(out)@) + assigned(*j),
    decreases j,
{
    match j {
        Json::Array(v) => {
            let mut i: usize = 0;
            while i < v.len()
                invariant
                    i <= v@.len(),
                    occs(out@) == occs(old(out)@) + assigned_list(v@.subrange(0, i as int)),
                decreases v@.len() - i,
            {
                proof {
                    assert(decreases_to!(*j => v@[i as int]));
                }
                assigned_into(&v[i], out);
                proof {
                    let t = v@.subrange(0, i + 1);
                    assert(t.drop_last() =~= v@.subrange(0, i as int));
                    assert(occs(out@) =~= occs(old(out)@) + assigned_list(t));
                }
                i += 1;
            }
            assert(v@.subrange(0, v@.len() as int) =~= v@);
        },
        Json::Object(ms) => {
            let t = node_type(ms);
            let is_assign = str_eq(t, "AssignmentExpression");
            let is_update = str_eq(t, "UpdateExpression");
            let mut i: usize = 0;
            while i < ms.len()
                invariant
                    i <= ms@.len(),
                    occs(out@) == occs(old(out)@) + assigned_members(
                        ms@.subrange(0, i as int),
                        t@,
                    ),
                decreases ms@.len() - i,
            {
                proof {
                    assert(decreases_to!(*j => ms@[i as int].value));
                }
                let key = ms[i].key.as_str();
                let value = &ms[i].value;
                if is_assign {
                    if str_eq(key, "left") {
                        target_into(value, out);
                    } else if str_eq(key, "right") {
                        assigned_into(value, out);
                    }
                } else if is_update {
                    if str_eq(key, "argument") {
                        let ghost mid = occs(out@);
                        root_into(value, false, out);
                        assigned_into(value, out);
                        assert(occs(out@) =~= mid + (root(*value, false) + assigned(*value)));
                    }
                } else {
                    assigned_into(value, out);
                }
                proof {
                    let s = ms@.subrange(0, i + 1);
                    assert(s.drop_last() =~= ms@.subrange(0, i as int));
                    assert(occs(out@) =~= occs(old(out)@) + assigned_members(s, t@));
                }
                i += 1;
            }
            assert(ms@.subrange(0, ms@.len() as int) =~= ms@);
        },
        _ => {
            assert(occs(out@) =~= occs(old(out)@) + assigned(*j));
        },
    }
}


// ---------------------------------------------------------------------------
// Function mutations.

/// `s` without repeats: each name at its first occurrence.
pub open spec fn dedup(s: Seq<Seq<char>>) -> Seq<Seq<char>>
    decreases s.len(),
{
    if s.len() == 0 {
        Seq::empty()
    } else {
        let d = dedup(s.drop_last());
        if d.contains(s.last()) {
            d
        } else {
            d.push(s.last())
        }
    }
}

/// A function expression or arrow function.
pub open spec fn is_callable(j: Json) -> bool {
    match j {
        Json::Object(ms) => type_of(ms@) == "ArrowFunctionExpression"@ || type_of(ms@)
            == "FunctionExpression"@,
        _ => false,
    }
}

/// The name a declaration node gives (its `identifier`'s `value`).
pub open spec fn decl_name(ms: Seq<Member>) -> Seq<char> {
    match field(ms, "identifier"@) {
        Some(Json::Object(im)) => occ_of(im@).name,
        _ => Seq::empty(),
    }
}

/// A `const f = …` declarator whose initializer is a function: its name and
/// what the function assigns.
pub open spec fn fn_declarator(j: Json) -> Seq<(Seq<char>, Seq<Seq<char>>)> {
    match j {
        Json::Object(dm) => match (field(dm@, "id"@), field(dm@, "init"@)) {
            (Some(Json::Object(im)), Some(init)) => if is_ident(im@) && is_callable(init) {
                seq![(occ_of(im@).name, dedup(names(assigned(init))))]
            } else {
                Seq::empty()
            },
            _ => Seq::empty(),
        },
        _ => Seq::empty(),
    }
}

pub open spec fn fn_declarators(s: Seq<Json>) -> Seq<(Seq<char>, Seq<Seq<char>>)>
    decreases s.len(),
{
    if s.len() == 0 {
        Seq::empty()
    } else {
        fn_declarators(s.drop_last()) + fn_declarator(s.last())
    }
}

/// The functions a declaration defines, each with what it assigns: a
/// `function` declaration, or the function-valued declarators of a variable
/// declaration.
pub open spec fn fn_decl(j: Json) -> Seq<(Seq<char>, Seq<Seq<char>>)> {
    match j {
        Json::Object(ms) => {
            let t = type_of(ms@);
            if t == "FunctionDeclaration"@ {
                seq![(decl_name(ms@), dedup(names(assigned(j))))]
            } else if t == "VariableDeclaration"@ {
                match field(ms@, "declarations"@) {
                    Some(Json::Array(v)) => fn_declarators(v@),
                    _ => Seq::empty(),
                }
            } else {
                Seq::empty()
            }
        },
        _ => Seq::empty(),
    }
}

/// The functions a module item defines: those of its declaration, exported
/// or not.
pub open spec fn fn_item(j: Json) -> Seq<(Seq<char>, Seq<Seq<char>>)> {
    match j {
        Json::Object(ms) => if type_of(ms@) == "ExportDeclaration"@ {
            match field(ms@, "declaration"@) {
                Some(d) => fn_decl(d),
                None => Seq::empty(),
            }
        } else {
            fn_decl(j)
        },
        _ => Seq::empty(),
    }
}

pub open spec fn fn_items(s: Seq<Json>) -> Seq<(Seq<char>, Seq<Seq<char>>)>
    decreases s.len(),
{
    if s.len() == 0 {
        Seq::empty()
    } else {
        fn_items(s.drop_last()) + fn_item(s.last())
    }
}

pub open spec fn mutations_view(s: Seq<(String, Vec<String>)>) -> Seq<(Seq<char>, Seq<Seq<char>>)> {
    s.map_values(|p: (String, Vec<String>)| (p.0@, string_views(p.1@)))
}

/// The names of `s` without repeats.
fn dedup_names(s: &Vec<Occ>) -> (r: Vec<String>)
    ensures
        string_views(r@) == dedup(names(occs(s@))),
{
    let mut r: Vec<String> = Vec::new();
    let mut i: usize = 0;
    while i < s.len()
        invariant
            i <= s@.len(),
            string_views(r@) == dedup(names(occs(s@.subrange(0, i as int)))),
        decreases s@.len() - i,
    {
        let ghost prev = names(occs(s@.subrange(0, i as int)));
        let ghost cur = names(occs(s@.subrange(0, i + 1)));
        proof {
            assert(cur.drop_last() =~= prev);
            assert(cur.last() == s@[i as int].name@);
        }
        if !bound_has(&r, s[i].name.as_str()) {
            let c = s[i].name.clone();
            proof {
                lemma_string_views_push(r@, c);
            }
            r.push(c);
        }
        i += 1;
    }
    assert(s@.subrange(0, s@.len() as int) =~= s@);
    r
}

fn assigned_names(j: &Json) -> (r: Vec<String>)
    ensures
        string_views(r@) == dedup(names(assigned(*j))),
{
    let mut out: Vec<Occ> = Vec::new();
    assigned_into(j, &mut out);
    assert(occs(out@) =~= assigned(*j));
    dedup_names(&out)
}

fn callable_check(j: &Json) -> (r: bool)
    ensures
        r == is_callable(*j),
{
    match j {
        Json::Object(ms) => {
            let t = node_type(ms);
            str_eq(t, "ArrowFunctionExpression") || str_eq(t, "FunctionExpression")
        },
        _ => false,
    }
}

fn decl_name_of(ms: &Vec<Member>) -> (r: String)
    ensures
        r@ == decl_name(ms@),
{
    match get_field(ms, "identifier") {
        Some(Json::Object(im)) => ident_occ(im).name,
        _ => String::new(),
    }
}

fn fn_decl_into(j: &Json, out: &mut Vec<(String, Vec<String>)>)
    ensures
        mutations_view(final(out)@) == mutations_view(old(out)@) + fn_decl(*j),
{
    match j {
        Json::Object(ms) => {
            let t = node_type(ms);
            if str_eq(t, "FunctionDeclaration") {
                let name = decl_name_of(ms);
                let muts = assigned_names(j);
                out.push((name, muts));
                assert(mutations_view(out@) =~= mutations_view(old(out)@) + fn_decl(*j));
            } else if str_eq(t, "VariableDeclaration") {
                match get_field(ms, "declarations") {
                    Some(Json::Array(v)) => {
                        let mut i: usize = 0;
                        while i < v.len()
                            invariant
                                i <= v@.len(),
                                field(ms@, "declarations"@) == Some(Json::Array(*v)),
                                type_of(ms@) == "VariableDeclaration"@,
                                *j == Json::Object(*ms),
                                mutations_view(out@) == mutations_view(old(out)@)
                                    + fn_declarators(v@.subrange(0, i as int)),
                            decreases v@.len() - i,
                        {
                            let ghost mid = mutations_view(out@);
                            let d = &v[i];
                            if let Json::Object(dm) = d {
                                match (get_field(dm, "id"), get_field(dm, "init")) {
                                    (Some(Json::Object(im)), Some(init)) => {
                                        if ident_check(im) && callable_check(init) {
                                            let name = ident_occ(im).name;
                                            let muts = assigned_names(init);
                                            out.push((name, muts));
                                        }
                                    },
                                    _ => {},
                                }
                            }
                            proof {
                                let t = v@.subrange(0, i + 1);
                                assert(t.drop_last() =~= v@.subrange(0, i as int));
                                assert(mutations_view(out@) =~= mid + fn_declarator(v@[i as int]));
                            }
                            i += 1;
                        }
                        assert(v@.subrange(0, v@.len() as int) =~= v@);
                    },
                    _ => {
                        assert(mutations_view(out@) =~= mutations_view(old(out)@) + fn_decl(*j));
                    },
                }
            } else {
                assert(mutations_view(out@) =~= mutations_view(old(out)@) + fn_decl(*j));
            }
        },
        _ => {
            assert(mutations_view(out@) =~= mutations_view(old(out)@) + fn_decl(*j));
        },
    }
}

fn module_mutations(m: &Json) -> (r: Vec<(String, Vec<String>)>)
    ensures
        mutations_view(r@) == fn_items(body_of(*m)),
{
    let items = body_items(m);
    let mut out: Vec<(String, Vec<String>)> = Vec::new();
    let mut i: usize = 0;
    while i < items.len()
        invariant
            i <= items@.len(),
            items@ == body_of(*m),
            mutations_view(out@) == fn_items(items@.subrange(0, i as int)),
        decreases items@.len() - i,
    {
        let item = &items[i];
        let ghost mid = mutations_view(out@);
        match item {
            Json::Object(ms) => {
                if str_eq(node_type(ms), "ExportDeclaration") {
                    match get_field(ms, "declaration") {
                        Some(d) => fn_decl_into(d, &mut out),
                        None => {},
                    }
                } else {
                    fn_decl_into(item, &mut out);
                }
            },
            _ => {},
        }
        proof {
            let t = items@.subrange(0, i + 1);
            assert(t.drop_last() =~= items@.subrange(0, i as int));
            assert(mutations_view(out@) =~= mid + fn_item(items@[i as int]));
        }
        i += 1;
    }
    assert(items@.subrange(0, items@.len() as int) =~= items@);
    out
}


// ---------------------------------------------------------------------------
// Spans relative to the analysed code.

/// An occurrence's range within the analysed code, where swc placed that code
/// at `base` after `prefix` bytes of wrapping, or `None` when the occurrence
/// does not lie within the code's `len` bytes.
pub open spec fn rebase(o: SOcc, base: u32, prefix: int, len: int) -> Option<(Seq<char>, TextRange)> {
    let lo = o.lo - base - prefix;
    let hi = o.hi - base - prefix;
    if o.lo >= base && o.hi >= base && lo >= 0 && hi >= 0 && hi <= len && lo <= hi {
        Some((o.name, TextRange::spec_at(lo as u32, hi as u32)))
    } else {
        None
    }
}

pub open spec fn rebase_all(s: Seq<SOcc>, base: u32, prefix: int, len: int) -> Seq<(Seq<char>, TextRange)>
    decreases s.len(),
{
    if s.len() == 0 {
        Seq::empty()
    } else {
        rebase_all(s.drop_last(), base, prefix, len) + match rebase(s.last(), base, prefix, len) {
            Some(x) => seq![x],
            None => Seq::empty(),
        }
    }
}

pub open spec fn ranges_view(s: Seq<(String, TextRange)>) -> Seq<(Seq<char>, TextRange)> {
    s.map_values(|p: (String, TextRange)| (p.0@, p.1))
}

fn rebased(s: Vec<Occ>, base: u32, prefix: u32, len: u32) -> (r: Vec<(String, TextRange)>)
    ensures
        ranges_view(r@) == rebase_all(occs(s@), base, prefix as int, len as int),
{
    let mut r: Vec<(String, TextRange)> = Vec::new();
    let mut i: usize = 0;
    while i < s.len()
        invariant
            i <= s@.len(),
            ranges_view(r@) == rebase_all(occs(s@.subrange(0, i as int)), base, prefix as int, len as int),
        decreases s@.len() - i,
    {
        let o = &s[i];
        let ghost mid = ranges_view(r@);
        proof {
            let t = occs(s@.subrange(0, i + 1));
            assert(t.drop_last() =~= occs(s@.subrange(0, i as int)));
            assert(t.last() == s@[i as int]@);
        }
        if o.lo >= base && o.hi >= base && o.lo - base >= prefix && o.hi - base >= prefix {
            let lo = o.lo - base - prefix;
            let hi = o.hi - base - prefix;
            if hi <= len && lo <= hi {
                r.push((o.name.clone(), TextRange::at(lo, hi)));
                assert(ranges_view(r@) =~= mid.push((s@[i as int]@.name, TextRange::spec_at(lo, hi))));
            }
        }
        i += 1;
    }
    assert(s@.subrange(0, s@.len() as int) =~= s@);
    r
}

// ---------------------------------------------------------------------------
// The public analyses.

/// The script could not be parsed; the message is swc's.
#[derive(Debug, Clone, PartialEq, Eq)]
pub enum ScriptParseError {
    Parse(String),
}

/// A whole-`script:`-block analysis computed in a single parse: the names the
/// script declares and, for each top-level function, what it assigns.
#[derive(Debug, Clone, PartialEq, Eq)]
pub struct ScriptAnalysis {
    pub bindings: Vec<String>,
    pub function_mutations: Vec<(String, Vec<String>)>,
}

/// The text swc parses for an expression: `(code);`, so that a bare
/// expression forms a statement.
pub open spec fn expr_source(code: Seq<char>) -> Seq<char> {
    "("@ + code + ");"@
}

/// swc's reading of `code` as a TypeScript module.
pub open spec fn program(code: Seq<char>) -> Result<(Json, u32), String> {
    swc_module(code, true, false)
}

/// `r` is the error swc reported as `e`.
pub open spec fn is_parse_error<T>(r: Result<T, ScriptParseError>, e: String) -> bool {
    r matches Err(ScriptParseError::Parse(msg)) && msg@ == e@
}

pub(crate) fn parse_program(code: &str) -> (r: Result<(Json, u32), ScriptParseError>)
    ensures
        match program(code@) {
            Ok(p) => r == Ok::<(Json, u32), ScriptParseError>(p),
            Err(e) => is_parse_error(r, e),
        },
{
    match swc_parse(code, true, false) {
        Ok(p) => Ok(p),
        Err(e) => Err(ScriptParseError::Parse(e)),
    }
}

fn parse_expression(code: &str) -> (r: Result<(Json, u32), ScriptParseError>)
    ensures
        match program(expr_source(code@)) {
            Ok(p) => r == Ok::<(Json, u32), ScriptParseError>(p),
            Err(e) => is_parse_error(r, e),
        },
{
    let wrapped = concat3("(", code, ");");
    parse_program(wrapped.as_str())
}

/// The names the top-level statements of the module tree `m` declare, in
/// order (see [`declared_bindings`]).
pub fn tree_declared(m: &Json) -> (r: Vec<String>)
    ensures
        string_views(r@) == names(top_list(body_of(*m))),
{
    let found = module_bindings(m);
    names_of(&found)
}

/// The declared names of the module tree `m` with their ranges, moved from
/// swc positions (the text starting at `base`) into a text of `len` bytes.
pub fn tree_declared_spans(m: &Json, base: u32, len: u32) -> (r: Vec<(String, TextRange)>)
    ensures
        ranges_view(r@) == rebase_all(top_list(body_of(*m)), base, 0, len as int),
{
    let found = module_bindings(m);
    rebased(found, base, 0, len)
}

/// The identifiers the tree `m` reads (see [`referenced_identifiers`]).
pub fn tree_refs(m: &Json) -> (r: Vec<String>)
    ensures
        string_views(r@) == names(refs(*m)),
{
    let mut found: Vec<Occ> = Vec::new();
    refs_into(m, &mut found);
    assert(occs(found@) =~= refs(*m));
    names_of(&found)
}

/// The identifiers the tree `m` of a wrapped expression reads, with their
/// ranges within the expression's `len` bytes.
pub fn tree_refs_spans(m: &Json, base: u32, len: u32) -> (r: Vec<(String, TextRange)>)
    ensures
        ranges_view(r@) == rebase_all(refs(*m), base, 1, len as int),
{
    let mut found: Vec<Occ> = Vec::new();
    refs_into(m, &mut found);
    assert(occs(found@) =~= refs(*m));
    rebased(found, base, 1, len)
}

/// The identifiers the tree `m` reads but does not bind (see
/// [`free_identifiers`]).
pub fn tree_free(m: &Json) -> (r: Vec<String>)
    ensures
        string_views(r@) == names(free(*m, Seq::empty())),
{
    let mut found: Vec<Occ> = Vec::new();
    let none: Vec<String> = Vec::new();
    assert(string_views(none@) =~= Seq::<Seq<char>>::empty());
    free_into(m, &none, &mut found);
    assert(occs(found@) =~= free(*m, Seq::empty()));
    names_of(&found)
}

/// The free identifiers of the tree `m` of a wrapped expression, with their
/// ranges within the expression's `len` bytes.
pub fn tree_free_spans(m: &Json, base: u32, len: u32) -> (r: Vec<(String, TextRange)>)
    ensures
        ranges_view(r@) == rebase_all(free(*m, Seq::empty()), base, 1, len as int),
{
    let mut found: Vec<Occ> = Vec::new();
    let none: Vec<String> = Vec::new();
    assert(string_views(none@) =~= Seq::<Seq<char>>::empty());
    free_into(m, &none, &mut found);
    assert(occs(found@) =~= free(*m, Seq::empty()));
    rebased(found, base, 1, len)
}

/// The identifiers the tree `m` assigns to (see [`assigned_identifiers`]).
pub fn tree_assigned(m: &Json) -> (r: Vec<String>)
    ensures
        string_views(r@) == names(assigned(*m)),
{
    let mut found: Vec<Occ> = Vec::new();
    assigned_into(m, &mut found);
    assert(occs(found@) =~= assigned(*m));
    names_of(&found)
}

/// The top-level functions of the module tree `m` with what each assigns
/// (see [`function_mutations`]).
pub fn tree_mutations(m: &Json) -> (r: Vec<(String, Vec<String>)>)
    ensures
        mutations_view(r@) == fn_items(body_of(*m)),
{
    module_mutations(m)
}

/// The names of all top-level bindings declared by `code`: `let`/`const`/
/// `var` (destructured names included), `function` and `class`
/// declarations, exported or not, and `import` locals, in source order with
/// duplicates kept.
pub fn declared_bindings(code: &str) -> (r: Result<Vec<String>, ScriptParseError>)
    ensures
        match program(code@) {
            Ok((m, _)) => r matches Ok(v) && string_views(v@) == names(top_list(body_of(m))),
            Err(e) => is_parse_error(r, e),
        },
{
    let (m, _) = parse_program(code)?;
    Ok(tree_declared(&m))
}

fn names_of(s: &Vec<Occ>) -> (r: Vec<String>)
    ensures
        string_views(r@) == names(occs(s@)),
{
    let mut r: Vec<String> = Vec::new();
    let mut i: usize = 0;
    while i < s.len()
        invariant
            i <= s@.len(),
            string_views(r@) == names(occs(s@.subrange(0, i as int))),
        decreases s@.len() - i,
    {
        let c = s[i].name.clone();
        proof {
            lemma_string_views_push(r@, c);
            assert(names(occs(s@.subrange(0, i + 1))) =~= names(occs(s@.subrange(0, i as int))).push(
                c@,
            ));
        }
        r.push(c);
        i += 1;
    }
    assert(s@.subrange(0, s@.len() as int) =~= s@);
    r
}

/// Like [`declared_bindings`], with each declared name's byte range within
/// `code` (its declaration site).
pub fn declared_bindings_with_spans(code: &str) -> (r: Result<Vec<(String, TextRange)>, ScriptParseError>)
    requires
        code.spec_bytes().len() <= u32::MAX,
    ensures
        match program(code@) {
            Ok((m, base)) => r matches Ok(v) && ranges_view(v@) == rebase_all(
                top_list(body_of(m)),
                base,
                0,
                code.spec_bytes().len() as int,
            ),
            Err(e) => is_parse_error(r, e),
        },
{
    let (m, base) = parse_program(code)?;
    Ok(tree_declared_spans(&m, base, code.len() as u32))
}

/// The identifiers an expression (or program) reads, in source order:
/// static member properties and object literal keys are not identifiers;
/// computed members and shorthand properties are. No scoping: a name bound
/// inside the expression is reported too.
pub fn referenced_identifiers(code: &str) -> (r: Result<Vec<String>, ScriptParseError>)
    ensures
        match program(expr_source(code@)) {
            Ok((m, _)) => r matches Ok(v) && string_views(v@) == names(refs(m)),
            Err(e) => is_parse_error(r, e),
        },
{
    let (m, _) = parse_expression(code)?;
    Ok(tree_refs(&m))
}

/// Like [`referenced_identifiers`], with each identifier's byte range within
/// `code`.
pub fn referenced_identifiers_with_spans(code: &str) -> (r: Result<Vec<(String, TextRange)>, ScriptParseError>)
    requires
        code.spec_bytes().len() <= u32::MAX,
    ensures
        match program(expr_source(code@)) {
            Ok((m, base)) => r matches Ok(v) && ranges_view(v@) == rebase_all(
                refs(m),
                base,
                1,
                code.spec_bytes().len() as int,
            ),
            Err(e) => is_parse_error(r, e),
        },
{
    let (m, base) = parse_expression(code)?;
    Ok(tree_refs_spans(&m, base, code.len() as u32))
}

/// The identifiers an expression reads that it does not bind itself, in
/// source order: names bound by a function or arrow parameter, a named
/// function or class expression, or a declaration in an enclosing block or
/// function body are left out, within their scope only.
pub fn free_identifiers(code: &str) -> (r: Result<Vec<String>, ScriptParseError>)
    ensures
        match program(expr_source(code@)) {
            Ok((m, _)) => r matches Ok(v) && string_views(v@) == names(free(m, Seq::empty())),
            Err(e) => is_parse_error(r, e),
        },
{
    let (m, _) = parse_expression(code)?;
    Ok(tree_free(&m))
}

/// Like [`free_identifiers`], with each identifier's byte range within `code`.
pub fn free_identifiers_with_spans(code: &str) -> (r: Result<Vec<(String, TextRange)>, ScriptParseError>)
    requires
        code.spec_bytes().len() <= u32::MAX,
    ensures
        match program(expr_source(code@)) {
            Ok((m, base)) => r matches Ok(v) && ranges_view(v@) == rebase_all(
                free(m, Seq::empty()),
                base,
                1,
                code.spec_bytes().len() as int,
            ),
            Err(e) => is_parse_error(r, e),
        },
{
    let (m, base) = parse_expression(code)?;
    Ok(tree_free_spans(&m, base, code.len() as u32))
}

/// The identifiers `code` assigns to, in source order: targets of `=` and
/// compound assignments and of `++`/`--`; a member target reports its root
/// object (`obj.x = 1` assigns `obj`).
pub fn assigned_identifiers(code: &str) -> (r: Result<Vec<String>, ScriptParseError>)
    ensures
        match program(code@) {
            Ok((m, _)) => r matches Ok(v) && string_views(v@) == names(assigned(m)),
            Err(e) => is_parse_error(r, e),
        },
{
    let (m, _) = parse_program(code)?;
    Ok(tree_assigned(&m))
}

/// For each top-level function (a `function` declaration or a `const f = …`
/// arrow or function expression, exported or not), its name and the
/// identifiers its body assigns, without repeats.
pub fn function_mutations(code: &str) -> (r: Result<Vec<(String, Vec<String>)>, ScriptParseError>)
    ensures
        match program(code@) {
            Ok((m, _)) => r matches Ok(v) && mutations_view(v@) == fn_items(body_of(m)),
            Err(e) => is_parse_error(r, e),
        },
{
    let (m, _) = parse_program(code)?;
    Ok(tree_mutations(&m))
}

/// Analyzes a `script:` block in one parse: its top-level bindings and its
/// functions' mutations.
pub fn analyze_script(code: &str) -> (r: Result<ScriptAnalysis, ScriptParseError>)
    ensures
        match program(code@) {
            Ok((m, _)) => r matches Ok(a) && string_views(a.bindings@) == names(
                top_list(body_of(m)),
            ) && mutations_view(a.function_mutations@) == fn_items(body_of(m)),
            Err(e) => is_parse_error(r, e),
        },
{
    let (m, _) = parse_program(code)?;
    Ok(ScriptAnalysis { bindings: tree_declared(&m), function_mutations: tree_mutations(&m) })
}


// ---------------------------------------------------------------------------
// Laws.

/// Every occurrence of `a` is one of `b`.
pub open spec fn contained(a: Seq<SOcc>, b: Seq<SOcc>) -> bool {
    forall|k: int| 0 <= k < a.len() ==> b.contains(#[trigger] a[k])
}

proof fn lemma_contained_concat(a1: Seq<SOcc>, b1: Seq<SOcc>, a2: Seq<SOcc>, b2: Seq<SOcc>)
    requires
        contained(a1, b1),
        contained(a2, b2),
    ensures
        contained(a1 + a2, b1 + b2),
{
    assert forall|k: int| 0 <= k < (a1 + a2).len() implies (b1 + b2).contains(#[trigger] (a1
        + a2)[k]) by {
        if k < a1.len() {
            let i = choose|i: int| 0 <= i < b1.len() && b1[i] == a1[k];
            assert((b1 + b2)[i] == a1[k]);
        } else {
            let i = choose|i: int| 0 <= i < b2.len() && b2[i] == a2[k - a1.len()];
            assert((b1 + b2)[b1.len() + i] == a2[k - a1.len()]);
        }
    }
}

/// Every identifier [`free_identifiers`] reports (with its span) is one that
/// [`referenced_identifiers`] reports for the same expression: scoping only
/// leaves occurrences out.
/// `f` places each occurrence of `a` at an increasing position of `b`
/// holding the same occurrence.
pub open spec fn embeds(a: Seq<SOcc>, b: Seq<SOcc>, f: Seq<int>) -> bool {
    &&& f.len() == a.len()
    &&& forall|i: int, j: int| 0 <= i < j < f.len() ==> f[i] < f[j]
    &&& forall|k: int| 0 <= k < f.len() ==> 0 <= #[trigger] f[k] < b.len() && b[f[k]] == a[k]
}

/// `a` is `b` with some occurrences left out, order and repeats kept.
pub open spec fn subsequence(a: Seq<SOcc>, b: Seq<SOcc>) -> bool {
    exists|f: Seq<int>| embeds(a, b, f)
}

proof fn lemma_subsequence_empty(b: Seq<SOcc>)
    ensures
        subsequence(Seq::empty(), b),
{
    assert(embeds(Seq::empty(), b, Seq::empty()));
}

proof fn lemma_subsequence_self(a: Seq<SOcc>)
    ensures
        subsequence(a, a),
{
    let f = Seq::new(a.len(), |i: int| i);
    assert(embeds(a, a, f));
}

proof fn lemma_subsequence_concat(a1: Seq<SOcc>, b1: Seq<SOcc>, a2: Seq<SOcc>, b2: Seq<SOcc>)
    requires
        subsequence(a1, b1),
        subsequence(a2, b2),
    ensures
        subsequence(a1 + a2, b1 + b2),
{
    let f1 = choose|f: Seq<int>| embeds(a1, b1, f);
    let f2 = choose|f: Seq<int>| embeds(a2, b2, f);
    let n = b1.len() as int;
    let f = f1 + Seq::new(f2.len(), |i: int| f2[i] + n);
    let (a, b) = (a1 + a2, b1 + b2);
    assert forall|i: int, j: int| 0 <= i < j < f.len() implies f[i] < f[j] by {
        if j < f1.len() {
        } else if i < f1.len() {
            assert(f[i] == f1[i]);
            assert(f[j] == f2[j - f1.len()] + n);
        } else {
            assert(f[i] == f2[i - f1.len()] + n);
            assert(f[j] == f2[j - f1.len()] + n);
        }
    }
    assert forall|k: int| 0 <= k < f.len() implies 0 <= #[trigger] f[k] < b.len() && b[f[k]] == a[k] by {
        if k < f1.len() {
            assert(f[k] == f1[k]);
            assert(b[f1[k]] == b1[f1[k]]);
            assert(a[k] == a1[k]);
        } else {
            let k2 = k - f1.len();
            assert(f[k] == f2[k2] + n);
            assert(b[f2[k2] + n] == b2[f2[k2]]);
            assert(a[k] == a2[k2]);
        }
    }
    assert(embeds(a, b, f));
}

/// The free occurrences of a tree are its references with the locally bound
/// ones left out: a subsequence, in order and with repeats kept.
pub proof fn law_free_subsequence_of_refs(j: Json, bound: Seq<Seq<char>>)
    ensures
        subsequence(free(j, bound), refs(j)),
    decreases j,
{
    match j {
        Json::Array(v) => lemma_free_list_subsequence(v@, bound),
        Json::Object(ms) => {
            if is_ident(ms@) {
                if bound.contains(occ_of(ms@).name) {
                    lemma_subsequence_empty(refs(j));
                } else {
                    lemma_subsequence_self(refs(j));
                }
            } else {
                lemma_free_members_subsequence(
                    ms@,
                    bound,
                    bound + names(scope_of(ms@)),
                    skipped(ms@),
                    outside(ms@),
                );
            }
        },
        _ => {
            lemma_subsequence_empty(refs(j));
        },
    }
}

proof fn lemma_free_list_subsequence(s: Seq<Json>, bound: Seq<Seq<char>>)
    ensures
        subsequence(free_list(s, bound), refs_list(s)),
    decreases s,
{
    if s.len() > 0 {
        lemma_free_list_subsequence(s.drop_last(), bound);
        law_free_subsequence_of_refs(s.last(), bound);
        lemma_subsequence_concat(
            free_list(s.drop_last(), bound),
            refs_list(s.drop_last()),
            free(s.last(), bound),
            refs(s.last()),
        );
    } else {
        lemma_subsequence_empty(refs_list(s));
    }
}

proof fn lemma_free_members_subsequence(
    ms: Seq<Member>,
    outer: Seq<Seq<char>>,
    inner: Seq<Seq<char>>,
    skip: Option<Seq<char>>,
    keep: Option<Seq<char>>,
)
    ensures
        subsequence(free_members(ms, outer, inner, skip, keep), refs_members(ms)),
    decreases ms,
{
    if ms.len() > 0 {
        let m = ms.last();
        lemma_free_members_subsequence(ms.drop_last(), outer, inner, skip, keep);
        law_free_subsequence_of_refs(m.value, outer);
        law_free_subsequence_of_refs(m.value, inner);
        lemma_subsequence_empty(refs(m.value));
        let part = if skip == Some(m.key@) {
            Seq::empty()
        } else if keep == Some(m.key@) {
            free(m.value, outer)
        } else {
            free(m.value, inner)
        };
        lemma_subsequence_concat(
            free_members(ms.drop_last(), outer, inner, skip, keep),
            refs_members(ms.drop_last()),
            part,
            refs(m.value),
        );
    } else {
        lemma_subsequence_empty(refs_members(ms));
    }
}

pub proof fn law_free_within_refs(j: Json, bound: Seq<Seq<char>>)
    ensures
        contained(free(j, bound), refs(j)),
    decreases j,
{
    match j {
        Json::Array(v) => lemma_free_list_within(v@, bound),
        Json::Object(ms) => {
            if !is_ident(ms@) {
                lemma_free_members_within(
                    ms@,
                    bound,
                    bound + names(scope_of(ms@)),
                    skipped(ms@),
                    outside(ms@),
                );
            }
        },
        _ => {},
    }
}

proof fn lemma_free_list_within(s: Seq<Json>, bound: Seq<Seq<char>>)
    ensures
        contained(free_list(s, bound), refs_list(s)),
    decreases s,
{
    if s.len() > 0 {
        lemma_free_list_within(s.drop_last(), bound);
        law_free_within_refs(s.last(), bound);
        lemma_contained_concat(
            free_list(s.drop_last(), bound),
            refs_list(s.drop_last()),
            free(s.last(), bound),
            refs(s.last()),
        );
    }
}

proof fn lemma_free_members_within(
    ms: Seq<Member>,
    outer: Seq<Seq<char>>,
    inner: Seq<Seq<char>>,
    skip: Option<Seq<char>>,
    keep: Option<Seq<char>>,
)
    ensures
        contained(free_members(ms, outer, inner, skip, keep), refs_members(ms)),
    decreases ms,
{
    if ms.len() > 0 {
        let m = ms.last();
        lemma_free_members_within(ms.drop_last(), outer, inner, skip, keep);
        law_free_within_refs(m.value, outer);
        law_free_within_refs(m.value, inner);
        let part = if skip == Some(m.key@) {
            Seq::empty()
        } else if keep == Some(m.key@) {
            free(m.value, outer)
        } else {
            free(m.value, inner)
        };
        lemma_contained_concat(
            free_members(ms.drop_last(), outer, inner, skip, keep),
            refs_members(ms.drop_last()),
            part,
            refs(m.value),
        );
    }
}

/// Every range the with-spans analyses report lies within the analysed
/// code: it is not reversed and ends by the code's length.
pub proof fn law_spans_within_code(s: Seq<SOcc>, base: u32, prefix: int, len: int)
    requires
        0 <= len <= u32::MAX,
    ensures
        forall|k: int|
            0 <= k < rebase_all(s, base, prefix, len).len() ==> {
                let r = #[trigger] rebase_all(s, base, prefix, len)[k].1;
                r.start.raw <= r.end.raw <= len
            },
    decreases s.len(),
{
    if s.len() > 0 {
        law_spans_within_code(s.drop_last(), base, prefix, len);
        let prev = rebase_all(s.drop_last(), base, prefix, len);
        let all = rebase_all(s, base, prefix, len);
        assert forall|k: int| 0 <= k < all.len() implies {
            let r = #[trigger] all[k].1;
            r.start.raw <= r.end.raw <= len
        } by {
            if k < prev.len() {
                assert(all[k] == prev[k]);
            }
        }
    }
}

pub open spec fn range_names(s: Seq<(Seq<char>, TextRange)>) -> Seq<Seq<char>> {
    s.map_values(|p: (Seq<char>, TextRange)| p.0)
}

/// When every identifier lies within the analysed code, a with-spans
/// analysis reports exactly the names of its plain counterpart, in the same
/// order.
pub proof fn law_span_names_match(s: Seq<SOcc>, base: u32, prefix: int, len: int)
    requires
        forall|k: int| 0 <= k < s.len() ==> (#[trigger] rebase(s[k], base, prefix, len)) is Some,
    ensures
        range_names(rebase_all(s, base, prefix, len)) == names(s),
    decreases s.len(),
{
    if s.len() > 0 {
        assert forall|k: int| 0 <= k < s.drop_last().len() implies (#[trigger] rebase(
            s.drop_last()[k],
            base,
            prefix,
            len,
        )) is Some by {
            assert(s.drop_last()[k] == s[k]);
        }
        law_span_names_match(s.drop_last(), base, prefix, len);
        assert(rebase(s[s.len() - 1], base, prefix, len) is Some);
        assert(range_names(rebase_all(s, base, prefix, len)) =~= names(s.drop_last()).push(
            s.last().name,
        ));
        assert(names(s) =~= names(s.drop_last()).push(s.last().name));
    }
}

/// `r` is what [`declared_bindings`] returns for `code`.
pub open spec fn declared_result(code: Seq<char>, r: Result<Vec<String>, ScriptParseError>) -> bool {
    match program(code) {
        Ok((m, _)) => r matches Ok(v) && string_views(v@) == names(top_list(body_of(m))),
        Err(e) => is_parse_error(r, e),
    }
}

/// `r` is what [`function_mutations`] returns for `code`.
pub open spec fn mutations_result(
    code: Seq<char>,
    r: Result<Vec<(String, Vec<String>)>, ScriptParseError>,
) -> bool {
    match program(code) {
        Ok((m, _)) => r matches Ok(v) && mutations_view(v@) == fn_items(body_of(m)),
        Err(e) => is_parse_error(r, e),
    }
}

/// `r` is what [`analyze_script`] returns for `code`.
pub open spec fn analysis_result(code: Seq<char>, r: Result<ScriptAnalysis, ScriptParseError>) -> bool {
    match program(code) {
        Ok((m, _)) => r matches Ok(a) && string_views(a.bindings@) == names(top_list(body_of(m)))
            && mutations_view(a.function_mutations@) == fn_items(body_of(m)),
        Err(e) => is_parse_error(r, e),
    }
}

/// The single-parse analysis agrees with the separate ones: on the same
/// code, [`analyze_script`] fails exactly when [`declared_bindings`] and
/// [`function_mutations`] fail, and otherwise holds their results.
pub proof fn law_analysis_agrees(
    code: Seq<char>,
    a: Result<ScriptAnalysis, ScriptParseError>,
    d: Result<Vec<String>, ScriptParseError>,
    f: Result<Vec<(String, Vec<String>)>, ScriptParseError>,
)
    requires
        analysis_result(code, a),
        declared_result(code, d),
        mutations_result(code, f),
    ensures
        a is Ok <==> d is Ok,
        a is Ok <==> f is Ok,
        a matches Ok(x) ==> d matches Ok(y) && string_views(x.bindings@) == string_views(y@),
        a matches Ok(x) ==> f matches Ok(y) && mutations_view(x.function_mutations@)
            == mutations_view(y@),
{
}

/// A function's mutation list names each assigned identifier exactly once:
/// it has no repeats and holds exactly the names assigned.
pub proof fn law_dedup(s: Seq<Seq<char>>)
    ensures
        forall|i: int, j: int| 0 <= i < j < dedup(s).len() ==> dedup(s)[i] != dedup(s)[j],
        forall|x: Seq<char>| dedup(s).contains(x) <==> s.contains(x),
    decreases s.len(),
{
    if s.len() > 0 {
        law_dedup(s.drop_last());
        let d = dedup(s.drop_last());
        assert forall|x: Seq<char>| dedup(s).contains(x) <==> s.contains(x) by {
            if s.contains(x) && !s.drop_last().contains(x) {
                let i = choose|i: int| 0 <= i < s.len() && s[i] == x;
                if i < s.len() - 1 {
                    assert(s.drop_last()[i] == x);
                }
                assert(x == s.last());
                if !d.contains(x) {
                    assert(dedup(s)[d.len() as int] == x);
                }
            }
            if s.drop_last().contains(x) {
                let i = choose|i: int| 0 <= i < s.drop_last().len() && s.drop_last()[i] == x;
                assert(s[i] == x);
            }
            if dedup(s).contains(x) && !d.contains(x) {
                assert(x == s.last());
                assert(s[s.len() - 1] == x);
            }
            if d.contains(x) {
                let i = choose|i: int| 0 <= i < d.len() && d[i] == x;
                assert(dedup(s)[i] == x);
            }
        }
    }
}

} // verus!
