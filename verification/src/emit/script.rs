//! Reactive rewriting of a whole script body: each reactive top-level
//! declaration that stands alone in its statement becomes a box constructor,
//! and every other reference to a reactive variable reads its box with `.v`.
//!
//! The declarations and references are the results of the script analysis
//! (top-level declaration sites, and scope-aware references to module
//! bindings), handed in as plain values.

use vstd::prelude::*;
use vstd::string::{StringExecFns, StringSliceAdditionalSpecFns};

use crate::emit::js::{dec, u32_text};
use crate::emit::mutation::{deeply_mutated, is_deeply_mutated};
use crate::emit::rewrite::{apply_edits, edited, edits_view, rewrite_expr, rewritten, SEdit};
use crate::model::ReactiveVar;
use crate::script::json::str_eq;
use crate::span::{on_boundary, TextRange};
use crate::text::range_text;

verus! {

broadcast use vstd::string::group_string_axioms;

/// One declarator of a top-level `let` / `const` / `var` statement.
#[derive(Debug, Clone, PartialEq, Eq)]
pub struct TopDecl {
    /// The declared name.
    pub name: String,
    /// How many declarators the whole statement has.
    pub declarators_in_stmt: u32,
    /// The initializer expression, when there is one.
    pub init_range: Option<TextRange>,
    /// The whole declaration statement.
    pub stmt_range: TextRange,
}

/// The abstract form of a [`TopDecl`].
pub struct STopDecl {
    pub name: Seq<char>,
    pub declarators_in_stmt: u32,
    pub init_range: Option<TextRange>,
    pub stmt_range: TextRange,
}

impl View for TopDecl {
    type V = STopDecl;

    open spec fn view(&self) -> STopDecl {
        STopDecl {
            name: self.name@,
            declarators_in_stmt: self.declarators_in_stmt,
            init_range: self.init_range,
            stmt_range: self.stmt_range,
        }
    }
}

/// One read or write of a module-level binding.
#[derive(Debug, Clone, PartialEq, Eq)]
pub struct BindingRef {
    pub name: String,
    /// The identifier's own range.
    pub range: TextRange,
    /// The reference is an object-literal shorthand property (`{ count }`).
    pub shorthand: bool,
}

/// The abstract form of a [`BindingRef`].
pub struct SBindingRef {
    pub name: Seq<char>,
    pub range: TextRange,
    pub shorthand: bool,
}

impl View for BindingRef {
    type V = SBindingRef;

    open spec fn view(&self) -> SBindingRef {
        SBindingRef { name: self.name@, range: self.range, shorthand: self.shorthand }
    }
}

pub open spec fn decls_view(s: Seq<TopDecl>) -> Seq<STopDecl> {
    s.map_values(|d: TopDecl| d@)
}

pub open spec fn refs_view(s: Seq<BindingRef>) -> Seq<SBindingRef> {
    s.map_values(|r: BindingRef| r@)
}

pub open spec fn aliases_view(s: Seq<(String, String)>) -> Seq<(Seq<char>, Seq<char>)> {
    s.map_values(|p: (String, String)| (p.0@, p.1@))
}

/// The reactive variable called `name`; the last one when several are.
pub open spec fn var_named(vars: Seq<ReactiveVar>, name: Seq<char>) -> Option<ReactiveVar>
    decreases vars.len(),
{
    if vars.len() == 0 {
        None
    } else if vars.last().name@ == name {
        Some(vars.last())
    } else {
        var_named(vars.drop_last(), name)
    }
}

/// The local name a runtime helper is referenced by: its alias when it has
/// one, else its own name.
pub open spec fn alias_of(aliases: Seq<(Seq<char>, Seq<char>)>, helper: Seq<char>) -> Seq<char>
    decreases aliases.len(),
{
    if aliases.len() == 0 {
        helper
    } else if aliases[0].0 == helper {
        aliases[0].1
    } else {
        alias_of(aliases.drop_first(), helper)
    }
}

/// `r` is a well-formed slice of the text whose bytes are `b`.
pub open spec fn slices(b: Seq<u8>, r: TextRange) -> bool {
    &&& r.lo() <= r.hi() <= b.len()
    &&& on_boundary(b, r.lo())
    &&& on_boundary(b, r.hi())
}

/// The initializer's text, or `undefined` when there is none or its range is
/// not a slice of the script.
pub open spec fn init_text(b: Seq<u8>, init: Option<TextRange>) -> Seq<char> {
    match init {
        Some(r) => if slices(b, r) {
            range_text(b, r)
        } else {
            "undefined"@
        },
        None => "undefined"@,
    }
}

/// The declaration is rewritten into a box: it declares a reactive variable
/// and is the only declarator of its statement.
pub open spec fn boxes(vars: Seq<ReactiveVar>, d: STopDecl) -> bool {
    var_named(vars, d.name) is Some && d.declarators_in_stmt == 1
}

/// `deepBox` for a deeply mutated variable, else `box`.
pub open spec fn box_kind(hint: Seq<u8>, name: Seq<char>) -> Seq<char> {
    if deeply_mutated(hint, vstd::utf8::encode_utf8(name)) {
        "deepBox"@
    } else {
        "box"@
    }
}

/// `const name = box(c, index, init)`, the initializer itself rewritten.
pub open spec fn decl_text(
    b: Seq<u8>,
    hint: Seq<u8>,
    vars: Seq<ReactiveVar>,
    aliases: Seq<(Seq<char>, Seq<char>)>,
    d: STopDecl,
) -> Seq<char> {
    "const "@ + d.name + " = "@ + alias_of(aliases, box_kind(hint, d.name)) + "(c, "@ + dec(
        var_named(vars, d.name).unwrap().index as nat,
    ) + ", "@ + rewritten(init_text(b, d.init_range), vars, Seq::empty()) + ")"@
}

/// The edits that turn reactive declarations into boxes, in order.
pub open spec fn decl_edits(
    b: Seq<u8>,
    hint: Seq<u8>,
    vars: Seq<ReactiveVar>,
    aliases: Seq<(Seq<char>, Seq<char>)>,
    decls: Seq<STopDecl>,
) -> Seq<SEdit>
    decreases decls.len(),
{
    if decls.len() == 0 {
        Seq::empty()
    } else {
        let rest = decl_edits(b, hint, vars, aliases, decls.drop_last());
        let d = decls.last();
        if boxes(vars, d) {
            rest.push((d.stmt_range.start.raw, d.stmt_range.end.raw, decl_text(b, hint, vars, aliases, d)))
        } else {
            rest
        }
    }
}

/// The statements that [`decl_edits`] rewrites, in order.
pub open spec fn boxed_ranges(vars: Seq<ReactiveVar>, decls: Seq<STopDecl>) -> Seq<TextRange>
    decreases decls.len(),
{
    if decls.len() == 0 {
        Seq::empty()
    } else {
        let rest = boxed_ranges(vars, decls.drop_last());
        if boxes(vars, decls.last()) {
            rest.push(decls.last().stmt_range)
        } else {
            rest
        }
    }
}

/// A reference ending at `end` lies inside one of `ranges`.
pub open spec fn inside_any(ranges: Seq<TextRange>, end: u32) -> bool {
    exists|k: int| 0 <= k < ranges.len() && end > ranges[k].start.raw && end <= ranges[k].end.raw
}

/// The edits that make reactive references read `.v`, skipping those inside a
/// rewritten declaration; a shorthand `{ x }` becomes `{ x: x.v }`.
pub open spec fn ref_edits(vars: Seq<ReactiveVar>, ranges: Seq<TextRange>, refs: Seq<SBindingRef>) -> Seq<
    SEdit,
>
    decreases refs.len(),
{
    if refs.len() == 0 {
        Seq::empty()
    } else {
        let rest = ref_edits(vars, ranges, refs.drop_last());
        let r = refs.last();
        let end = r.range.end.raw;
        if var_named(vars, r.name) is None || inside_any(ranges, end) {
            rest
        } else if r.shorthand {
            rest.push((r.range.start.raw, end, r.name + ": "@ + r.name + ".v"@))
        } else {
            rest.push((end, end, ".v"@))
        }
    }
}

/// The rewritten script: unchanged without reactive variables, else with the
/// declaration edits and then the reference edits applied.
pub open spec fn script_rewritten(
    script: Seq<char>,
    hint: Seq<u8>,
    vars: Seq<ReactiveVar>,
    aliases: Seq<(Seq<char>, Seq<char>)>,
    decls: Seq<STopDecl>,
    refs: Seq<SBindingRef>,
) -> Seq<char> {
    if vars.len() == 0 {
        script
    } else {
        let b = vstd::utf8::encode_utf8(script);
        edited(
            script,
            decl_edits(b, hint, vars, aliases, decls) + ref_edits(vars, boxed_ranges(vars, decls), refs),
        )
    }
}

/// The index of the reactive variable called `name` (see [`var_named`]).
fn find_var(vars: &[ReactiveVar], name: &str) -> (r: Option<u32>)
    ensures
        r == (match var_named(vars@, name@) {
            Some(v) => Some(v.index),
            None => None,
        }),
{
    let mut found: Option<u32> = None;
    let mut i: usize = 0;
    while i < vars.len()
        invariant
            i <= vars@.len(),
            found == (match var_named(vars@.take(i as int), name@) {
                Some(v) => Some(v.index),
                None => None,
            }),
        decreases vars@.len() - i,
    {
        proof {
            assert(vars@.take(i + 1).drop_last() =~= vars@.take(i as int));
            assert(vars@.take(i + 1).last() == vars@[i as int]);
        }
        if str_eq(vars[i].name.as_str(), name) {
            found = Some(vars[i].index);
        }
        i += 1;
    }
    assert(vars@.take(vars@.len() as int) =~= vars@);
    found
}

/// The local name of a runtime helper (see [`alias_of`]).
pub fn helper_name(aliases: &[(String, String)], helper: &str) -> (r: String)
    ensures
        r@ == alias_of(aliases_view(aliases@), helper@),
{
    let ghost av = aliases_view(aliases@);
    assert(av.skip(0) =~= av);
    let mut i: usize = 0;
    while i < aliases.len()
        invariant
            i <= aliases@.len(),
            av == aliases_view(aliases@),
            alias_of(av, helper@) == alias_of(av.skip(i as int), helper@),
        decreases aliases@.len() - i,
    {
        assert(av.skip(i as int)[0] == av[i as int]);
        if str_eq(aliases[i].0.as_str(), helper) {
            return String::from_str(aliases[i].1.as_str());
        }
        assert(av.skip(i as int).drop_first() =~= av.skip(i + 1));
        i += 1;
    }
    assert(av.skip(i as int).len() == 0);
    String::from_str(helper)
}

fn inside(ranges: &Vec<TextRange>, end: u32) -> (r: bool)
    ensures
        r == inside_any(ranges@, end),
{
    let mut i: usize = 0;
    while i < ranges.len()
        invariant
            i <= ranges@.len(),
            forall|k: int|
                0 <= k < i ==> !(end > ranges@[k].start.raw && end <= ranges@[k].end.raw),
        decreases ranges@.len() - i,
    {
        if end > ranges[i].start.raw && end <= ranges[i].end.raw {
            return true;
        }
        i += 1;
    }
    false
}

/// The initializer text of a declaration (see [`init_text`]).
fn init_of<'a>(script: &'a str, init: Option<TextRange>) -> (r: &'a str)
    ensures
        r@ == init_text(script.spec_bytes(), init),
        r.spec_bytes().len() <= u32::MAX,
{
    proof {
        reveal_strlit("undefined");
        vstd::string::is_ascii_spec_bytes("undefined");
        assert(vstd::string::is_ascii("undefined"));
    }
    match init {
        Some(ir) => match ir.slice(script) {
            Some(t) => {
                proof {
                    vstd::utf8::encode_utf8_decode_utf8(t@);
                }
                t
            },
            None => "undefined",
        },
        None => "undefined",
    }
}

/// Rewrites a script body for reactivity (see [`script_rewritten`]):
/// `let x = e` of a reactive `x`, alone in its statement, becomes
/// `const x = box(c, i, e')` (`deepBox` when `x` is deeply mutated according
/// to `hint`), and each other reference to a reactive variable gets `.v`.
pub fn rewrite_script(
    script: &str,
    hint: &str,
    vars: &[ReactiveVar],
    aliases: &[(String, String)],
    decls: &[TopDecl],
    refs: &[BindingRef],
) -> (r: String)
    ensures
        r@ == script_rewritten(
            script@,
            hint.spec_bytes(),
            vars@,
            aliases_view(aliases@),
            decls_view(decls@),
            refs_view(refs@),
        ),
{
    if vars.len() == 0 {
        return String::from_str(script);
    }
    let ghost b = script.spec_bytes();
    let ghost hb = hint.spec_bytes();
    let ghost av = aliases_view(aliases@);
    let ghost dv = decls_view(decls@);
    let ghost rv = refs_view(refs@);
    let mut edits: Vec<(u32, u32, String)> = Vec::new();
    let mut ranges: Vec<TextRange> = Vec::new();
    let mut i: usize = 0;
    while i < decls.len()
        invariant
            i <= decls@.len(),
            b == script.spec_bytes(),
            hb == hint.spec_bytes(),
            av == aliases_view(aliases@),
            dv == decls_view(decls@),
            edits_view(edits@) == decl_edits(b, hb, vars@, av, dv.take(i as int)),
            ranges@ == boxed_ranges(vars@, dv.take(i as int)),
        decreases decls@.len() - i,
    {
        proof {
            assert(dv.take(i + 1).drop_last() =~= dv.take(i as int));
            assert(dv.take(i + 1).last() == decls@[i as int]@);
        }
        let d = &decls[i];
        match find_var(vars, d.name.as_str()) {
            Some(index) => {
                if d.declarators_in_stmt == 1 {
                    let kind: &str = if is_deeply_mutated(hint, d.name.as_str()) {
                        "deepBox"
                    } else {
                        "box"
                    };
                    let init_raw = init_of(script, d.init_range);
                    let no_shadow: Vec<String> = Vec::new();
                    let init = rewrite_expr(init_raw, vars, &no_shadow);
                    proof {
                        assert(crate::script::analysis::string_views(no_shadow@) =~= Seq::<
                            Seq<char>,
                        >::empty());
                    }
                    let helper = helper_name(aliases, kind);
                    let mut text = String::from_str("const ");
                    text.append(d.name.as_str());
                    text.append(" = ");
                    text.append(helper.as_str());
                    text.append("(c, ");
                    let num = u32_text(index);
                    text.append(num.as_str());
                    text.append(", ");
                    text.append(init.as_str());
                    text.append(")");
                    let ghost before = edits@;
                    edits.push((d.stmt_range.start.raw, d.stmt_range.end.raw, text));
                    ranges.push(d.stmt_range);
                    assert(edits_view(edits@) =~= edits_view(before).push(
                        (d.stmt_range.start.raw, d.stmt_range.end.raw, text@),
                    ));
                }
            },
            None => {},
        }
        i += 1;
    }
    assert(dv.take(dv.len() as int) =~= dv);
    let ghost de = edits_view(edits@);
    let mut j: usize = 0;
    while j < refs.len()
        invariant
            j <= refs@.len(),
            rv == refs_view(refs@),
            ranges@ == boxed_ranges(vars@, dv),
            edits_view(edits@) == de + ref_edits(vars@, ranges@, rv.take(j as int)),
        decreases refs@.len() - j,
    {
        proof {
            assert(rv.take(j + 1).drop_last() =~= rv.take(j as int));
            assert(rv.take(j + 1).last() == refs@[j as int]@);
        }
        let r = &refs[j];
        let end = r.range.end.raw;
        let known = match find_var(vars, r.name.as_str()) {
            Some(_) => true,
            None => false,
        };
        if known && !inside(&ranges, end) {
            let ghost before = edits@;
            if r.shorthand {
                let mut t = String::from_str(r.name.as_str());
                t.append(": ");
                t.append(r.name.as_str());
                t.append(".v");
                edits.push((r.range.start.raw, end, t));
                assert(edits_view(edits@) =~= edits_view(before).push((r.range.start.raw, end, t@)));
            } else {
                let t = String::from_str(".v");
                edits.push((end, end, t));
                assert(edits_view(edits@) =~= edits_view(before).push((end, end, t@)));
            }
        }
        j += 1;
    }
    assert(rv.take(rv.len() as int) =~= rv);
    apply_edits(script, edits)
}

} // verus!
