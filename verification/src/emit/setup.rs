//! Setting up the emitter for one component: the deep-mutation hint, the
//! names a user binding takes from the runtime helpers (which are then
//! imported under an alias), and the child components to import.

use vstd::prelude::*;
use vstd::string::{StringExecFns, StringSliceAdditionalSpecFns};

use crate::emit::emitter::{parts_view, DynamicPart, Emitter};
use crate::emit::names::{alias_name, child_local, child_local_name, first_free};
use crate::emit::script::aliases_view;
use crate::model::ReactiveVar;
use crate::script::analysis::{body_of, declared_bindings, names, program, string_views, top_list};
use crate::script::json::str_eq;
use crate::sfc::ir::{PropInput, UseComponent};

verus! {

broadcast use vstd::string::group_string_axioms;

/// The runtime helpers a module may import, in a fixed order. (`component`
/// is not among them: only module scope refers to it, where no user binding
/// can shadow it.)
pub open spec fn helpers() -> Seq<Seq<char>> {
    seq![
        "refs"@, "on"@, "bind"@, "box"@, "deepBox"@, "prop"@, "anchorBefore"@,
        "anchorBeforeSplit"@, "anchorAppend"@, "ifBlock"@, "ifChain"@, "forBlock"@,
        "fromHTML"@, "mountChild"@, "dynamicBlock"@, "teleportBlock"@, "setClass"@, "setStyle"@,
    ]
}

fn helper_list() -> (r: Vec<String>)
    ensures
        string_views(r@) == helpers(),
{
    let r = vec![
        String::from_str("refs"),
        String::from_str("on"),
        String::from_str("bind"),
        String::from_str("box"),
        String::from_str("deepBox"),
        String::from_str("prop"),
        String::from_str("anchorBefore"),
        String::from_str("anchorBeforeSplit"),
        String::from_str("anchorAppend"),
        String::from_str("ifBlock"),
        String::from_str("ifChain"),
        String::from_str("forBlock"),
        String::from_str("fromHTML"),
        String::from_str("mountChild"),
        String::from_str("dynamicBlock"),
        String::from_str("teleportBlock"),
        String::from_str("setClass"),
        String::from_str("setStyle"),
    ];
    assert(string_views(r@) =~= helpers());
    r
}

/// A two-way lvalue that writes into a member or an element (`o.k`, `a[i]`).
pub open spec fn member_write(lv: Seq<char>) -> bool {
    lv.contains('.') || lv.contains('[')
}

/// One `\nlvalue = 0;` line per member or element lvalue, in order.
pub open spec fn hint_lines(lvs: Seq<Seq<char>>) -> Seq<char>
    decreases lvs.len(),
{
    if lvs.len() == 0 {
        Seq::empty()
    } else {
        hint_lines(lvs.drop_last()) + if member_write(lvs.last()) {
            "\n"@ + lvs.last() + " = 0;"@
        } else {
            Seq::empty()
        }
    }
}

/// The top-level bindings a script declares; none when it does not parse.
pub open spec fn script_names(code: Seq<char>) -> Seq<Seq<char>> {
    match program(code) {
        Ok((m, _)) => names(top_list(body_of(m))),
        Err(_) => Seq::empty(),
    }
}

pub open spec fn prop_names(props: Seq<PropInput>) -> Seq<Seq<char>> {
    props.map_values(|p: PropInput| p.name@)
}

/// `out` aliases, in order, each helper of `hs` that `reserved` takes: the
/// first free `$helper`, `$helper_`, … name.
pub open spec fn aliases_for(
    hs: Seq<Seq<char>>,
    reserved: Seq<Seq<char>>,
    out: Seq<(Seq<char>, Seq<char>)>,
) -> bool
    decreases hs.len(),
{
    if hs.len() == 0 {
        out.len() == 0
    } else if reserved.contains(hs[0]) {
        &&& out.len() > 0
        &&& out[0].0 == hs[0]
        &&& first_free(out[0].1, seq!['$'] + hs[0], reserved)
        &&& aliases_for(hs.drop_first(), reserved, out.drop_first())
    } else {
        aliases_for(hs.drop_first(), reserved, out)
    }
}

pub open spec fn uses_view(s: Seq<UseComponent>) -> Seq<(Seq<char>, Seq<char>)> {
    s.map_values(|u: UseComponent| (u.component_name@, u.path@))
}

pub open spec fn triples_view(s: Seq<(String, String, String)>) -> Seq<(Seq<char>, Seq<char>, Seq<char>)> {
    s.map_values(|t: (String, String, String)| (t.0@, t.1@, t.2@))
}

/// `out` lists, in order, the `@use` entries (tag, path) that are imported:
/// each whose tag the template uses (any, when it holds a dynamic
/// component), once per tag, under its local name (see [`child_local`]),
/// each local name then taken.
pub open spec fn imports_for(
    uses: Seq<(Seq<char>, Seq<char>)>,
    tags: Seq<Seq<char>>,
    dynamic: bool,
    reserved: Seq<Seq<char>>,
    seen: Seq<Seq<char>>,
    out: Seq<(Seq<char>, Seq<char>, Seq<char>)>,
) -> bool
    decreases uses.len(),
{
    if uses.len() == 0 {
        out.len() == 0
    } else {
        let (tag, path) = uses[0];
        if !(tags.contains(tag) || dynamic) || seen.contains(tag) {
            imports_for(uses.drop_first(), tags, dynamic, reserved, seen, out)
        } else {
            &&& out.len() > 0
            &&& out[0].0 == tag
            &&& child_local(out[0].1, tag, reserved)
            &&& out[0].2 == path
            &&& imports_for(
                uses.drop_first(),
                tags,
                dynamic,
                reserved.push(out[0].1),
                seen.push(tag),
                out.drop_first(),
            )
        }
    }
}

/// The alias names of `aliases`.
pub open spec fn alias_names(aliases: Seq<(Seq<char>, Seq<char>)>) -> Seq<Seq<char>> {
    aliases.map_values(|p: (Seq<char>, Seq<char>)| p.1)
}

fn contains_str(v: &Vec<String>, s: &str) -> (r: bool)
    ensures
        r == string_views(v@).contains(s@),
{
    crate::emit::emitter::names_contain(v.as_slice(), s)
}

/// The script with a line appended for each member or element lvalue of a
/// two-way binding (see [`hint_lines`]).
pub fn deep_hint_text(script: &str, lvalues: &[String]) -> (r: String)
    ensures
        r@ == script@ + hint_lines(string_views(lvalues@)),
{
    let ghost lv = string_views(lvalues@);
    let mut out = String::from_str(script);
    let mut i: usize = 0;
    while i < lvalues.len()
        invariant
            i <= lvalues@.len(),
            lv == string_views(lvalues@),
            out@ == script@ + hint_lines(lv.take(i as int)),
        decreases lvalues@.len() - i,
    {
        proof {
            assert(lv.take(i + 1).drop_last() =~= lv.take(i as int));
            assert(lv.take(i + 1).last() == lvalues@[i as int]@);
        }
        let s = lvalues[i].as_str();
        if has_char(s, '.') || has_char(s, '[') {
            out.append("\n");
            out.append(s);
            out.append(" = 0;");
        }
        i += 1;
    }
    assert(lv.take(lv.len() as int) =~= lv);
    out
}

fn has_char(s: &str, c: char) -> (r: bool)
    ensures
        r == s@.contains(c),
{
    let cs = crate::text::chars_of(s);
    let mut i: usize = 0;
    while i < cs.len()
        invariant
            i <= cs@.len(),
            cs@ == s@,
            forall|k: int| 0 <= k < i ==> cs@[k] != c,
        decreases cs@.len() - i,
    {
        if cs[i] == c {
            assert(s@[i as int] == c);
            return true;
        }
        i += 1;
    }
    false
}

/// The names a user binding takes: the script's top-level bindings, then the
/// props.
pub fn reserved_names(script: &str, props: &[PropInput]) -> (r: Vec<String>)
    ensures
        string_views(r@) == script_names(script@) + prop_names(props@),
{
    let mut r: Vec<String> = match declared_bindings(script) {
        Ok(v) => v,
        Err(_) => Vec::new(),
    };
    assert(string_views(r@) == script_names(script@));
    let ghost base = string_views(r@);
    let mut i: usize = 0;
    while i < props.len()
        invariant
            i <= props@.len(),
            string_views(r@) == base + prop_names(props@.take(i as int)),
        decreases props@.len() - i,
    {
        let n = String::from_str(props[i].name.as_str());
        let ghost before = r@;
        r.push(n);
        assert(prop_names(props@.take(i + 1)) =~= prop_names(props@.take(i as int)).push(props@[i as int].name@));
        assert(string_views(r@) =~= string_views(before).push(n@));
        i += 1;
    }
    assert(props@.take(props@.len() as int) =~= props@);
    r
}

/// The aliases of the helpers that `reserved` takes (see [`aliases_for`]).
pub fn helper_aliases(reserved: &[String]) -> (r: Vec<(String, String)>)
    ensures
        aliases_for(helpers(), string_views(reserved@), aliases_view(r@)),
{
    let hs = helper_list();
    let ghost hv = helpers();
    let ghost rv = string_views(reserved@);
    let mut out: Vec<(String, String)> = Vec::new();
    let mut i: usize = hs.len();
    while i > 0
        invariant
            i <= hs@.len(),
            string_views(hs@) == hv,
            hv == helpers(),
            rv == string_views(reserved@),
            aliases_for(hv.skip(i as int), rv, aliases_view(out@)),
        decreases i,
    {
        i -= 1;
        proof {
            assert(hv.skip(i as int)[0] == hs@[i as int]@);
            assert(hv.skip(i as int).drop_first() =~= hv.skip(i + 1));
        }
        let h = hs[i].as_str();
        if names_have(reserved, h) {
            let a = alias_name(h, reserved);
            let ghost old_out = aliases_view(out@);
            out.insert(0, (String::from_str(h), a));
            assert(aliases_view(out@).drop_first() =~= old_out);
        }
    }
    assert(hv.skip(0) =~= hv);
    out
}

fn names_have(v: &[String], s: &str) -> (r: bool)
    ensures
        r == string_views(v@).contains(s@),
{
    crate::emit::emitter::names_contain(v, s)
}

impl Emitter {
    /// A fresh emitter for a component: its script, props, `@use` entries,
    /// reactive variables and dynamic parts; the lvalues of its two-way
    /// bindings, the component tags its template uses, and whether it holds
    /// a dynamic component.
    pub fn new(
        script: &str,
        props: &[PropInput],
        imports: &[UseComponent],
        reactive_vars: Vec<ReactiveVar>,
        dynamics: Vec<DynamicPart>,
        two_way_lvalues: &[String],
        used_tags: &[String],
        has_dynamic: bool,
    ) -> (r: Emitter)
        ensures
            r.reactive_vars == reactive_vars,
            r.dynamics == dynamics,
            r.used@.len() == 0,
            r.hoisted@.len() == 0,
            r.n_ref == 0 && r.n_text == 0 && r.n_anchor == 0 && r.n_root == 0,
            r.n_data == 0 && r.n_html == 0 && r.n_child == 0,
            r.deep_hint@ == script@ + hint_lines(string_views(two_way_lvalues@)),
            ({
                let reserved = script_names(script@) + prop_names(props@);
                &&& aliases_for(helpers(), reserved, aliases_view(r.aliases@))
                &&& imports_for(
                    uses_view(imports@),
                    string_views(used_tags@),
                    has_dynamic,
                    reserved + alias_names(aliases_view(r.aliases@)) + helpers() + seq!["component"@],
                    Seq::empty(),
                    triples_view(r.child_imports@),
                )
            }),
    {
        let deep_hint = deep_hint_text(script, two_way_lvalues);
        let reserved = reserved_names(script, props);
        let aliases = helper_aliases(reserved.as_slice());
        let mut import_reserved = reserved;
        let mut k: usize = 0;
        let ghost r0 = string_views(import_reserved@);
        while k < aliases.len()
            invariant
                k <= aliases@.len(),
                string_views(import_reserved@) == r0 + alias_names(aliases_view(aliases@)).take(k as int),
            decreases aliases@.len() - k,
        {
            let a = String::from_str(aliases[k].1.as_str());
            let ghost before = import_reserved@;
            import_reserved.push(a);
            assert(alias_names(aliases_view(aliases@)).take(k + 1) =~= alias_names(aliases_view(aliases@)).take(
                k as int,
            ).push(aliases@[k as int].1@));
            assert(string_views(import_reserved@) =~= string_views(before).push(a@));
            k += 1;
        }
        assert(alias_names(aliases_view(aliases@)).take(aliases@.len() as int) =~= alias_names(
            aliases_view(aliases@),
        ));
        let hs = helper_list();
        let mut k: usize = 0;
        let ghost r1 = string_views(import_reserved@);
        while k < hs.len()
            invariant
                k <= hs@.len(),
                string_views(hs@) == helpers(),
                string_views(import_reserved@) == r1 + helpers().take(k as int),
            decreases hs@.len() - k,
        {
            let h = String::from_str(hs[k].as_str());
            let ghost before = import_reserved@;
            import_reserved.push(h);
            assert(helpers().take(k + 1) =~= helpers().take(k as int).push(hs@[k as int]@));
            assert(string_views(import_reserved@) =~= string_views(before).push(h@));
            k += 1;
        }
        assert(helpers().take(hs@.len() as int) =~= helpers());
        let ghost before = import_reserved@;
        let c = String::from_str("component");
        import_reserved.push(c);
        assert(string_views(import_reserved@) =~= string_views(before).push(c@));
        let ghost ir0 = string_views(import_reserved@);
        let ghost uv = uses_view(imports@);
        let ghost tv = string_views(used_tags@);
        let mut chosen: Vec<(String, String, String)> = Vec::new();
        let mut seen: Vec<String> = Vec::new();
        proof {
            assert(ir0 =~= r0 + alias_names(aliases_view(aliases@)) + helpers() + seq!["component"@]);
            assert(uv.skip(0) =~= uv);
            assert(string_views(seen@) =~= Seq::<Seq<char>>::empty());
            assert(triples_view(chosen@) =~= Seq::<(Seq<char>, Seq<char>, Seq<char>)>::empty());
            assert forall|out: Seq<(Seq<char>, Seq<char>, Seq<char>)>|
                imports_for(uv.skip(0), tv, has_dynamic, ir0, string_views(seen@), out) implies imports_for(
                uv,
                tv,
                has_dynamic,
                ir0,
                Seq::empty(),
                triples_view(chosen@) + out,
            ) by {
                assert(triples_view(chosen@) + out =~= out);
            }
        }
        let mut i: usize = 0;
        while i < imports.len()
            invariant
                i <= imports@.len(),
                uv == uses_view(imports@),
                tv == string_views(used_tags@),
                forall|out: Seq<(Seq<char>, Seq<char>, Seq<char>)>|
                    imports_for(
                        uv.skip(i as int),
                        tv,
                        has_dynamic,
                        string_views(import_reserved@),
                        string_views(seen@),
                        out,
                    ) ==> imports_for(uv, tv, has_dynamic, ir0, Seq::empty(), triples_view(chosen@) + out),
            decreases imports@.len() - i,
        {
            proof {
                assert(uv.skip(i as int)[0] == (imports@[i as int].component_name@, imports@[i as int].path@));
                assert(uv.skip(i as int).drop_first() =~= uv.skip(i + 1));
            }
            let u = &imports[i];
            let name = u.component_name.as_str();
            let wanted = names_have(used_tags, name) || has_dynamic;
            if wanted && !names_have(seen.as_slice(), name) {
                let local = child_local_name(name, import_reserved.as_slice());
                let ghost ir_before = string_views(import_reserved@);
                let ghost seen_before = string_views(seen@);
                let ghost ch_before = triples_view(chosen@);
                let entry = (String::from_str(name), String::from_str(local.as_str()), String::from_str(u.path.as_str()));
                let ghost ev = (entry.0@, entry.1@, entry.2@);
                import_reserved.push(local);
                seen.push(String::from_str(name));
                chosen.push(entry);
                proof {
                    assert(string_views(import_reserved@) =~= ir_before.push(ev.1));
                    assert(string_views(seen@) =~= seen_before.push(ev.0));
                    assert(triples_view(chosen@) =~= ch_before.push(ev));
                    assert forall|out: Seq<(Seq<char>, Seq<char>, Seq<char>)>|
                        imports_for(
                            uv.skip(i + 1),
                            tv,
                            has_dynamic,
                            string_views(import_reserved@),
                            string_views(seen@),
                            out,
                        ) implies imports_for(
                        uv,
                        tv,
                        has_dynamic,
                        ir0,
                        Seq::empty(),
                        triples_view(chosen@) + out,
                    ) by {
                        let o2 = seq![ev] + out;
                        assert(o2.drop_first() =~= out);
                        assert(imports_for(uv.skip(i as int), tv, has_dynamic, ir_before, seen_before, o2));
                        assert(ch_before + o2 =~= triples_view(chosen@) + out);
                    }
                }
            } else {
                proof {
                    let ir = string_views(import_reserved@);
                    let sv = string_views(seen@);
                    assert forall|out: Seq<(Seq<char>, Seq<char>, Seq<char>)>|
                        imports_for(uv.skip(i + 1), tv, has_dynamic, ir, sv, out) implies imports_for(
                        uv,
                        tv,
                        has_dynamic,
                        ir0,
                        Seq::empty(),
                        triples_view(chosen@) + out,
                    ) by {
                        assert(imports_for(uv.skip(i as int), tv, has_dynamic, ir, sv, out));
                    }
                }
            }
            i += 1;
        }
        proof {
            assert(uv.skip(i as int).len() == 0);
            assert(imports_for(
                uv.skip(i as int),
                tv,
                has_dynamic,
                string_views(import_reserved@),
                string_views(seen@),
                Seq::empty(),
            ));
            assert(triples_view(chosen@) + Seq::<(Seq<char>, Seq<char>, Seq<char>)>::empty() =~= triples_view(
                chosen@,
            ));
        }
        Emitter {
            reactive_vars,
            dynamics,
            used: Vec::new(),
            aliases,
            hoisted: Vec::new(),
            child_imports: chosen,
            deep_hint,
            n_ref: 0,
            n_text: 0,
            n_anchor: 0,
            n_root: 0,
            n_data: 0,
            n_html: 0,
            n_child: 0,
        }
    }
}

} // verus!
