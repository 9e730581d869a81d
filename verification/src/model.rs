//! Reactive variables of a component: the top-level bindings of its
//! `script:` block that can change after initialization, numbered in
//! declaration order.

use vstd::prelude::*;
use vstd::string::{StringExecFns, StringSliceAdditionalSpecFns};

use crate::diagnostic::{diag_abs, diags_abs, Diagnostic, SDiag, Severity};
use crate::script::analysis::{
    analyze_script, assigned, assigned_identifiers, body_of, declared_bindings_with_spans,
    fn_items, names, program, rebase_all, ranges_view, string_views, top_list,
    ScriptParseError,
};
use crate::sfc::ir::{
    directives_view, BlockSource, Directive, PropInput, SDirective, SPropInput, SUseComponent,
    StyleBlock, UseComponent,
};
use crate::span::{TextRange, TextSize};

verus! {

/// A top-level binding that can change after initialization and therefore
/// needs reactive tracking. Its [`index`](ReactiveVar::index) is stable; a
/// code generator turns it into a runtime bit, so a set of dependencies is a
/// bitmask.
#[derive(Debug, Clone, PartialEq, Eq)]
pub struct ReactiveVar {
    pub name: String,
    /// Bit position, assigned in declaration order among reactive vars.
    pub index: u32,
    /// File-absolute range of the declaration site, when known.
    pub decl_range: Option<TextRange>,
}

/// The abstract form of a [`ReactiveVar`].
pub struct SReactiveVar {
    pub name: Seq<char>,
    pub index: u32,
    pub decl_range: Option<TextRange>,
}

impl View for ReactiveVar {
    type V = SReactiveVar;

    open spec fn view(&self) -> SReactiveVar {
        SReactiveVar { name: self.name@, index: self.index, decl_range: self.decl_range }
    }
}

pub open spec fn vars_view(s: Seq<ReactiveVar>) -> Seq<SReactiveVar> {
    s.map_values(|v: ReactiveVar| v@)
}

pub open spec fn var_names(s: Seq<SReactiveVar>) -> Seq<Seq<char>> {
    s.map_values(|v: SReactiveVar| v.name)
}

/// The range of the first declaration of `name`, moved by `base`.
pub open spec fn first_decl(decls: Seq<(Seq<char>, TextRange)>, name: Seq<char>, base: u32) -> Option<
    TextRange,
>
    decreases decls.len(),
{
    if decls.len() == 0 {
        None
    } else if decls[0].0 == name {
        Some(
            TextRange {
                start: TextSize { raw: (decls[0].1.start.raw + base) as u32 },
                end: TextSize { raw: (decls[0].1.end.raw + base) as u32 },
            },
        )
    } else {
        first_decl(decls.drop_first(), name, base)
    }
}

/// The reactive variables among `bindings`: each binding that is `mutated`,
/// at its first declaration, numbered in order (the number kept to 32 bits).
pub open spec fn reactive_from(
    bindings: Seq<Seq<char>>,
    mutated: Seq<Seq<char>>,
    decls: Seq<(Seq<char>, TextRange)>,
    base: u32,
) -> Seq<SReactiveVar>
    decreases bindings.len(),
{
    if bindings.len() == 0 {
        Seq::empty()
    } else {
        let prev = reactive_from(bindings.drop_last(), mutated, decls, base);
        let n = bindings.last();
        if mutated.contains(n) && !var_names(prev).contains(n) {
            prev.push(SReactiveVar { name: n, index: prev.len() as u32, decl_range: first_decl(decls, n, base) })
        } else {
            prev
        }
    }
}

/// Every name a function of the script assigns, function by function.
pub open spec fn fn_mutated(s: Seq<(Seq<char>, Seq<Seq<char>>)>) -> Seq<Seq<char>>
    decreases s.len(),
{
    if s.len() == 0 {
        Seq::empty()
    } else {
        fn_mutated(s.drop_last()) + s.last().1
    }
}

/// The reactive variables of a script block, or the diagnostic that it could
/// not be analysed: a binding is reactive if some function assigns it or the
/// top level reassigns it.
pub open spec fn reactive_vars_of(source: BlockSource) -> (Seq<SReactiveVar>, Seq<SDiag>) {
    match program(source.text@) {
        Ok((m, pos)) => {
            let bindings = names(top_list(body_of(m)));
            let mutated = fn_mutated(fn_items(body_of(m))) + names(assigned(m));
            let decls = rebase_all(
                top_list(body_of(m)),
                pos,
                0,
                vstd::utf8::encode_utf8(source.text@).len() as int,
            );
            (reactive_from(bindings, mutated, decls, source.range.start.raw), Seq::empty())
        },
        Err(e) => (
            Seq::empty(),
            seq![
                SDiag {
                    range: source.range,
                    severity: Severity::Error,
                    message: "could not analyze script block: "@ + e@,
                },
            ],
        ),
    }
}

fn contains_name(v: &Vec<String>, name: &str) -> (r: bool)
    ensures
        r == string_views(v@).contains(name@),
{
    let mut i: usize = 0;
    while i < v.len()
        invariant
            i <= v@.len(),
            forall|k: int| 0 <= k < i ==> v@[k]@ != name@,
        decreases v@.len() - i,
    {
        if crate::script::json::str_eq(v[i].as_str(), name) {
            assert(string_views(v@)[i as int] == name@);
            return true;
        }
        i += 1;
    }
    assert(!string_views(v@).contains(name@)) by {
        if string_views(v@).contains(name@) {
            let k = choose|k: int| 0 <= k < v@.len() && string_views(v@)[k] == name@;
            assert(v@[k]@ == name@);
        }
    }
    false
}

fn decl_range_of(decls: &Vec<(String, TextRange)>, name: &str, base: TextSize) -> (r: Option<TextRange>)
    requires
        forall|k: int|
            0 <= k < decls@.len() ==> (#[trigger] decls@[k]).1.start.raw <= decls@[k].1.end.raw
                && decls@[k].1.end.raw + base.raw <= u32::MAX,
    ensures
        r == first_decl(ranges_view(decls@), name@, base.raw),
{
    let ghost d = ranges_view(decls@);
    assert(d.skip(0) =~= d);
    let mut i: usize = 0;
    while i < decls.len()
        invariant
            i <= decls@.len(),
            d == ranges_view(decls@),
            forall|k: int|
                0 <= k < decls@.len() ==> (#[trigger] decls@[k]).1.start.raw <= decls@[k].1.end.raw
                    && decls@[k].1.end.raw + base.raw <= u32::MAX,
            first_decl(d, name@, base.raw) == first_decl(d.skip(i as int), name@, base.raw),
        decreases decls@.len() - i,
    {
        proof {
            assert(d.skip(i as int).drop_first() =~= d.skip(i + 1));
            assert(d.skip(i as int)[0] == (decls@[i as int].0@, decls@[i as int].1));
        }
        if crate::script::json::str_eq(decls[i].0.as_str(), name) {
            return Some(decls[i].1.shifted(base));
        }
        i += 1;
    }
    proof {
        assert(d.skip(i as int).len() == 0);
    }
    None
}

/// Determines which top-level bindings of a script block are reactive
/// (declared *and* assigned somewhere) and numbers them in declaration order;
/// a block that does not parse is reported and has none.
pub fn resolve_reactive_vars(script: &BlockSource, diags: &mut Vec<Diagnostic>) -> (r: Vec<ReactiveVar>)
    requires
        script.range.start.raw + vstd::utf8::encode_utf8(script.text@).len() <= u32::MAX,
    ensures
        vars_view(r@) == reactive_vars_of(*script).0,
        diags_abs(final(diags)@) == diags_abs(old(diags)@) + reactive_vars_of(*script).1,
{
    let text = script.text.as_str();
    let base = script.range.start;
    let analysis = match analyze_script(text) {
        Ok(a) => a,
        Err(ScriptParseError::Parse(e)) => {
            let mut message = String::from_str("could not analyze script block: ");
            message.append(e.as_str());
            let d = Diagnostic::error(script.range, message);
            diags.push(d);
            assert(diags_abs(diags@) =~= diags_abs(old(diags)@).push(diag_abs(d)));
            return Vec::new();
        },
    };
    let ghost m = match program(text@) { Ok((m, _)) => m, Err(_) => arbitrary() };
    // Everything some function assigns, then what the top level assigns.
    let mut mutated: Vec<String> = Vec::new();
    let mut f: usize = 0;
    let fm = &analysis.function_mutations;
    while f < fm.len()
        invariant
            f <= fm@.len(),
            string_views(mutated@) == fn_mutated(
                crate::script::analysis::mutations_view(fm@).take(f as int),
            ),
        decreases fm@.len() - f,
    {
        let vars = &fm[f].1;
        let ghost before = string_views(mutated@);
        let mut k: usize = 0;
        while k < vars.len()
            invariant
                k <= vars@.len(),
                string_views(mutated@) == before + string_views(vars@).take(k as int),
            decreases vars@.len() - k,
        {
            let c = vars[k].clone();
            proof {
                crate::script::analysis::lemma_string_views_push(mutated@, c);
                assert(string_views(vars@).take(k + 1) =~= string_views(vars@).take(k as int).push(
                    c@,
                ));
            }
            mutated.push(c);
            k += 1;
        }
        proof {
            let mv = crate::script::analysis::mutations_view(fm@);
            assert(mv.take(f + 1).drop_last() =~= mv.take(f as int));
            assert(string_views(vars@).take(vars@.len() as int) =~= string_views(vars@));
        }
        f += 1;
    }
    proof {
        let mv = crate::script::analysis::mutations_view(fm@);
        assert(mv.take(fm@.len() as int) =~= mv);
    }
    match assigned_identifiers(text) {
        Ok(top_level) => {
            let ghost before = string_views(mutated@);
            let mut k: usize = 0;
            while k < top_level.len()
                invariant
                    k <= top_level@.len(),
                    string_views(mutated@) == before + string_views(top_level@).take(k as int),
                decreases top_level@.len() - k,
            {
                let c = top_level[k].clone();
                proof {
                    crate::script::analysis::lemma_string_views_push(mutated@, c);
                    assert(string_views(top_level@).take(k + 1) =~= string_views(top_level@).take(
                        k as int,
                    ).push(c@));
                }
                mutated.push(c);
                k += 1;
            }
            assert(string_views(top_level@).take(top_level@.len() as int) =~= string_views(
                top_level@,
            ));
        },
        Err(_) => {},
    }
    let decls = match declared_bindings_with_spans(text) {
        Ok(d) => d,
        Err(_) => Vec::new(),
    };
    proof {
        let len = vstd::utf8::encode_utf8(text@).len() as int;
        match program(text@) {
            Ok((m2, pos)) => {
                crate::script::analysis::law_spans_within_code(top_list(body_of(m2)), pos, 0, len);
                assert forall|k: int| 0 <= k < decls@.len() implies (#[trigger] decls@[k]).1.start.raw
                    <= decls@[k].1.end.raw && decls@[k].1.end.raw + base.raw <= u32::MAX by {
                    assert(ranges_view(decls@)[k].1 == decls@[k].1);
                    assert(rebase_all(top_list(body_of(m2)), pos, 0, len)[k].1 == decls@[k].1);
                }
            },
            Err(_) => {},
        }
    }
    let bindings = &analysis.bindings;
    let mut vars: Vec<ReactiveVar> = Vec::new();
    let mut seen: Vec<String> = Vec::new();
    let mut i: usize = 0;
    while i < bindings.len()
        invariant
            i <= bindings@.len(),
            vars@.len() <= i,
            string_views(seen@) == var_names(vars_view(vars@)),
            vars_view(vars@) == reactive_from(
                string_views(bindings@).take(i as int),
                string_views(mutated@),
                ranges_view(decls@),
                base.raw,
            ),
            forall|k: int|
                0 <= k < decls@.len() ==> (#[trigger] decls@[k]).1.start.raw <= decls@[k].1.end.raw
                    && decls@[k].1.end.raw + base.raw <= u32::MAX,
        decreases bindings@.len() - i,
    {
        let name = bindings[i].as_str();
        proof {
            let t = string_views(bindings@).take(i + 1);
            assert(t.drop_last() =~= string_views(bindings@).take(i as int));
            assert(t.last() == bindings@[i as int]@);
        }
        if contains_name(&mutated, name) && !contains_name(&seen, name) {
            let v = ReactiveVar {
                name: bindings[i].clone(),
                index: vars.len() as u32,
                decl_range: decl_range_of(&decls, name, base),
            };
            let c = bindings[i].clone();
            let ghost before = vars_view(vars@);
            proof {
                crate::script::analysis::lemma_string_views_push(seen@, c);
                assert(var_names(before.push(v@)) =~= var_names(before).push(v@.name));
            }
            vars.push(v);
            seen.push(c);
            assert(vars_view(vars@) =~= before.push(v@));
        }
        i += 1;
    }
    proof {
        assert(string_views(bindings@).take(bindings@.len() as int) =~= string_views(bindings@));
    }
    vars
}


/// The reactive variables are numbered in order from zero (the number kept
/// to 32 bits), name distinct variables, and are each a declared binding
/// that is assigned somewhere.
pub proof fn law_reactive_numbering(
    bindings: Seq<Seq<char>>,
    mutated: Seq<Seq<char>>,
    decls: Seq<(Seq<char>, TextRange)>,
    base: u32,
)
    ensures
        forall|k: int|
            0 <= k < reactive_from(bindings, mutated, decls, base).len() ==> (#[trigger] reactive_from(
                bindings,
                mutated,
                decls,
                base,
            )[k]).index == k as u32,
        forall|i: int, k: int|
            0 <= i < k < reactive_from(bindings, mutated, decls, base).len() ==> reactive_from(
                bindings,
                mutated,
                decls,
                base,
            )[i].name != reactive_from(bindings, mutated, decls, base)[k].name,
        forall|k: int|
            0 <= k < reactive_from(bindings, mutated, decls, base).len() ==> bindings.contains(
                (#[trigger] reactive_from(bindings, mutated, decls, base)[k]).name,
            ) && mutated.contains(reactive_from(bindings, mutated, decls, base)[k].name),
    decreases bindings.len(),
{
    if bindings.len() > 0 {
        let prev = reactive_from(bindings.drop_last(), mutated, decls, base);
        law_reactive_numbering(bindings.drop_last(), mutated, decls, base);
        let r = reactive_from(bindings, mutated, decls, base);
        let n = bindings.last();
        assert forall|k: int| 0 <= k < r.len() implies bindings.contains((#[trigger] r[k]).name)
            && mutated.contains(r[k].name) by {
            if k < prev.len() {
                assert(r[k] == prev[k]);
                let i = choose|i: int| 0 <= i < bindings.drop_last().len() && bindings.drop_last()[i]
                    == prev[k].name;
                assert(bindings[i] == prev[k].name);
            } else {
                assert(bindings[bindings.len() - 1] == n);
            }
        }
        assert forall|i: int, k: int| 0 <= i < k < r.len() implies r[i].name != r[k].name by {
            if k >= prev.len() {
                assert(r[i] == prev[i]);
                assert(var_names(prev)[i] == prev[i].name);
            } else {
                assert(r[i] == prev[i] && r[k] == prev[k]);
            }
        }
    }
}

// ---------------------------------------------------------------------------
// The resolved component.

/// What a code generator needs of a parsed component: its props, child
/// components, style, script source and numbered reactive variables.
#[derive(Debug)]
pub struct ResolvedComponent {
    /// `@input` props, in source order.
    pub props: Vec<PropInput>,
    /// `@use` child component imports, in source order.
    pub imports: Vec<UseComponent>,
    /// The `style:` block, if any.
    pub style: Option<StyleBlock>,
    /// The `script:` block's source, if any.
    pub script: Option<BlockSource>,
    /// Reactive variables, numbered in declaration order.
    pub reactive_vars: Vec<ReactiveVar>,
}

/// The index of the first reactive variable named `name`.
pub open spec fn index_of(vars: Seq<SReactiveVar>, name: Seq<char>) -> Option<u32>
    decreases vars.len(),
{
    if vars.len() == 0 {
        None
    } else if vars[0].name == name {
        Some(vars[0].index)
    } else {
        index_of(vars.drop_first(), name)
    }
}

/// The `@input` props among the directives, in order.
pub open spec fn props_of(ds: Seq<SDirective>) -> Seq<SPropInput>
    decreases ds.len(),
{
    if ds.len() == 0 {
        Seq::empty()
    } else {
        let rest = props_of(ds.drop_last());
        match ds.last() {
            SDirective::Input(p) => rest.push(p),
            _ => rest,
        }
    }
}

/// The `@use` imports among the directives, in order.
pub open spec fn imports_of(ds: Seq<SDirective>) -> Seq<SUseComponent>
    decreases ds.len(),
{
    if ds.len() == 0 {
        Seq::empty()
    } else {
        let rest = imports_of(ds.drop_last());
        match ds.last() {
            SDirective::UseComponent(u) => rest.push(u),
            _ => rest,
        }
    }
}

pub open spec fn props_view(s: Seq<PropInput>) -> Seq<SPropInput> {
    s.map_values(|p: PropInput| p@)
}

pub open spec fn imports_view(s: Seq<UseComponent>) -> Seq<SUseComponent> {
    s.map_values(|u: UseComponent| u@)
}

fn copy_string_opt(o: &Option<String>) -> (r: Option<String>)
    ensures
        crate::sfc::ir::opt_string(r) == crate::sfc::ir::opt_string(*o),
{
    match o {
        Some(s) => Some(s.clone()),
        None => None,
    }
}

fn copy_prop(p: &PropInput) -> (r: PropInput)
    ensures
        r@ == p@,
{
    PropInput {
        name: p.name.clone(),
        type_annotation: copy_string_opt(&p.type_annotation),
        default_value: copy_string_opt(&p.default_value),
        nullable: p.nullable,
        range: p.range,
    }
}

fn copy_use(u: &UseComponent) -> (r: UseComponent)
    ensures
        r@ == u@,
{
    UseComponent { component_name: u.component_name.clone(), path: u.path.clone(), range: u.range }
}

/// Resolves a parsed file's directives, script and style: props and imports
/// are the `@input` and `@use` directives in source order, and the reactive
/// variables are those of the script (none without one; problems analysing
/// it are appended to `diags`).
pub fn resolve_component(
    directives: &Vec<Directive>,
    script: Option<BlockSource>,
    style: Option<StyleBlock>,
    diags: &mut Vec<Diagnostic>,
) -> (r: ResolvedComponent)
    requires
        script matches Some(s) ==> s.range.start.raw + vstd::utf8::encode_utf8(s.text@).len()
            <= u32::MAX,
    ensures
        props_view(r.props@) == props_of(directives_view(directives@)),
        imports_view(r.imports@) == imports_of(directives_view(directives@)),
        r.style == style,
        r.script == script,
        match script {
            Some(s) => {
                &&& vars_view(r.reactive_vars@) == reactive_vars_of(s).0
                &&& diags_abs(final(diags)@) == diags_abs(old(diags)@) + reactive_vars_of(s).1
            },
            None => r.reactive_vars@.len() == 0 && final(diags)@ == old(diags)@,
        },
{
    let mut props: Vec<PropInput> = Vec::new();
    let mut imports: Vec<UseComponent> = Vec::new();
    let mut i: usize = 0;
    while i < directives.len()
        invariant
            i <= directives.len(),
            props_view(props@) == props_of(directives_view(directives@.take(i as int))),
            imports_view(imports@) == imports_of(directives_view(directives@.take(i as int))),
        decreases directives.len() - i,
    {
        let ghost before = directives_view(directives@.take(i as int));
        let ghost after = directives_view(directives@.take(i as int + 1));
        assert(after.drop_last() =~= before);
        assert(after.last() == directives@[i as int]@);
        match &directives[i] {
            Directive::Input(p) => {
                let q = copy_prop(p);
                props.push(q);
                assert(props_view(props@) =~= props_view(props@.drop_last()).push(q@));
            },
            Directive::UseComponent(u) => {
                let v = copy_use(u);
                imports.push(v);
                assert(imports_view(imports@) =~= imports_view(imports@.drop_last()).push(v@));
            },
            _ => {},
        }
        i = i + 1;
    }
    assert(directives@.take(directives.len() as int) =~= directives@);
    let reactive_vars = match &script {
        Some(s) => resolve_reactive_vars(s, diags),
        None => Vec::new(),
    };
    ResolvedComponent { props, imports, style, script, reactive_vars }
}

impl ResolvedComponent {
    /// The reactive bit index of `name`, if it is a tracked reactive variable.
    pub fn reactive_index(&self, name: &str) -> (r: Option<u32>)
        ensures
            r == index_of(vars_view(self.reactive_vars@), name@),
    {
        let ghost all = vars_view(self.reactive_vars@);
        let mut i: usize = 0;
        assert(all.skip(0) =~= all);
        while i < self.reactive_vars.len()
            invariant
                i <= self.reactive_vars.len(),
                all == vars_view(self.reactive_vars@),
                index_of(all, name@) == index_of(all.skip(i as int), name@),
            decreases self.reactive_vars.len() - i,
        {
            let v = &self.reactive_vars[i];
            assert(all.skip(i as int)[0] == v@);
            assert(all.skip(i as int).drop_first() =~= all.skip(i as int + 1));
            if crate::script::json::str_eq(v.name.as_str(), name) {
                return Some(v.index);
            }
            i = i + 1;
        }
        assert(all.skip(i as int).len() == 0);
        None
    }

    /// Whether `name` is a tracked reactive variable.
    pub fn is_reactive(&self, name: &str) -> (r: bool)
        ensures
            r == index_of(vars_view(self.reactive_vars@), name@) is Some,
    {
        self.reactive_index(name).is_some()
    }
}

} // verus!
