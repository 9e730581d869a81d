//! The emitter's state and its statement writers: runtime helpers referenced
//! (each once) and their local aliases, generated local names, hoisted HTML,
//! and the setup-body statements for updates, anchors, event listeners and
//! attribute bindings.

use vstd::prelude::*;
use vstd::string::{StringExecFns, StringSliceAdditionalSpecFns};

use crate::emit::attrs::{attr_set_statement, set_statement, two_way_read, two_way_read_of};
use crate::emit::js::{
    array_text, child_nodes, dec, indent, js_quoted, js_string, push_dep_list, push_indent, push_js_string,
    push_node_at, usize_text, u32_text,
};
use crate::emit::names::{reads, reads_any, strip_path};
use crate::emit::rewrite::{rewrite_expr, rewritten};
use crate::emit::script::{alias_of, aliases_view, helper_name};
use crate::diagnostic::{diag_abs, diags_abs, Diagnostic, SDiag, Severity};
use crate::model::ReactiveVar;
use crate::text::{chars_of, push_char};
use crate::script::analysis::string_views;
use crate::script::json::str_eq;
use crate::span::TextRange;

verus! {

broadcast use vstd::string::group_string_axioms;

/// What a dynamic part of the template is.
#[derive(Debug, Clone, PartialEq, Eq)]
pub enum DynamicKind {
    /// An interpolation in a text run.
    Text,
    /// An interpolation inside the static value of the named attribute.
    AttributeText(String),
    /// A bound attribute `:name="…"`.
    Attribute(String),
    /// A two-way binding `::name="…"`.
    TwoWay(String),
    /// The condition of an `:if` / `:else-if` branch.
    IfCondition,
    /// The iterable of a `:for`.
    ForIterable,
}

/// The abstract form of a [`DynamicKind`].
pub enum SDynamicKind {
    Text,
    AttributeText(Seq<char>),
    Attribute(Seq<char>),
    TwoWay(Seq<char>),
    IfCondition,
    ForIterable,
}

impl View for DynamicKind {
    type V = SDynamicKind;

    open spec fn view(&self) -> SDynamicKind {
        match self {
            DynamicKind::Text => SDynamicKind::Text,
            DynamicKind::AttributeText(n) => SDynamicKind::AttributeText(n@),
            DynamicKind::Attribute(n) => SDynamicKind::Attribute(n@),
            DynamicKind::TwoWay(n) => SDynamicKind::TwoWay(n@),
            DynamicKind::IfCondition => SDynamicKind::IfCondition,
            DynamicKind::ForIterable => SDynamicKind::ForIterable,
        }
    }
}

/// A dynamic part of the template with the reactive variables it reads.
#[derive(Debug, Clone, PartialEq, Eq)]
pub struct DynamicPart {
    pub kind: DynamicKind,
    pub expr: String,
    pub range: TextRange,
    /// Indices of the reactive variables the expression depends on.
    pub deps: Vec<u32>,
}

/// The abstract form of a [`DynamicPart`].
pub struct SDynamicPart {
    pub kind: SDynamicKind,
    pub expr: Seq<char>,
    pub range: TextRange,
    pub deps: Seq<u32>,
}

impl View for DynamicPart {
    type V = SDynamicPart;

    open spec fn view(&self) -> SDynamicPart {
        SDynamicPart { kind: self.kind@, expr: self.expr@, range: self.range, deps: self.deps@ }
    }
}

pub open spec fn parts_view(s: Seq<DynamicPart>) -> Seq<SDynamicPart> {
    s.map_values(|p: DynamicPart| p@)
}

/// Where a slot's anchor goes, relative to the fragment root.
#[derive(Debug, Clone, PartialEq, Eq)]
pub enum InsertPos {
    /// Before the node at the path.
    Before(Vec<u32>),
    /// Inside the text node at the path, split at a UTF-16 offset.
    BeforeSplit { path: Vec<u32>, utf16_offset: u32 },
    /// Appended as the last child of the node at the path.
    Append(Vec<u32>),
}

/// The lexical context of one emitted fragment (the component root, an `:if`
/// branch, or a `:for` item).
pub struct Frag<'x> {
    /// JS expression for the fragment's root node.
    pub base: &'x str,
    /// Loop-binding names in scope: they shadow same-named reactive variables.
    pub shadowed: &'x [String],
    /// Indentation level (1 = the setup body).
    pub indent: usize,
    /// Control-flow nesting depth.
    pub depth: u32,
    /// How many leading path segments to strip.
    pub strip: usize,
}

/// The code generator's state while it writes one component module.
pub struct Emitter {
    /// The component's reactive variables.
    pub reactive_vars: Vec<ReactiveVar>,
    /// The component's dynamic parts with their dependencies.
    pub dynamics: Vec<DynamicPart>,
    /// Runtime helpers referenced so far, each once.
    pub used: Vec<String>,
    /// Local aliases of runtime helpers whose name a user binding takes.
    pub aliases: Vec<(String, String)>,
    /// Hoisted static HTML strings: (const name, html).
    pub hoisted: Vec<(String, String)>,
    /// Child-component imports: (tag as written, local name, module path).
    pub child_imports: Vec<(String, String, String)>,
    /// The text deep mutation is detected in: the script, plus one
    /// assignment per member or index lvalue of a two-way binding.
    pub deep_hint: String,
    pub n_ref: usize,
    pub n_text: usize,
    pub n_anchor: usize,
    pub n_root: usize,
    pub n_data: usize,
    pub n_html: usize,
    pub n_child: usize,
}

/// The helpers referenced so far.
pub open spec fn used_of(e: Emitter) -> Seq<Seq<char>> {
    string_views(e.used@)
}

/// `used` with `name` added unless it is there already.
pub open spec fn with_helper(used: Seq<Seq<char>>, name: Seq<char>) -> Seq<Seq<char>> {
    if used.contains(name) {
        used
    } else {
        used.push(name)
    }
}

/// The local name of helper `name` in emitter `e`.
pub open spec fn helper_of(e: Emitter, name: Seq<char>) -> Seq<char> {
    alias_of(aliases_view(e.aliases@), name)
}

/// The statement `stmt` as its dependencies demand: a bare statement when it
/// reads no reactive variable and no loop binding, else wrapped in
/// `bind(c, deps, …)`.
pub open spec fn update_text(
    e: Emitter,
    level: nat,
    deps: Seq<u32>,
    coupled: bool,
    stmt: Seq<char>,
) -> Seq<char> {
    indent(level) + if deps.len() == 0 && !coupled {
        stmt + "\n"@
    } else {
        helper_of(e, "bind"@) + "(c, "@ + array_text(deps) + ", () => { "@ + stmt + " });\n"@
    }
}

/// The helpers after an update statement.
pub open spec fn update_used(used: Seq<Seq<char>>, deps: Seq<u32>, coupled: bool) -> Seq<Seq<char>> {
    if deps.len() == 0 && !coupled {
        used
    } else {
        with_helper(used, "bind"@)
    }
}

/// `path` without its first `strip` indices.
pub open spec fn stripped(path: Seq<u32>, strip: nat) -> Seq<u32> {
    if path.len() >= strip {
        path.skip(strip as int)
    } else {
        Seq::empty()
    }
}

/// The runtime helper that creates an anchor at `pos`.
pub open spec fn anchor_helper(pos: InsertPos) -> Seq<char> {
    match pos {
        InsertPos::Before(_) => "anchorBefore"@,
        InsertPos::BeforeSplit { .. } => "anchorBeforeSplit"@,
        InsertPos::Append(_) => "anchorAppend"@,
    }
}

/// `const name = anchorX(node[, offset]);` for a slot at `pos`.
pub open spec fn anchor_text(
    e: Emitter,
    base: Seq<char>,
    strip: nat,
    level: nat,
    name: Seq<char>,
    pos: InsertPos,
) -> Seq<char> {
    let head = indent(level) + "const "@ + name + " = "@ + helper_of(e, anchor_helper(pos)) + "("@;
    match pos {
        InsertPos::Before(path) => head + base + child_nodes(stripped(path@, strip)) + ");\n"@,
        InsertPos::BeforeSplit { path, utf16_offset } => head + base + child_nodes(
            stripped(path@, strip),
        ) + ", "@ + dec(utf16_offset as nat) + ");\n"@,
        InsertPos::Append(path) => head + base + child_nodes(stripped(path@, strip)) + ");\n"@,
    }
}

/// `on(node, "event", () => { body; });`
pub open spec fn listener_text(
    e: Emitter,
    level: nat,
    node: Seq<char>,
    event: Seq<char>,
    body: Seq<char>,
) -> Seq<char> {
    indent(level) + helper_of(e, "on"@) + "("@ + node + ", "@ + js_quoted(event) + ", () => { "@ + body
        + "; });\n"@
}

/// The first reactive variable with bit `index`.
pub open spec fn var_at(vars: Seq<ReactiveVar>, index: u32) -> Option<ReactiveVar>
    decreases vars.len(),
{
    if vars.len() == 0 {
        None
    } else if vars[0].index == index {
        Some(vars[0])
    } else {
        var_at(vars.drop_first(), index)
    }
}

/// Dependency `index` stays unless its variable is shadowed by a loop binding.
pub open spec fn dep_kept(vars: Seq<ReactiveVar>, shadowed: Seq<Seq<char>>, index: u32) -> bool {
    match var_at(vars, index) {
        Some(v) => !shadowed.contains(v.name@),
        None => true,
    }
}

/// `deps` without the indices of shadowed variables, order kept.
pub open spec fn kept_deps(vars: Seq<ReactiveVar>, shadowed: Seq<Seq<char>>, deps: Seq<u32>) -> Seq<u32>
    decreases deps.len(),
{
    if deps.len() == 0 {
        Seq::empty()
    } else {
        let rest = kept_deps(vars, shadowed, deps.drop_last());
        if dep_kept(vars, shadowed, deps.last()) {
            rest.push(deps.last())
        } else {
            rest
        }
    }
}

/// The dependencies of the first part of kind `kind` with expression `expr`,
/// or none.
pub open spec fn part_deps(parts: Seq<SDynamicPart>, kind: SDynamicKind, expr: Seq<char>) -> Seq<u32>
    decreases parts.len(),
{
    if parts.len() == 0 {
        Seq::empty()
    } else if parts[0].kind == kind && parts[0].expr == expr {
        parts[0].deps
    } else {
        part_deps(parts.drop_first(), kind, expr)
    }
}

/// The dependencies of a bound attribute `attr` with `expr`, shadowed ones
/// dropped.
pub open spec fn bound_deps(
    e: Emitter,
    kind: SDynamicKind,
    expr: Seq<char>,
    shadowed: Seq<Seq<char>>,
) -> Seq<u32> {
    kept_deps(e.reactive_vars@, shadowed, part_deps(parts_view(e.dynamics@), kind, expr))
}

/// `(c0) ? 0 : (c1) ? 1 : … `, one arm per condition, numbered from `from`.
pub open spec fn selector_arms(conds: Seq<Seq<char>>, from: nat) -> Seq<char>
    decreases conds.len(),
{
    if conds.len() == 0 {
        Seq::empty()
    } else {
        "("@ + conds[0] + ") ? "@ + dec(from) + " : "@ + selector_arms(conds.drop_first(), from + 1)
    }
}

/// One `() => { … },` entry per branch body, at `level`.
pub open spec fn branch_entries(bodies: Seq<Seq<char>>, level: nat) -> Seq<char>
    decreases bodies.len(),
{
    if bodies.len() == 0 {
        Seq::empty()
    } else {
        branch_entries(bodies.drop_last(), level) + indent(level) + "() => {\n"@ + bodies.last()
            + indent(level) + "},\n"@
    }
}

/// The statement of an `:if` cascade: `ifBlock` for a single branch, else an
/// `ifChain` whose selector picks the first true condition, the `:else`
/// branch (numbered after the conditions) or `-1`.
pub open spec fn if_chain_text(
    e: Emitter,
    level: nat,
    anchor: Seq<char>,
    deps: Seq<u32>,
    conds: Seq<Seq<char>>,
    has_else: bool,
    bodies: Seq<Seq<char>>,
) -> Seq<char> {
    if bodies.len() == 1 {
        indent(level) + helper_of(e, "ifBlock"@) + "(c, "@ + anchor + ", "@ + array_text(deps)
            + ", () => ("@ + conds[0] + "), () => {\n"@ + bodies[0] + indent(level) + "});\n"@
    } else {
        indent(level) + helper_of(e, "ifChain"@) + "(c, "@ + anchor + ", "@ + array_text(deps)
            + ", () => "@ + selector_arms(conds, 0) + (if has_else {
            dec(conds.len())
        } else {
            "-1"@
        }) + ", [\n"@ + branch_entries(bodies, level + 1) + indent(level) + "]);\n"@
    }
}

/// The helper an `:if` cascade of `n` branches uses.
pub open spec fn if_helper(n: nat) -> Seq<char> {
    if n == 1 {
        "ifBlock"@
    } else {
        "ifChain"@
    }
}

/// `why` with every `*/` broken up as `* /`, so it can stand in a comment.
pub open spec fn comment_safe(why: Seq<char>) -> Seq<char>
    decreases why.len(),
{
    if why.len() == 0 {
        Seq::empty()
    } else if why.len() >= 2 && why[0] == '*' && why[1] == '/' {
        "* /"@ + comment_safe(why.skip(2))
    } else {
        seq![why[0]] + comment_safe(why.skip(1))
    }
}

/// The first part of kind `kind` with expression `expr` at `range`.
pub open spec fn first_exact(
    parts: Seq<SDynamicPart>,
    kind: SDynamicKind,
    expr: Seq<char>,
    range: TextRange,
) -> Option<SDynamicPart>
    decreases parts.len(),
{
    if parts.len() == 0 {
        None
    } else if parts[0].kind == kind && parts[0].expr == expr && parts[0].range == range {
        Some(parts[0])
    } else {
        first_exact(parts.drop_first(), kind, expr, range)
    }
}

/// The first part of kind `kind` with expression `expr`, wherever it is.
pub open spec fn first_loose(parts: Seq<SDynamicPart>, kind: SDynamicKind, expr: Seq<char>) -> Option<
    SDynamicPart,
>
    decreases parts.len(),
{
    if parts.len() == 0 {
        None
    } else if parts[0].kind == kind && parts[0].expr == expr {
        Some(parts[0])
    } else {
        first_loose(parts.drop_first(), kind, expr)
    }
}

/// The dependencies of the part of kind `kind` for `expr` at `range`: those
/// of the part at that very range, else of the first part with that kind and
/// expression, else none.
pub open spec fn located_deps(
    parts: Seq<SDynamicPart>,
    kind: SDynamicKind,
    expr: Seq<char>,
    range: TextRange,
) -> Seq<u32> {
    match first_exact(parts, kind, expr, range) {
        Some(p) => p.deps,
        None => match first_loose(parts, kind, expr) {
            Some(p) => p.deps,
            None => Seq::empty(),
        },
    }
}

/// The dependencies of the `:if` condition `expr` at `range`.
pub open spec fn condition_deps(parts: Seq<SDynamicPart>, expr: Seq<char>, range: TextRange) -> Seq<u32> {
    located_deps(parts, SDynamicKind::IfCondition, expr, range)
}

/// Some condition of the cascade depends on variable `x`.
pub open spec fn cascade_reads(parts: Seq<SDynamicPart>, conds: Seq<(Seq<char>, TextRange)>, x: u32) -> bool {
    exists|j: int| 0 <= j < conds.len() && #[trigger] condition_deps(parts, conds[j].0, conds[j].1).contains(x)
}

/// Some list of `lists` holds `x`.
pub open spec fn in_some(lists: Seq<Seq<u32>>, x: u32) -> bool {
    exists|j: int| 0 <= j < lists.len() && #[trigger] lists[j].contains(x)
}

pub open spec fn lists_view(s: Seq<Vec<u32>>) -> Seq<Seq<u32>> {
    s.map_values(|v: Vec<u32>| v@)
}

/// Strictly increasing.
pub open spec fn ascending(s: Seq<u32>) -> bool {
    forall|i: int, j: int| 0 <= i < j < s.len() ==> s[i] < s[j]
}

pub open spec fn conds_view(s: Seq<(String, TextRange)>) -> Seq<(Seq<char>, TextRange)> {
    s.map_values(|c: (String, TextRange)| (c.0@, c.1))
}

impl Emitter {
    /// A fresh emitter for a component with these reactive variables, dynamic
    /// parts and helper aliases.
    pub fn with_parts(
        reactive_vars: Vec<ReactiveVar>,
        dynamics: Vec<DynamicPart>,
        aliases: Vec<(String, String)>,
    ) -> (r: Emitter)
        ensures
            r.reactive_vars == reactive_vars,
            r.dynamics == dynamics,
            r.aliases == aliases,
            r.used@.len() == 0,
            r.hoisted@.len() == 0,
            r.child_imports@.len() == 0,
            r.deep_hint@.len() == 0,
            r.n_ref == 0 && r.n_text == 0 && r.n_anchor == 0 && r.n_root == 0,
            r.n_data == 0 && r.n_html == 0 && r.n_child == 0,
    {
        Emitter {
            reactive_vars,
            dynamics,
            used: Vec::new(),
            aliases,
            hoisted: Vec::new(),
            child_imports: Vec::new(),
            deep_hint: String::new(),
            n_ref: 0,
            n_text: 0,
            n_anchor: 0,
            n_root: 0,
            n_data: 0,
            n_html: 0,
            n_child: 0,
        }
    }

    /// Records that the module references helper `name`.
    pub fn use_helper(&mut self, name: &str)
        ensures
            used_of(*final(self)) == with_helper(used_of(*old(self)), name@),
            *final(self) == (Emitter { used: final(self).used, ..*old(self) }),
    {
        let ghost uv = used_of(*self);
        let mut i: usize = 0;
        while i < self.used.len()
            invariant
                i <= self.used@.len(),
                uv == used_of(*self),
                forall|k: int| 0 <= k < i ==> uv[k] != name@,
            decreases self.used@.len() - i,
        {
            if str_eq(self.used[i].as_str(), name) {
                assert(uv.contains(name@)) by {
                    assert(uv[i as int] == name@);
                }
                return;
            }
            i += 1;
        }
        let s = String::from_str(name);
        self.used.push(s);
        assert(!uv.contains(name@));
        assert(used_of(*self) =~= uv.push(name@));
    }

    /// The local name to reference helper `name` by.
    pub fn helper(&self, name: &str) -> (r: String)
        ensures
            r@ == helper_of(*self, name@),
    {
        helper_name(self.aliases.as_slice(), name)
    }

    /// A fresh element-reference name `e{n}`.
    pub fn alloc_ref(&mut self) -> (r: String)
        requires
            old(self).n_ref < usize::MAX,
        ensures
            r@ == "e"@ + dec(old(self).n_ref as nat),
            *final(self) == (Emitter { n_ref: (old(self).n_ref + 1) as usize, ..*old(self) }),
    {
        let n = self.n_ref;
        self.n_ref = n + 1;
        let mut r = String::from_str("e");
        let t = usize_text(n);
        r.append(t.as_str());
        r
    }

    /// A fresh text-anchor name `t{n}`.
    pub fn alloc_text(&mut self) -> (r: String)
        requires
            old(self).n_text < usize::MAX,
        ensures
            r@ == "t"@ + dec(old(self).n_text as nat),
            *final(self) == (Emitter { n_text: (old(self).n_text + 1) as usize, ..*old(self) }),
    {
        let n = self.n_text;
        self.n_text = n + 1;
        let mut r = String::from_str("t");
        let t = usize_text(n);
        r.append(t.as_str());
        r
    }

    /// A fresh anchor name `a{n}`.
    pub fn alloc_anchor(&mut self) -> (r: String)
        requires
            old(self).n_anchor < usize::MAX,
        ensures
            r@ == "a"@ + dec(old(self).n_anchor as nat),
            *final(self) == (Emitter { n_anchor: (old(self).n_anchor + 1) as usize, ..*old(self) }),
    {
        let n = self.n_anchor;
        self.n_anchor = n + 1;
        let mut r = String::from_str("a");
        let t = usize_text(n);
        r.append(t.as_str());
        r
    }

    /// A fresh fragment-root name `r{n}`.
    pub fn alloc_root(&mut self) -> (r: String)
        requires
            old(self).n_root < usize::MAX,
        ensures
            r@ == "r"@ + dec(old(self).n_root as nat),
            *final(self) == (Emitter { n_root: (old(self).n_root + 1) as usize, ..*old(self) }),
    {
        let n = self.n_root;
        self.n_root = n + 1;
        let mut r = String::from_str("r");
        let t = usize_text(n);
        r.append(t.as_str());
        r
    }

    /// A fresh loop-data name `d{n}`.
    pub fn alloc_data(&mut self) -> (r: String)
        requires
            old(self).n_data < usize::MAX,
        ensures
            r@ == "d"@ + dec(old(self).n_data as nat),
            *final(self) == (Emitter { n_data: (old(self).n_data + 1) as usize, ..*old(self) }),
    {
        let n = self.n_data;
        self.n_data = n + 1;
        let mut r = String::from_str("d");
        let t = usize_text(n);
        r.append(t.as_str());
        r
    }

    /// A fresh child-component handle name `ch{n}`.
    pub fn alloc_child(&mut self) -> (r: String)
        requires
            old(self).n_child < usize::MAX,
        ensures
            r@ == "ch"@ + dec(old(self).n_child as nat),
            *final(self) == (Emitter { n_child: (old(self).n_child + 1) as usize, ..*old(self) }),
    {
        let n = self.n_child;
        self.n_child = n + 1;
        let mut r = String::from_str("ch");
        let t = usize_text(n);
        r.append(t.as_str());
        r
    }

    /// Hoists a static HTML string to module scope under a fresh name
    /// `HTML_{n}` (numbered from 1) and returns that name.
    pub fn hoist_html(&mut self, html: String) -> (r: String)
        requires
            old(self).n_html < usize::MAX,
        ensures
            r@ == "HTML_"@ + dec((old(self).n_html + 1) as nat),
            aliases_view(final(self).hoisted@) == aliases_view(old(self).hoisted@).push((r@, html@)),
            *final(self) == (Emitter {
                n_html: (old(self).n_html + 1) as usize,
                hoisted: final(self).hoisted,
                ..*old(self)
            }),
    {
        self.n_html = self.n_html + 1;
        let mut name = String::from_str("HTML_");
        let t = usize_text(self.n_html);
        name.append(t.as_str());
        let kept = String::from_str(name.as_str());
        let ghost before = self.hoisted@;
        let ghost hv = html@;
        self.hoisted.push((kept, html));
        assert(aliases_view(self.hoisted@) =~= aliases_view(before).push((name@, hv)));
        name
    }
    /// `deps` without the indices of variables shadowed by a loop binding
    /// (see [`kept_deps`]).
    pub fn filter_deps(&self, deps: Vec<u32>, shadowed: &[String]) -> (r: Vec<u32>)
        ensures
            r@ == kept_deps(self.reactive_vars@, string_views(shadowed@), deps@),
    {
        let ghost sh = string_views(shadowed@);
        let ghost vars = self.reactive_vars@;
        if shadowed.len() == 0 {
            proof {
                lemma_nothing_shadowed(vars, sh, deps@);
            }
            return deps;
        }
        let mut out: Vec<u32> = Vec::new();
        let mut i: usize = 0;
        while i < deps.len()
            invariant
                i <= deps@.len(),
                sh == string_views(shadowed@),
                vars == self.reactive_vars@,
                out@ == kept_deps(vars, sh, deps@.take(i as int)),
            decreases deps@.len() - i,
        {
            proof {
                assert(deps@.take(i + 1).drop_last() =~= deps@.take(i as int));
            }
            let d = deps[i];
            if self.dep_is_kept(d, shadowed) {
                out.push(d);
            }
            i += 1;
        }
        assert(deps@.take(deps@.len() as int) =~= deps@);
        out
    }

    fn dep_is_kept(&self, index: u32, shadowed: &[String]) -> (r: bool)
        ensures
            r == dep_kept(self.reactive_vars@, string_views(shadowed@), index),
    {
        let ghost vars = self.reactive_vars@;
        assert(vars.skip(0) =~= vars);
        let mut i: usize = 0;
        while i < self.reactive_vars.len()
            invariant
                i <= vars.len(),
                vars == self.reactive_vars@,
                var_at(vars, index) == var_at(vars.skip(i as int), index),
            decreases vars.len() - i,
        {
            assert(vars.skip(i as int)[0] == vars[i as int]);
            if self.reactive_vars[i].index == index {
                assert(var_at(vars, index) == Some(vars[i as int]));
                return !names_contain(shadowed, self.reactive_vars[i].name.as_str());
            }
            assert(vars.skip(i as int).drop_first() =~= vars.skip(i + 1));
            i += 1;
        }
        true
    }

    /// The dependencies of the first dynamic part whose kind and expression
    /// match (see [`part_deps`]).
    fn deps_of(&self, which: u8, name: &str, expr: &str) -> (r: Vec<u32>)
        requires
            which < 2,
        ensures
            r@ == part_deps(
                parts_view(self.dynamics@),
                if which == 0 {
                    SDynamicKind::Attribute(name@)
                } else {
                    SDynamicKind::TwoWay(name@)
                },
                expr@,
            ),
    {
        let ghost pv = parts_view(self.dynamics@);
        let ghost kind = if which == 0 {
            SDynamicKind::Attribute(name@)
        } else {
            SDynamicKind::TwoWay(name@)
        };
        assert(pv.skip(0) =~= pv);
        let mut i: usize = 0;
        while i < self.dynamics.len()
            invariant
                i <= pv.len(),
                pv == parts_view(self.dynamics@),
                which < 2,
                kind == (if which == 0 {
                    SDynamicKind::Attribute(name@)
                } else {
                    SDynamicKind::TwoWay(name@)
                }),
                part_deps(pv, kind, expr@) == part_deps(pv.skip(i as int), kind, expr@),
            decreases pv.len() - i,
        {
            assert(pv.skip(i as int)[0] == self.dynamics@[i as int]@);
            let p = &self.dynamics[i];
            let kind_matches = match &p.kind {
                DynamicKind::Attribute(n) => {
                    if which == 0 {
                        str_eq(n.as_str(), name)
                    } else {
                        false
                    }
                },
                DynamicKind::TwoWay(n) => {
                    if which == 1 {
                        str_eq(n.as_str(), name)
                    } else {
                        false
                    }
                },
                _ => false,
            };
            assert(kind_matches == (p.kind@ == kind));
            assert(pv[i as int] == p@);
            if kind_matches && str_eq(p.expr.as_str(), expr) {
                return copy_u32s(&p.deps);
            }
            assert(!(pv[i as int].kind == kind && pv[i as int].expr == expr@));
            assert(pv.skip(i as int).drop_first() =~= pv.skip(i + 1));
            i += 1;
        }
        Vec::new()
    }

    /// The dependencies recorded for bound attribute `attr` with `expr`.
    pub fn bound_attr_deps(&self, attr: &str, expr: &str) -> (r: Vec<u32>)
        ensures
            r@ == part_deps(parts_view(self.dynamics@), SDynamicKind::Attribute(attr@), expr@),
    {
        self.deps_of(0, attr, expr)
    }

    /// The dependencies recorded for two-way binding `attr` with `lvalue`.
    pub fn two_way_deps(&self, attr: &str, lvalue: &str) -> (r: Vec<u32>)
        ensures
            r@ == part_deps(parts_view(self.dynamics@), SDynamicKind::TwoWay(attr@), lvalue@),
    {
        self.deps_of(1, attr, lvalue)
    }

    /// Writes `stmt` as its dependencies demand (see [`update_text`]).
    pub fn emit_update(
        &mut self,
        b: &mut String,
        frag: &Frag,
        deps: &[u32],
        item_coupled: bool,
        stmt: &str,
    )
        ensures
            final(b)@ == old(b)@ + update_text(*old(self), frag.indent as nat, deps@, item_coupled, stmt@),
            used_of(*final(self)) == update_used(used_of(*old(self)), deps@, item_coupled),
            *final(self) == (Emitter { used: final(self).used, ..*old(self) }),
    {
        push_indent(b, frag.indent);
        if deps.len() == 0 && !item_coupled {
            b.append(stmt);
            b.append("\n");
        } else {
            self.use_helper("bind");
            let h = self.helper("bind");
            b.append(h.as_str());
            b.append("(c, ");
            push_dep_list(b, deps);
            b.append(", () => { ");
            b.append(stmt);
            b.append(" });\n");
        }
    }

    /// Writes the anchor-creation statement `const name = …;` for a slot at
    /// `pos` (see [`anchor_text`]).
    pub fn emit_anchor(&mut self, b: &mut String, name: &str, pos: &InsertPos, frag: &Frag)
        ensures
            final(b)@ == old(b)@ + anchor_text(
                *old(self),
                frag.base@,
                frag.strip as nat,
                frag.indent as nat,
                name@,
                *pos,
            ),
            used_of(*final(self)) == with_helper(used_of(*old(self)), anchor_helper(*pos)),
            *final(self) == (Emitter { used: final(self).used, ..*old(self) }),
    {
        push_indent(b, frag.indent);
        let which: &str = match pos {
            InsertPos::Before(_) => "anchorBefore",
            InsertPos::BeforeSplit { .. } => "anchorBeforeSplit",
            InsertPos::Append(_) => "anchorAppend",
        };
        self.use_helper(which);
        let h = self.helper(which);
        b.append("const ");
        b.append(name);
        b.append(" = ");
        b.append(h.as_str());
        b.append("(");
        match pos {
            InsertPos::Before(path) => {
                push_node_at(b, frag.base, strip_path(path.as_slice(), frag.strip));
                b.append(");\n");
            },
            InsertPos::BeforeSplit { path, utf16_offset } => {
                push_node_at(b, frag.base, strip_path(path.as_slice(), frag.strip));
                b.append(", ");
                let t = u32_text(*utf16_offset);
                b.append(t.as_str());
                b.append(");\n");
            },
            InsertPos::Append(path) => {
                push_node_at(b, frag.base, strip_path(path.as_slice(), frag.strip));
                b.append(");\n");
            },
        }
    }

    /// Writes an event listener whose body is the reactively rewritten
    /// `handler` (see [`listener_text`]).
    pub fn emit_event(&mut self, b: &mut String, node: &str, event: &str, handler: &str, frag: &Frag)
        requires
            vstd::utf8::encode_utf8(handler@).len() <= u32::MAX,
        ensures
            final(b)@ == old(b)@ + listener_text(
                *old(self),
                frag.indent as nat,
                node@,
                event@,
                rewritten(handler@, old(self).reactive_vars@, string_views(frag.shadowed@)),
            ),
            used_of(*final(self)) == with_helper(used_of(*old(self)), "on"@),
            *final(self) == (Emitter { used: final(self).used, ..*old(self) }),
    {
        self.use_helper("on");
        let shadowed = vec_of(frag.shadowed);
        let body = rewrite_expr(handler, self.reactive_vars.as_slice(), &shadowed);
        push_indent(b, frag.indent);
        let h = self.helper("on");
        b.append(h.as_str());
        b.append("(");
        b.append(node);
        b.append(", ");
        push_js_string(b, event);
        b.append(", () => { ");
        b.append(body.as_str());
        b.append("; });\n");
    }

    /// Writes a bound attribute `:attr="expr"`: the attribute assignment of
    /// the rewritten expression, as its dependencies demand.
    pub fn emit_bound_attr(&mut self, b: &mut String, node: &str, attr: &str, expr: &str, frag: &Frag)
        requires
            vstd::utf8::encode_utf8(expr@).len() <= u32::MAX,
        ensures
            ({
                let sh = string_views(frag.shadowed@);
                let deps = bound_deps(*old(self), SDynamicKind::Attribute(attr@), expr@, sh);
                let coupled = reads(expr@, sh);
                &&& final(b)@ == old(b)@ + update_text(
                    *old(self),
                    frag.indent as nat,
                    deps,
                    coupled,
                    set_statement(node@, attr@, rewritten(expr@, old(self).reactive_vars@, sh)),
                )
                &&& used_of(*final(self)) == update_used(used_of(*old(self)), deps, coupled)
            }),
            *final(self) == (Emitter { used: final(self).used, ..*old(self) }),
    {
        let raw = self.bound_attr_deps(attr, expr);
        let deps = self.filter_deps(raw, frag.shadowed);
        let shadowed = vec_of(frag.shadowed);
        let value = rewrite_expr(expr, self.reactive_vars.as_slice(), &shadowed);
        let set = attr_set_statement(node, attr, value.as_str());
        let coupled = reads_any(expr, frag.shadowed);
        self.emit_update(b, frag, deps.as_slice(), coupled, set.as_str());
    }

    /// Writes `:html="expr"`: the raw `innerHTML` assignment of the rewritten
    /// expression, as its dependencies demand.
    pub fn emit_html_bind(&mut self, b: &mut String, node: &str, expr: &str, frag: &Frag)
        requires
            vstd::utf8::encode_utf8(expr@).len() <= u32::MAX,
        ensures
            ({
                let sh = string_views(frag.shadowed@);
                let deps = bound_deps(*old(self), SDynamicKind::Attribute("html"@), expr@, sh);
                let coupled = reads(expr@, sh);
                &&& final(b)@ == old(b)@ + update_text(
                    *old(self),
                    frag.indent as nat,
                    deps,
                    coupled,
                    node@ + ".innerHTML = "@ + rewritten(expr@, old(self).reactive_vars@, sh) + ";"@,
                )
                &&& used_of(*final(self)) == update_used(used_of(*old(self)), deps, coupled)
            }),
            *final(self) == (Emitter { used: final(self).used, ..*old(self) }),
    {
        let raw = self.bound_attr_deps("html", expr);
        let deps = self.filter_deps(raw, frag.shadowed);
        let shadowed = vec_of(frag.shadowed);
        let value = rewrite_expr(expr, self.reactive_vars.as_slice(), &shadowed);
        let mut set = String::from_str(node);
        set.append(".innerHTML = ");
        set.append(value.as_str());
        set.append(";");
        let coupled = reads_any(expr, frag.shadowed);
        self.emit_update(b, frag, deps.as_slice(), coupled, set.as_str());
    }

    /// Writes `:class="expr"` or `:style="expr"` (`which` names the
    /// attribute): the dynamic value merged with the static literal by the
    /// `setClass` / `setStyle` helper, as its dependencies demand.
    pub fn emit_class_style(
        &mut self,
        b: &mut String,
        node: &str,
        which: &str,
        expr: &str,
        static_lit: &str,
        frag: &Frag,
    )
        requires
            vstd::utf8::encode_utf8(expr@).len() <= u32::MAX,
        ensures
            ({
                let sh = string_views(frag.shadowed@);
                let deps = bound_deps(*old(self), SDynamicKind::Attribute(which@), expr@, sh);
                let coupled = reads(expr@, sh);
                let h = if which@ == "class"@ {
                    "setClass"@
                } else {
                    "setStyle"@
                };
                &&& final(b)@ == old(b)@ + update_text(
                    *old(self),
                    frag.indent as nat,
                    deps,
                    coupled,
                    helper_of(*old(self), h) + "("@ + node@ + ", "@ + js_quoted(static_lit@) + ", "@
                        + rewritten(expr@, old(self).reactive_vars@, sh) + ");"@,
                )
                &&& used_of(*final(self)) == update_used(
                    with_helper(used_of(*old(self)), h),
                    deps,
                    coupled,
                )
            }),
            *final(self) == (Emitter { used: final(self).used, ..*old(self) }),
    {
        let raw = self.bound_attr_deps(which, expr);
        let deps = self.filter_deps(raw, frag.shadowed);
        let shadowed = vec_of(frag.shadowed);
        let value = rewrite_expr(expr, self.reactive_vars.as_slice(), &shadowed);
        let h: &str = if str_eq(which, "class") {
            "setClass"
        } else {
            "setStyle"
        };
        self.use_helper(h);
        let fn_name = self.helper(h);
        let mut set = String::from_str(fn_name.as_str());
        set.append("(");
        set.append(node);
        set.append(", ");
        let lit = js_string(static_lit);
        set.append(lit.as_str());
        set.append(", ");
        set.append(value.as_str());
        set.append(");");
        let coupled = reads_any(expr, frag.shadowed);
        self.emit_update(b, frag, deps.as_slice(), coupled, set.as_str());
    }

    /// Writes the statement of an `:if` cascade (see [`if_chain_text`]).
    /// `conds` are the branch conditions, already rewritten, `deps` the
    /// dependencies that drive the cascade, and `bodies` the emitted body of
    /// each branch's `make` closure.
    pub fn emit_if_chain(
        &mut self,
        b: &mut String,
        anchor: &str,
        deps: &[u32],
        conds: &[String],
        has_else: bool,
        bodies: &[String],
        frag: &Frag,
    )
        requires
            bodies@.len() >= 1,
            bodies@.len() == 1 ==> conds@.len() >= 1,
            frag.indent < usize::MAX,
        ensures
            final(b)@ == old(b)@ + if_chain_text(
                *old(self),
                frag.indent as nat,
                anchor@,
                deps@,
                string_views(conds@),
                has_else,
                string_views(bodies@),
            ),
            used_of(*final(self)) == with_helper(used_of(*old(self)), if_helper(bodies@.len())),
            *final(self) == (Emitter { used: final(self).used, ..*old(self) }),
    {
        if bodies.len() == 1 {
            self.emit_if_block(b, anchor, deps, conds[0].as_str(), bodies[0].as_str(), frag.indent);
        } else {
            self.emit_if_cascade(b, anchor, deps, conds, has_else, bodies, frag.indent);
        }
    }

    fn emit_if_block(
        &mut self,
        b: &mut String,
        anchor: &str,
        deps: &[u32],
        cond: &str,
        body: &str,
        level: usize,
    )
        ensures
            final(b)@ == old(b)@ + (indent(level as nat) + helper_of(*old(self), "ifBlock"@) + "(c, "@
                + anchor@ + ", "@ + array_text(deps@) + ", () => ("@ + cond@ + "), () => {\n"@ + body@
                + indent(level as nat) + "});\n"@),
            used_of(*final(self)) == with_helper(used_of(*old(self)), "ifBlock"@),
            *final(self) == (Emitter { used: final(self).used, ..*old(self) }),
    {
        self.use_helper("ifBlock");
        push_indent(b, level);
        let h = self.helper("ifBlock");
        b.append(h.as_str());
        b.append("(c, ");
        b.append(anchor);
        b.append(", ");
        push_dep_list(b, deps);
        b.append(", () => (");
        b.append(cond);
        b.append("), () => {\n");
        b.append(body);
        push_indent(b, level);
        b.append("});\n");
    }

    #[verifier::rlimit(30)]
    fn emit_if_cascade(
        &mut self,
        b: &mut String,
        anchor: &str,
        deps: &[u32],
        conds: &[String],
        has_else: bool,
        bodies: &[String],
        level: usize,
    )
        requires
            level < usize::MAX,
        ensures
            final(b)@ == old(b)@ + (indent(level as nat) + helper_of(*old(self), "ifChain"@) + "(c, "@
                + anchor@ + ", "@ + array_text(deps@) + ", () => "@ + selector_arms(
                string_views(conds@),
                0,
            ) + (if has_else {
                dec(conds@.len())
            } else {
                "-1"@
            }) + ", [\n"@ + branch_entries(string_views(bodies@), (level + 1) as nat) + indent(
                level as nat,
            ) + "]);\n"@),
            used_of(*final(self)) == with_helper(used_of(*old(self)), "ifChain"@),
            *final(self) == (Emitter { used: final(self).used, ..*old(self) }),
    {
        self.use_helper("ifChain");
        let h = self.helper("ifChain");
        let ghost b0 = b@;
        push_indent(b, level);
        b.append(h.as_str());
        b.append("(c, ");
        b.append(anchor);
        b.append(", ");
        push_dep_list(b, deps);
        b.append(", () => ");
        let ghost b1 = b@;
        push_selector(b, conds);
        let ghost b2 = b@;
        if has_else {
            let t = usize_text(conds.len());
            b.append(t.as_str());
        } else {
            b.append("-1");
        }
        b.append(", [\n");
        let ghost b3 = b@;
        push_branch_entries(b, bodies, level + 1);
        let ghost b4 = b@;
        push_indent(b, level);
        b.append("]);\n");
    }

    /// The dependencies that drive an `:if` cascade: every variable some
    /// condition reads (conditions given by text and range), once each, in
    /// increasing order, without those shadowed by a loop binding.
    pub fn cascade_deps(&self, conds: &[(String, TextRange)], shadowed: &[String]) -> (r: Vec<u32>)
        ensures
            ascending(r@),
            forall|x: u32|
                r@.contains(x) <==> cascade_reads(parts_view(self.dynamics@), conds_view(conds@), x)
                    && dep_kept(self.reactive_vars@, string_views(shadowed@), x),
    {
        let ghost pv = parts_view(self.dynamics@);
        let ghost cv = conds_view(conds@);
        let mut lists: Vec<Vec<u32>> = Vec::new();
        let mut j: usize = 0;
        while j < conds.len()
            invariant
                j <= conds@.len(),
                pv == parts_view(self.dynamics@),
                cv == conds_view(conds@),
                lists@.len() == j,
                forall|k: int| 0 <= k < j ==> #[trigger] lists@[k]@ == condition_deps(pv, cv[k].0, cv[k].1),
            decreases conds@.len() - j,
        {
            let found = self.condition_deps_of(conds[j].0.as_str(), conds[j].1);
            assert(cv[j as int] == (conds@[j as int].0@, conds@[j as int].1));
            lists.push(found);
            j += 1;
        }
        let r = self.sorted_union(&lists, shadowed);
        proof {
            let lv = lists_view(lists@);
            assert forall|x: u32| in_some(lv, x) <==> cascade_reads(pv, cv, x) by {
                if in_some(lv, x) {
                    let k = choose|k: int| 0 <= k < lv.len() && #[trigger] lv[k].contains(x);
                    assert(lists@[k]@ == condition_deps(pv, cv[k].0, cv[k].1));
                    assert(condition_deps(pv, cv[k].0, cv[k].1).contains(x));
                }
                if cascade_reads(pv, cv, x) {
                    let k = choose|k: int|
                        0 <= k < cv.len() && #[trigger] condition_deps(pv, cv[k].0, cv[k].1).contains(x);
                    assert(lists@[k]@ == condition_deps(pv, cv[k].0, cv[k].1));
                    assert(lv[k].contains(x));
                }
            }
        }
        r
    }

    /// Every index in some list of `lists`, once each, in increasing order,
    /// without those of variables shadowed by a loop binding.
    pub fn sorted_union(&self, lists: &Vec<Vec<u32>>, shadowed: &[String]) -> (r: Vec<u32>)
        ensures
            ascending(r@),
            forall|x: u32|
                r@.contains(x) <==> in_some(lists_view(lists@), x)
                    && dep_kept(self.reactive_vars@, string_views(shadowed@), x),
    {
        let ghost lv = lists_view(lists@);
        let mut all: Vec<u32> = Vec::new();
        let mut j: usize = 0;
        while j < lists.len()
            invariant
                j <= lists@.len(),
                lv == lists_view(lists@),
                ascending(all@),
                forall|x: u32|
                    all@.contains(x) <==> exists|k: int| 0 <= k < j && #[trigger] lv[k].contains(x),
            decreases lists@.len() - j,
        {
            let found = &lists[j];
            assert(lv[j as int] == found@);
            let ghost before = all@;
            let mut k: usize = 0;
            while k < found.len()
                invariant
                    k <= found@.len(),
                    ascending(all@),
                    j < lists@.len(),
                    lv == lists_view(lists@),
                    found@ == lv[j as int],
                    forall|x: u32|
                        before.contains(x) <==> exists|m: int| 0 <= m < j && #[trigger] lv[m].contains(x),
                    union_of(all@, before, found@.take(k as int)),
                decreases found@.len() - k,
            {
                let ghost prev = all@;
                insert_sorted(&mut all, found[k]);
                proof {
                    assert(found@.take(k + 1) =~= found@.take(k as int).push(found@[k as int]));
                    lemma_push_contains(found@.take(k as int), found@[k as int]);
                    assert forall|x: u32|
                        #[trigger] all@.contains(x) <==> (before.contains(x) || found@.take(k + 1).contains(x)) by {
                        assert(all@.contains(x) <==> (prev.contains(x) || x == found@[k as int]));
                        assert(prev.contains(x) <==> (before.contains(x) || found@.take(k as int).contains(x)));
                        assert(found@.take(k + 1).contains(x) <==> (found@.take(k as int).contains(x) || x
                            == found@[k as int]));
                    }
                    assert(union_of(all@, before, found@.take(k + 1)));
                }
                k += 1;
            }
            proof {
                assert(found@.take(found@.len() as int) =~= found@);
                assert forall|x: u32|
                    all@.contains(x) <==> exists|k: int| 0 <= k < j + 1 && #[trigger] lv[k].contains(x) by {
                    if all@.contains(x) {
                        if before.contains(x) {
                            let k = choose|k: int| 0 <= k < j && #[trigger] lv[k].contains(x);
                            assert(lv[k].contains(x));
                        } else {
                            assert(found@.contains(x));
                            assert(lv[j as int].contains(x));
                        }
                    }
                    if exists|k: int| 0 <= k < j + 1 && #[trigger] lv[k].contains(x) {
                        let k = choose|k: int| 0 <= k < j + 1 && #[trigger] lv[k].contains(x);
                        if k < j {
                            assert(before.contains(x));
                        } else {
                            assert(found@.contains(x));
                        }
                    }
                }
            }
            j += 1;
        }
        let ghost sh = string_views(shadowed@);
        let ghost vars = self.reactive_vars@;
        let mut out: Vec<u32> = Vec::new();
        let mut i: usize = 0;
        while i < all.len()
            invariant
                i <= all@.len(),
                ascending(all@),
                sh == string_views(shadowed@),
                vars == self.reactive_vars@,
                ascending(out@),
                forall|k: int, m: int|
                    0 <= k < out@.len() && i <= m < all@.len() ==> #[trigger] out@[k] < #[trigger] all@[m],
                forall|x: u32|
                    out@.contains(x) <==> (all@.take(i as int).contains(x) && dep_kept(vars, sh, x)),
            decreases all@.len() - i,
        {
            let d = all[i];
            let keep = self.dep_is_kept(d, shadowed);
            let ghost before = out@;
            if keep {
                out.push(d);
                proof {
                    assert forall|a: int, c: int| 0 <= a < c < out@.len() implies out@[a] < out@[c] by {
                        if c == out@.len() - 1 {
                            assert(before[a] < all@[i as int]);
                        }
                    }
                }
            }
            proof {
                assert(all@.take(i + 1) =~= all@.take(i as int).push(d));
                lemma_push_contains(all@.take(i as int), d);
                lemma_push_contains(before, d);
            }
            i += 1;
        }
        assert(all@.take(all@.len() as int) =~= all@);
        out
    }


    /// The dependencies of one `:if` condition (see [`condition_deps`]).
    fn condition_deps_of(&self, expr: &str, range: TextRange) -> (r: Vec<u32>)
        ensures
            r@ == condition_deps(parts_view(self.dynamics@), expr@, range),
    {
        self.located_deps_of(&DynamicKind::IfCondition, expr, range)
    }

    /// The dependencies of the part of kind `kind` for `expr` at `range` (see
    /// [`located_deps`]).
    pub fn located_deps_of(&self, kind: &DynamicKind, expr: &str, range: TextRange) -> (r: Vec<u32>)
        ensures
            r@ == located_deps(parts_view(self.dynamics@), kind@, expr@, range),
    {
        let ghost pv = parts_view(self.dynamics@);
        assert(pv.skip(0) =~= pv);
        let mut i: usize = 0;
        while i < self.dynamics.len()
            invariant
                i <= pv.len(),
                pv == parts_view(self.dynamics@),
                first_exact(pv, kind@, expr@, range) == first_exact(pv.skip(i as int), kind@, expr@, range),
            decreases pv.len() - i,
        {
            assert(pv.skip(i as int)[0] == self.dynamics@[i as int]@);
            let p = &self.dynamics[i];
            if same_kind(&p.kind, kind) && str_eq(p.expr.as_str(), expr) && p.range.start.raw
                == range.start.raw && p.range.end.raw == range.end.raw {
                return copy_u32s(&p.deps);
            }
            assert(pv.skip(i as int).drop_first() =~= pv.skip(i + 1));
            i += 1;
        }
        let mut i: usize = 0;
        while i < self.dynamics.len()
            invariant
                i <= pv.len(),
                pv == parts_view(self.dynamics@),
                first_exact(pv, kind@, expr@, range) is None,
                first_loose(pv, kind@, expr@) == first_loose(pv.skip(i as int), kind@, expr@),
            decreases pv.len() - i,
        {
            assert(pv.skip(i as int)[0] == self.dynamics@[i as int]@);
            let p = &self.dynamics[i];
            if same_kind(&p.kind, kind) && str_eq(p.expr.as_str(), expr) {
                return copy_u32s(&p.deps);
            }
            assert(pv.skip(i as int).drop_first() =~= pv.skip(i + 1));
            i += 1;
        }
        Vec::new()
    }

    /// Writes the comment that stands for a block that is skipped, and warns
    /// with `why` at `range`.
    pub fn void_block(
        &mut self,
        b: &mut String,
        frag: &Frag,
        range: TextRange,
        why: &str,
        diags: &mut Vec<Diagnostic>,
    )
        ensures
            final(b)@ == old(b)@ + indent(frag.indent as nat) + "/* lunas: block skipped \u{2014} "@
                + comment_safe(why@) + " */\n"@,
            diags_abs(final(diags)@) == diags_abs(old(diags)@).push(
                SDiag { severity: Severity::Warning, range, message: why@ },
            ),
            *final(self) == *old(self),
    {
        push_indent(b, frag.indent);
        b.append("/* lunas: block skipped \u{2014} ");
        let safe = defuse_comment(why);
        b.append(safe.as_str());
        b.append(" */\n");
        let d = Diagnostic::warning(range, String::from_str(why));
        let ghost before = diags@;
        diags.push(d);
        assert(diags_abs(diags@) =~= diags_abs(before).push(diag_abs(d)));
    }

    /// Writes a two-way binding `::attr="lvalue"`: the read side as a bound
    /// attribute, then a listener writing the element state back into the
    /// lvalue.
    pub fn emit_two_way(&mut self, b: &mut String, node: &str, attr: &str, lvalue: &str, frag: &Frag)
        requires
            vstd::utf8::encode_utf8(lvalue@).len() <= u32::MAX,
        ensures
            ({
                let sh = string_views(frag.shadowed@);
                let deps = bound_deps(*old(self), SDynamicKind::TwoWay(attr@), lvalue@, sh);
                let coupled = reads(lvalue@, sh);
                let value = rewritten(lvalue@, old(self).reactive_vars@, sh);
                let (event, read) = two_way_read_of(node@, attr@);
                &&& final(b)@ == old(b)@ + update_text(
                    *old(self),
                    frag.indent as nat,
                    deps,
                    coupled,
                    set_statement(node@, attr@, value),
                ) + listener_text(*old(self), frag.indent as nat, node@, event, value + " = "@ + read)
                &&& used_of(*final(self)) == with_helper(
                    update_used(used_of(*old(self)), deps, coupled),
                    "on"@,
                )
            }),
            *final(self) == (Emitter { used: final(self).used, ..*old(self) }),
    {
        let raw = self.two_way_deps(attr, lvalue);
        let deps = self.filter_deps(raw, frag.shadowed);
        let shadowed = vec_of(frag.shadowed);
        let value = rewrite_expr(lvalue, self.reactive_vars.as_slice(), &shadowed);
        let set = attr_set_statement(node, attr, value.as_str());
        let coupled = reads_any(lvalue, frag.shadowed);
        let ghost b0 = b@;
        self.emit_update(b, frag, deps.as_slice(), coupled, set.as_str());
        let ghost b1 = b@;
        let (event, read) = two_way_read(node, attr);
        self.use_helper("on");
        push_indent(b, frag.indent);
        let h = self.helper("on");
        b.append(h.as_str());
        b.append("(");
        b.append(node);
        b.append(", ");
        push_js_string(b, event);
        b.append(", () => { ");
        b.append(value.as_str());
        b.append(" = ");
        b.append(read.as_str());
        b.append("; });\n");
        proof {
            assert(b@ =~= b1 + listener_text(
                *old(self),
                frag.indent as nat,
                node@,
                event@,
                value@ + " = "@ + read@,
            ));
        }
    }
}

/// Referencing a helper a second time changes nothing: each helper is
/// imported once however often the module uses it.
pub proof fn law_helper_once(used: Seq<Seq<char>>, name: Seq<char>)
    ensures
        with_helper(with_helper(used, name), name) == with_helper(used, name),
        with_helper(used, name).contains(name),
        forall|h: Seq<char>| used.contains(h) ==> with_helper(used, name).contains(h),
{
    if !used.contains(name) {
        assert(used.push(name)[used.len() as int] == name);
        assert forall|h: Seq<char>| used.contains(h) implies used.push(name).contains(h) by {
            let k = choose|k: int| 0 <= k < used.len() && used[k] == h;
            assert(used.push(name)[k] == h);
        }
    }
}

/// With nothing shadowed every dependency stays, in order.
pub proof fn law_nothing_shadowed_keeps_deps(vars: Seq<ReactiveVar>, deps: Seq<u32>)
    ensures
        kept_deps(vars, Seq::empty(), deps) == deps,
{
    lemma_nothing_shadowed(vars, Seq::empty(), deps);
}

/// With nothing shadowed every dependency stays.
proof fn lemma_nothing_shadowed(vars: Seq<ReactiveVar>, sh: Seq<Seq<char>>, deps: Seq<u32>)
    requires
        sh.len() == 0,
    ensures
        kept_deps(vars, sh, deps) == deps,
    decreases deps.len(),
{
    if deps.len() > 0 {
        lemma_nothing_shadowed(vars, sh, deps.drop_last());
        assert(deps.drop_last().push(deps.last()) =~= deps);
    }
}

/// Appends the selector arms of `conds` (see [`selector_arms`]).
fn push_selector(b: &mut String, conds: &[String])
    ensures
        final(b)@ == old(b)@ + selector_arms(string_views(conds@), 0),
{
    let ghost cv = string_views(conds@);
    let ghost start = b@;
    assert(cv.skip(0) =~= cv);
    let mut i: usize = 0;
    while i < conds.len()
        invariant
            i <= conds@.len(),
            cv == string_views(conds@),
            b@ + selector_arms(cv.skip(i as int), i as nat) == start + selector_arms(cv, 0),
        decreases conds@.len() - i,
    {
        proof {
            assert(cv.skip(i as int)[0] == conds@[i as int]@);
            assert(cv.skip(i as int).drop_first() =~= cv.skip(i + 1));
        }
        let ghost before = b@;
        b.append("(");
        b.append(conds[i].as_str());
        b.append(") ? ");
        let t = usize_text(i);
        b.append(t.as_str());
        b.append(" : ");
        assert(b@ =~= before + ("("@ + conds@[i as int]@ + ") ? "@ + dec(i as nat) + " : "@));
        i += 1;
    }
    assert(cv.skip(i as int).len() == 0);
}

/// Appends one `() => { body },` entry per body at `level` (see
/// [`branch_entries`]).
fn push_branch_entries(b: &mut String, bodies: &[String], level: usize)
    ensures
        final(b)@ == old(b)@ + branch_entries(string_views(bodies@), level as nat),
{
    let ghost bv = string_views(bodies@);
    let ghost mid = b@;
    let mut k: usize = 0;
    while k < bodies.len()
        invariant
            k <= bodies@.len(),
            bv == string_views(bodies@),
            b@ == mid + branch_entries(bv.take(k as int), level as nat),
        decreases bodies@.len() - k,
    {
        proof {
            assert(bv.take(k + 1).drop_last() =~= bv.take(k as int));
            assert(bv.take(k + 1).last() == bodies@[k as int]@);
        }
        push_indent(b, level);
        b.append("() => {\n");
        b.append(bodies[k].as_str());
        push_indent(b, level);
        b.append("},\n");
        k += 1;
    }
    assert(bv.take(bv.len() as int) =~= bv);
}

/// `why` with every `*/` broken up (see [`comment_safe`]).
fn defuse_comment(why: &str) -> (r: String)
    ensures
        r@ == comment_safe(why@),
{
    let cs = chars_of(why);
    let ghost w = why@;
    let mut r = String::new();
    assert(w.skip(0) =~= w);
    let mut i: usize = 0;
    while i < cs.len()
        invariant
            i <= cs@.len(),
            cs@ == w,
            r@ + comment_safe(w.skip(i as int)) == comment_safe(w),
        decreases cs@.len() - i,
    {
        proof {
            if i == 0 {
                assert(w.skip(0) =~= w);
            }
        }
        let ghost rest = w.skip(i as int);
        if i + 1 < cs.len() && cs[i] == '*' && cs[i + 1] == '/' {
            r.append("* /");
            proof {
                assert(rest.skip(2) =~= w.skip(i + 2));
            }
            i += 2;
        } else {
            push_char(&mut r, cs[i]);
            proof {
                assert(rest.skip(1) =~= w.skip(i + 1));
            }
            i += 1;
        }
    }
    assert(w.skip(i as int).len() == 0);
    r
}

/// `a` holds exactly what `b` or `c` holds.
pub open spec fn union_of(a: Seq<u32>, b: Seq<u32>, c: Seq<u32>) -> bool {
    forall|x: u32| #[trigger] a.contains(x) <==> (b.contains(x) || c.contains(x))
}

proof fn lemma_push_contains(s: Seq<u32>, a: u32)
    ensures
        forall|x: u32| #[trigger] s.push(a).contains(x) <==> (s.contains(x) || x == a),
{
    assert forall|x: u32| #[trigger] s.push(a).contains(x) <==> (s.contains(x) || x == a) by {
        if s.push(a).contains(x) {
            let k = choose|k: int| 0 <= k < s.push(a).len() && s.push(a)[k] == x;
            if k < s.len() {
                assert(s[k] == x);
            }
        }
        if s.contains(x) {
            let k = choose|k: int| 0 <= k < s.len() && s[k] == x;
            assert(s.push(a)[k] == x);
        }
        if x == a {
            assert(s.push(a)[s.len() as int] == a);
        }
    }
}

proof fn lemma_insert_contains(s: Seq<u32>, p: int, x: u32)
    requires
        0 <= p <= s.len(),
    ensures
        forall|y: u32| #[trigger] s.insert(p, x).contains(y) <==> (s.contains(y) || y == x),
{
    let t = s.insert(p, x);
    assert forall|y: u32| #[trigger] t.contains(y) <==> (s.contains(y) || y == x) by {
        if t.contains(y) {
            let k = choose|k: int| 0 <= k < t.len() && t[k] == y;
            if k < p {
                assert(s[k] == y);
            } else if k > p {
                assert(s[k - 1] == y);
            }
        }
        if s.contains(y) {
            let k = choose|k: int| 0 <= k < s.len() && s[k] == y;
            if k < p {
                assert(t[k] == y);
            } else {
                assert(t[k + 1] == y);
            }
        }
        if y == x {
            assert(t[p] == x);
        }
    }
}

/// Adds `x` to the ascending `v` unless it is there already.
fn insert_sorted(v: &mut Vec<u32>, x: u32)
    requires
        ascending(old(v)@),
    ensures
        ascending(final(v)@),
        forall|y: u32| final(v)@.contains(y) <==> (old(v)@.contains(y) || y == x),
{
    let mut p: usize = 0;
    while p < v.len() && v[p] < x
        invariant
            p <= v@.len(),
            v@ == old(v)@,
            forall|k: int| 0 <= k < p ==> v@[k] < x,
        decreases v@.len() - p,
    {
        p += 1;
    }
    if p < v.len() && v[p] == x {
        proof {
            assert(v@[p as int] == x);
        }
        return;
    }
    let ghost old_v = v@;
    v.insert(p, x);
    proof {
        assert(v@ == old_v.insert(p as int, x));
        assert forall|a: int, c: int| 0 <= a < c < v@.len() implies v@[a] < v@[c] by {
            if a < p && c > p {
                assert(v@[c] == old_v[c - 1]);
                assert(old_v[c - 1] >= x);
            }
            if a == p as int && c > p {
                assert(v@[c] == old_v[c - 1]);
            }
        }
        assert(old_v == old(v)@);
        lemma_insert_contains(old_v, p as int, x);
    }
}

/// Whether two dynamic kinds are the same.
pub(crate) fn same_kind(a: &DynamicKind, b: &DynamicKind) -> (r: bool)
    ensures
        r == (a@ == b@),
{
    match (a, b) {
        (DynamicKind::Text, DynamicKind::Text) => true,
        (DynamicKind::AttributeText(x), DynamicKind::AttributeText(y)) => str_eq(x.as_str(), y.as_str()),
        (DynamicKind::Attribute(x), DynamicKind::Attribute(y)) => str_eq(x.as_str(), y.as_str()),
        (DynamicKind::TwoWay(x), DynamicKind::TwoWay(y)) => str_eq(x.as_str(), y.as_str()),
        (DynamicKind::IfCondition, DynamicKind::IfCondition) => true,
        (DynamicKind::ForIterable, DynamicKind::ForIterable) => true,
        _ => false,
    }
}

/// A copy of `v`.
fn copy_u32s(v: &Vec<u32>) -> (r: Vec<u32>)
    ensures
        r@ == v@,
{
    let mut r: Vec<u32> = Vec::new();
    let mut i: usize = 0;
    while i < v.len()
        invariant
            i <= v@.len(),
            r@ == v@.take(i as int),
        decreases v@.len() - i,
    {
        r.push(v[i]);
        assert(r@ =~= v@.take(i + 1));
        i += 1;
    }
    assert(v@.take(v@.len() as int) =~= v@);
    r
}

/// Whether `names` holds `s`.
pub(crate) fn names_contain(names: &[String], s: &str) -> (r: bool)
    ensures
        r == string_views(names@).contains(s@),
{
    let mut k: usize = 0;
    while k < names.len()
        invariant
            k <= names@.len(),
            forall|j: int| 0 <= j < k ==> names@[j]@ != s@,
        decreases names@.len() - k,
    {
        if str_eq(names[k].as_str(), s) {
            assert(string_views(names@)[k as int] == s@);
            return true;
        }
        k += 1;
    }
    assert(!string_views(names@).contains(s@)) by {
        if string_views(names@).contains(s@) {
            let j = choose|j: int| 0 <= j < names@.len() && string_views(names@)[j] == s@;
            assert(names@[j]@ == s@);
        }
    }
    false
}

/// The names as an owned vector.
pub(crate) fn vec_of(names: &[String]) -> (r: Vec<String>)
    ensures
        string_views(r@) == string_views(names@),
{
    let mut r: Vec<String> = Vec::new();
    let mut i: usize = 0;
    while i < names.len()
        invariant
            i <= names@.len(),
            string_views(r@) == string_views(names@.take(i as int)),
        decreases names@.len() - i,
    {
        let s = String::from_str(names[i].as_str());
        let ghost before = r@;
        r.push(s);
        assert(names@.take(i + 1) =~= names@.take(i as int).push(names@[i as int]));
        assert(string_views(r@) =~= string_views(before).push(s@));
        assert(string_views(names@.take(i + 1)) =~= string_views(names@.take(i as int)).push(
            names@[i as int]@,
        ));
        i += 1;
    }
    assert(names@.take(names@.len() as int) =~= names@);
    r
}

} // verus!
