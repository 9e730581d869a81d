//! Template attributes and the statements that wire them to an element:
//! interpolated static values, bound attributes (with the `class`, `style`,
//! `html` and `ref` special cases), event listeners and two-way bindings.

use vstd::prelude::*;
use vstd::string::{StringExecFns, StringSliceAdditionalSpecFns};

use crate::diagnostic::{diag_abs, diags_abs, Diagnostic, SDiag, Severity};
use crate::emit::attrs::{attr_set_statement, set_statement, two_way_read_of};
use crate::emit::emitter::{
    ascending, bound_deps, comment_safe, dep_kept, helper_of, in_some, listener_text, lists_view,
    located_deps, parts_view, update_text, update_used, used_of, with_helper, DynamicKind, Emitter,
    Frag, SDynamicKind, anchor_helper, anchor_text, InsertPos,
};
use crate::emit::js::{
    array_text, dec, indent, push_dep_list, js_quoted, prop_key, prop_key_text, push_indent, push_template_literal_chunk, tpl_escape,
};
use crate::emit::names::{reads, reads_any};
use crate::emit::rewrite::{rewrite_expr, rewritten};
use crate::model::ReactiveVar;
use crate::script::analysis::string_views;
use crate::script::json::str_eq;
use crate::sfc::scan::{segs_view, SSegment, TextSegment};
use crate::span::TextRange;
use crate::text::{trim_white, trimmed};

verus! {

broadcast use vstd::string::group_string_axioms;

/// A JavaScript expression of the template with its range.
#[derive(Debug, Clone, PartialEq, Eq)]
pub struct TemplateExpr {
    pub text: String,
    pub range: TextRange,
}

/// A text run of the template: literal text and `${…}` interpolations.
#[derive(Debug, Clone, PartialEq)]
pub struct TemplateText {
    pub segments: Vec<TextSegment>,
    pub range: TextRange,
}

/// A static attribute value: literal text and `${…}` interpolations.
#[derive(Debug, Clone, PartialEq)]
pub struct StaticValue {
    pub segments: Vec<TextSegment>,
}

/// An attribute of a template element, classified by its prefix.
#[derive(Debug, Clone, PartialEq)]
pub enum TemplateAttr {
    /// `name` or `name="text ${expr}"`.
    Static { name: String, value: Option<StaticValue>, range: TextRange },
    /// `:name="expr"`.
    Bound { name: String, expr: TemplateExpr, range: TextRange },
    /// `@event="handler"`.
    Event { event: String, handler: TemplateExpr, range: TextRange },
    /// `::name="lvalue"`.
    TwoWay { name: String, lvalue: TemplateExpr, range: TextRange },
}

/// The literal text of the segments, interpolations left out.
pub open spec fn literal_text(segs: Seq<SSegment>) -> Seq<char>
    decreases segs.len(),
{
    if segs.len() == 0 {
        Seq::empty()
    } else {
        literal_text(segs.drop_last()) + match segs.last() {
            SSegment::Literal(t, _) => t,
            SSegment::Interpolation(..) => Seq::empty(),
        }
    }
}

/// The literal text of the first static attribute called `name` that has a
/// value, or nothing.
pub open spec fn static_literal(attrs: Seq<TemplateAttr>, name: Seq<char>) -> Seq<char>
    decreases attrs.len(),
{
    if attrs.len() == 0 {
        Seq::empty()
    } else {
        match attrs[0] {
            TemplateAttr::Static { name: n, value: Some(v), .. } => if n@ == name {
                literal_text(segs_view(v.segments@))
            } else {
                static_literal(attrs.drop_first(), name)
            },
            _ => static_literal(attrs.drop_first(), name),
        }
    }
}

/// Some segment is an interpolation.
pub open spec fn interpolated(segs: Seq<SSegment>) -> bool {
    exists|k: int| 0 <= k < segs.len() && #[trigger] segs[k] is Interpolation
}

/// The body of the JS template literal for the segments: literal text
/// escaped, each interpolation as `${rewritten}`.
pub open spec fn literal_body(vars: Seq<ReactiveVar>, sh: Seq<Seq<char>>, segs: Seq<SSegment>) -> Seq<
    char,
>
    decreases segs.len(),
{
    if segs.len() == 0 {
        Seq::empty()
    } else {
        literal_body(vars, sh, segs.drop_last()) + match segs.last() {
            SSegment::Literal(t, _) => tpl_escape(t),
            SSegment::Interpolation(x, _, _) => "${"@ + rewritten(x, vars, sh) + "}"@,
        }
    }
}

/// The segment is an interpolation that reads a loop binding.
pub open spec fn reads_at(seg: SSegment, sh: Seq<Seq<char>>) -> bool {
    match seg {
        SSegment::Interpolation(x, _, _) => reads(x, sh),
        SSegment::Literal(..) => false,
    }
}

/// Some interpolation reads a loop binding.
pub open spec fn reads_loop(segs: Seq<SSegment>, sh: Seq<Seq<char>>) -> bool {
    exists|k: int| 0 <= k < segs.len() && #[trigger] reads_at(segs[k], sh)
}

/// The dependencies recorded for one segment, its parts of kind `kind`.
pub open spec fn seg_deps(parts: Seq<crate::emit::emitter::SDynamicPart>, kind: SDynamicKind, seg: SSegment) -> Seq<u32> {
    match seg {
        SSegment::Literal(..) => Seq::empty(),
        SSegment::Interpolation(x, _, xr) => located_deps(parts, kind, x, xr),
    }
}

/// Some interpolation of the segments depends on variable `x`.
pub open spec fn segs_read(
    parts: Seq<crate::emit::emitter::SDynamicPart>,
    kind: SDynamicKind,
    segs: Seq<SSegment>,
    x: u32,
) -> bool {
    exists|k: int| 0 <= k < segs.len() && #[trigger] seg_deps(parts, kind, segs[k]).contains(x)
}

/// Each interpolation fits 32-bit offsets.
pub open spec fn exprs_fit(segs: Seq<SSegment>) -> bool {
    forall|k: int|
        0 <= k < segs.len() ==> (#[trigger] segs[k] matches SSegment::Interpolation(x, _, _)
            ==> vstd::utf8::encode_utf8(x).len() <= u32::MAX)
}

/// `target` names a reactive variable that no loop binding shadows.
pub open spec fn reactive_target(vars: Seq<ReactiveVar>, sh: Seq<Seq<char>>, target: Seq<char>) -> bool {
    (exists|k: int| 0 <= k < vars.len() && #[trigger] vars[k].name@ == target) && !sh.contains(target)
}

/// The warning for a `:ref` whose target is not a reactive variable.
pub open spec fn ref_message(target: Seq<char>) -> Seq<char> {
    "`:ref` target `"@ + target + "` is not a reactive variable (declare it with `let "@ + target
        + ";` in script)"@
}

/// The strictly increasing sequence of the indices for which `p` holds.
pub open spec fn ascending_of(p: spec_fn(u32) -> bool) -> Seq<u32> {
    choose|d: Seq<u32>| ascending(d) && (forall|x: u32| d.contains(x) <==> p(x))
}

/// Two strictly increasing sequences that hold the same indices are equal.
pub proof fn lemma_ascending_unique(a: Seq<u32>, b: Seq<u32>)
    requires
        ascending(a),
        ascending(b),
        forall|x: u32| a.contains(x) <==> b.contains(x),
    ensures
        a == b,
    decreases a.len(),
{
    if a.len() == 0 {
        if b.len() > 0 {
            assert(b.contains(b[0]));
        }
        assert(a =~= b);
    } else {
        assert(a.contains(a[0]));
        assert(b.contains(a[0]));
        assert(b.len() > 0);
        assert(b.contains(b[0]));
        assert(a.contains(b[0]));
        let i = choose|i: int| 0 <= i < a.len() && a[i] == b[0];
        let j = choose|j: int| 0 <= j < b.len() && b[j] == a[0];
        if i > 0 {
            assert(a[0] < a[i]);
        }
        if j > 0 {
            assert(b[0] < b[j]);
        }
        assert(a[0] == b[0]);
        let (a1, b1) = (a.drop_first(), b.drop_first());
        assert forall|x: u32| a1.contains(x) <==> b1.contains(x) by {
            if a1.contains(x) {
                let k = choose|k: int| 0 <= k < a1.len() && a1[k] == x;
                assert(a[k + 1] == x && a[0] < a[k + 1]);
                assert(a.contains(x));
                let m = choose|m: int| 0 <= m < b.len() && b[m] == x;
                assert(m != 0);
                assert(b1[m - 1] == x);
            }
            if b1.contains(x) {
                let k = choose|k: int| 0 <= k < b1.len() && b1[k] == x;
                assert(b[k + 1] == x && b[0] < b[k + 1]);
                assert(b.contains(x));
                let m = choose|m: int| 0 <= m < a.len() && a[m] == x;
                assert(m != 0);
                assert(a1[m - 1] == x);
            }
        }
        lemma_ascending_unique(a1, b1);
        assert(a =~= seq![a[0]] + a1);
        assert(b =~= seq![b[0]] + b1);
    }
}

/// A strictly increasing sequence holding exactly the indices where `p`
/// holds is [`ascending_of`] `p`.
pub proof fn lemma_is_ascending_of(d: Seq<u32>, p: spec_fn(u32) -> bool)
    requires
        ascending(d),
        forall|x: u32| d.contains(x) <==> p(x),
    ensures
        d == ascending_of(p),
{
    let c = ascending_of(p);
    assert(ascending(c) && (forall|x: u32| c.contains(x) <==> p(x)));
    lemma_ascending_unique(d, c);
}

/// The dependencies of an interpolated value of attribute `attr`.
pub open spec fn attr_text_deps(e: Emitter, attr: Seq<char>, segs: Seq<SSegment>, sh: Seq<Seq<char>>) -> Seq<u32> {
    segs_deps(e, SDynamicKind::AttributeText(attr), segs, sh)
}

/// The dependencies of the interpolations of a text run or value, their
/// parts of kind `kind`: each once, increasing, shadowed ones dropped.
pub open spec fn segs_deps(e: Emitter, kind: SDynamicKind, segs: Seq<SSegment>, sh: Seq<Seq<char>>) -> Seq<u32> {
    ascending_of(
        |x: u32| segs_read(parts_view(e.dynamics@), kind, segs, x) && dep_kept(e.reactive_vars@, sh, x),
    )
}

/// The helper a `:class` / `:style` binding merges its value with.
pub open spec fn class_style_helper(which: Seq<char>) -> Seq<char> {
    if which == "class"@ {
        "setClass"@
    } else {
        "setStyle"@
    }
}

/// Every expression of the attribute fits 32-bit offsets.
pub open spec fn attr_fits(a: TemplateAttr) -> bool {
    match a {
        TemplateAttr::Static { value, .. } => match value {
            Some(v) => exprs_fit(segs_view(v.segments@)),
            None => true,
        },
        TemplateAttr::Bound { expr, .. } => vstd::utf8::encode_utf8(expr.text@).len() <= u32::MAX,
        TemplateAttr::Event { handler, .. } => vstd::utf8::encode_utf8(handler.text@).len() <= u32::MAX,
        TemplateAttr::TwoWay { lvalue, .. } => vstd::utf8::encode_utf8(lvalue.text@).len() <= u32::MAX,
    }
}

/// What wiring attribute `a` of element `node` writes (`sc` / `ss`: the
/// element's static `class` / `style` literal).
pub open spec fn wire_text(
    e: Emitter,
    node: Seq<char>,
    a: TemplateAttr,
    sc: Seq<char>,
    ss: Seq<char>,
    level: nat,
    sh: Seq<Seq<char>>,
) -> Seq<char> {
    let vars = e.reactive_vars@;
    match a {
        TemplateAttr::Bound { name, expr, .. } => {
            let x = expr.text@;
            if name@ == "class"@ || name@ == "style"@ {
                let lit = if name@ == "class"@ {
                    sc
                } else {
                    ss
                };
                update_text(
                    e,
                    level,
                    bound_deps(e, SDynamicKind::Attribute(name@), x, sh),
                    reads(x, sh),
                    helper_of(e, class_style_helper(name@)) + "("@ + node + ", "@ + js_quoted(lit) + ", "@
                        + rewritten(x, vars, sh) + ");"@,
                )
            } else if name@ == "html"@ {
                update_text(
                    e,
                    level,
                    bound_deps(e, SDynamicKind::Attribute("html"@), x, sh),
                    reads(x, sh),
                    node + ".innerHTML = "@ + rewritten(x, vars, sh) + ";"@,
                )
            } else if name@ == "ref"@ {
                let t = trim_white(x);
                if reactive_target(vars, sh, t) {
                    indent(level) + t + ".v = "@ + node + ";\n"@
                } else {
                    indent(level) + "/* lunas: block skipped \u{2014} "@ + comment_safe(ref_message(t))
                        + " */\n"@
                }
            } else {
                update_text(
                    e,
                    level,
                    bound_deps(e, SDynamicKind::Attribute(name@), x, sh),
                    reads(x, sh),
                    set_statement(node, name@, rewritten(x, vars, sh)),
                )
            }
        },
        TemplateAttr::Static { name, value, .. } => match value {
            Some(v) => {
                let segs = segs_view(v.segments@);
                if interpolated(segs) {
                    update_text(
                        e,
                        level,
                        attr_text_deps(e, name@, segs, sh),
                        reads_loop(segs, sh),
                        set_statement(node, name@, "`"@ + literal_body(vars, sh, segs) + "`"@),
                    )
                } else {
                    Seq::empty()
                }
            },
            None => Seq::empty(),
        },
        TemplateAttr::Event { event, handler, .. } => listener_text(
            e,
            level,
            node,
            event@,
            rewritten(handler.text@, vars, sh),
        ),
        TemplateAttr::TwoWay { name, lvalue, .. } => {
            let x = lvalue.text@;
            let value = rewritten(x, vars, sh);
            let (event, read) = two_way_read_of(node, name@);
            update_text(
                e,
                level,
                bound_deps(e, SDynamicKind::TwoWay(name@), x, sh),
                reads(x, sh),
                set_statement(node, name@, value),
            ) + listener_text(e, level, node, event, value + " = "@ + read)
        },
    }
}

/// The helpers referenced after wiring attribute `a`.
pub open spec fn wire_used(e: Emitter, used: Seq<Seq<char>>, a: TemplateAttr, sh: Seq<Seq<char>>) -> Seq<
    Seq<char>,
> {
    match a {
        TemplateAttr::Bound { name, expr, .. } => {
            let x = expr.text@;
            if name@ == "class"@ || name@ == "style"@ {
                update_used(
                    with_helper(used, class_style_helper(name@)),
                    bound_deps(e, SDynamicKind::Attribute(name@), x, sh),
                    reads(x, sh),
                )
            } else if name@ == "html"@ {
                update_used(used, bound_deps(e, SDynamicKind::Attribute("html"@), x, sh), reads(x, sh))
            } else if name@ == "ref"@ {
                used
            } else {
                update_used(used, bound_deps(e, SDynamicKind::Attribute(name@), x, sh), reads(x, sh))
            }
        },
        TemplateAttr::Static { name, value, .. } => match value {
            Some(v) => {
                let segs = segs_view(v.segments@);
                if interpolated(segs) {
                    update_used(used, attr_text_deps(e, name@, segs, sh), reads_loop(segs, sh))
                } else {
                    used
                }
            },
            None => used,
        },
        TemplateAttr::Event { .. } => with_helper(used, "on"@),
        TemplateAttr::TwoWay { name, lvalue, .. } => with_helper(
            update_used(
                used,
                bound_deps(e, SDynamicKind::TwoWay(name@), lvalue.text@, sh),
                reads(lvalue.text@, sh),
            ),
            "on"@,
        ),
    }
}

/// The diagnostics after wiring attribute `a`: a `:ref` to no reactive
/// variable warns.
pub open spec fn wire_diags(e: Emitter, diags: Seq<SDiag>, a: TemplateAttr, sh: Seq<Seq<char>>) -> Seq<SDiag> {
    match a {
        TemplateAttr::Bound { name, expr, .. } => {
            let t = trim_white(expr.text@);
            if name@ != "class"@ && name@ != "style"@ && name@ != "html"@ && name@ == "ref"@
                && !reactive_target(e.reactive_vars@, sh, t) {
                diags.push(
                    SDiag {
                        severity: Severity::Warning,
                        range: TextRange::spec_at(0, 0),
                        message: ref_message(t),
                    },
                )
            } else {
                diags
            }
        },
        _ => diags,
    }
}

/// What wiring the attributes `attrs` of element `node` writes, in order.
pub open spec fn wire_all_text(
    e: Emitter,
    node: Seq<char>,
    attrs: Seq<TemplateAttr>,
    sc: Seq<char>,
    ss: Seq<char>,
    level: nat,
    sh: Seq<Seq<char>>,
) -> Seq<char>
    decreases attrs.len(),
{
    if attrs.len() == 0 {
        Seq::empty()
    } else {
        wire_all_text(e, node, attrs.drop_last(), sc, ss, level, sh) + wire_text(
            e,
            node,
            attrs.last(),
            sc,
            ss,
            level,
            sh,
        )
    }
}

/// The helpers referenced after wiring `attrs`.
pub open spec fn wire_all_used(e: Emitter, used: Seq<Seq<char>>, attrs: Seq<TemplateAttr>, sh: Seq<Seq<char>>) -> Seq<
    Seq<char>,
>
    decreases attrs.len(),
{
    if attrs.len() == 0 {
        used
    } else {
        wire_used(e, wire_all_used(e, used, attrs.drop_last(), sh), attrs.last(), sh)
    }
}

/// The diagnostics after wiring `attrs`.
pub open spec fn wire_all_diags(e: Emitter, diags: Seq<SDiag>, attrs: Seq<TemplateAttr>, sh: Seq<Seq<char>>) -> Seq<
    SDiag,
>
    decreases attrs.len(),
{
    if attrs.len() == 0 {
        diags
    } else {
        wire_diags(e, wire_all_diags(e, diags, attrs.drop_last(), sh), attrs.last(), sh)
    }
}

/// What wiring the dynamic elements writes: each element's attributes, its
/// reference name from `names`, its static `class` / `style` literals merged
/// into `:class` / `:style`.
pub open spec fn wiring_text(
    e: Emitter,
    elems: Seq<Seq<TemplateAttr>>,
    names: Seq<Seq<char>>,
    level: nat,
    sh: Seq<Seq<char>>,
) -> Seq<char>
    decreases elems.len(),
{
    if elems.len() == 0 {
        Seq::empty()
    } else {
        let k = elems.len() - 1;
        wiring_text(e, elems.drop_last(), names, level, sh) + wire_all_text(
            e,
            names[k],
            elems[k],
            static_literal(elems[k], "class"@),
            static_literal(elems[k], "style"@),
            level,
            sh,
        )
    }
}

/// The helpers referenced after wiring the elements.
pub open spec fn wiring_used(e: Emitter, used: Seq<Seq<char>>, elems: Seq<Seq<TemplateAttr>>, sh: Seq<Seq<char>>) -> Seq<
    Seq<char>,
>
    decreases elems.len(),
{
    if elems.len() == 0 {
        used
    } else {
        wire_all_used(e, wiring_used(e, used, elems.drop_last(), sh), elems.last(), sh)
    }
}

/// The diagnostics after wiring the elements.
pub open spec fn wiring_diags(e: Emitter, diags: Seq<SDiag>, elems: Seq<Seq<TemplateAttr>>, sh: Seq<Seq<char>>) -> Seq<
    SDiag,
>
    decreases elems.len(),
{
    if elems.len() == 0 {
        diags
    } else {
        wire_all_diags(e, wiring_diags(e, diags, elems.drop_last(), sh), elems.last(), sh)
    }
}

/// Wiring writes the same whatever helpers were referenced before.
proof fn lemma_wire_ignores_used(
    e0: Emitter,
    e1: Emitter,
    node: Seq<char>,
    attrs: Seq<TemplateAttr>,
    sc: Seq<char>,
    ss: Seq<char>,
    level: nat,
    sh: Seq<Seq<char>>,
    used: Seq<Seq<char>>,
    diags: Seq<SDiag>,
)
    requires
        e1 == (Emitter { used: e1.used, ..e0 }),
    ensures
        wire_all_text(e1, node, attrs, sc, ss, level, sh) == wire_all_text(e0, node, attrs, sc, ss, level, sh),
        wire_all_used(e1, used, attrs, sh) == wire_all_used(e0, used, attrs, sh),
        wire_all_diags(e1, diags, attrs, sh) == wire_all_diags(e0, diags, attrs, sh),
    decreases attrs.len(),
{
    if attrs.len() > 0 {
        lemma_wire_ignores_used(e0, e1, node, attrs.drop_last(), sc, ss, level, sh, used, diags);
        let a = attrs.last();
        assert(wire_text(e1, node, a, sc, ss, level, sh) == wire_text(e0, node, a, sc, ss, level, sh));
        assert(wire_used(e1, wire_all_used(e0, used, attrs.drop_last(), sh), a, sh) == wire_used(
            e0,
            wire_all_used(e0, used, attrs.drop_last(), sh),
            a,
            sh,
        ));
        assert(wire_diags(e1, wire_all_diags(e0, diags, attrs.drop_last(), sh), a, sh) == wire_diags(
            e0,
            wire_all_diags(e0, diags, attrs.drop_last(), sh),
            a,
            sh,
        ));
    }
}

pub open spec fn elems_view(s: Seq<Vec<TemplateAttr>>) -> Seq<Seq<TemplateAttr>> {
    s.map_values(|v: Vec<TemplateAttr>| v@)
}

/// A prop passed to a child component that the parent keeps driving: its
/// getter expression and the dependencies (or loop coupling) that re-run it.
#[derive(Debug, Clone, PartialEq, Eq)]
pub struct ReactiveProp {
    pub name: String,
    pub expr: String,
    pub deps: Vec<u32>,
    /// Reads an enclosing `:for` loop binding.
    pub coupled: bool,
}

/// The abstract form of a [`ReactiveProp`].
pub struct SReactiveProp {
    pub name: Seq<char>,
    pub expr: Seq<char>,
    pub deps: Seq<u32>,
    pub coupled: bool,
}

impl View for ReactiveProp {
    type V = SReactiveProp;

    open spec fn view(&self) -> SReactiveProp {
        SReactiveProp { name: self.name@, expr: self.expr@, deps: self.deps@, coupled: self.coupled }
    }
}

pub open spec fn rprops_view(s: Seq<ReactiveProp>) -> Seq<SReactiveProp> {
    s.map_values(|p: ReactiveProp| p@)
}

/// The literal chunks of the segments, each escaped for a template literal.
pub open spec fn escaped_literals(segs: Seq<SSegment>) -> Seq<char>
    decreases segs.len(),
{
    if segs.len() == 0 {
        Seq::empty()
    } else {
        escaped_literals(segs.drop_last()) + match segs.last() {
            SSegment::Literal(t, _) => tpl_escape(t),
            SSegment::Interpolation(..) => Seq::empty(),
        }
    }
}

/// The getter (`name: () => (expr)`), the driving prop when the value
/// depends on something, and the expression, for a prop read from `a`; `None`
/// when `a` is no value prop.
pub open spec fn prop_value(e: Emitter, a: TemplateAttr, sh: Seq<Seq<char>>) -> Option<(Seq<char>, Seq<u32>, bool)> {
    match a {
        TemplateAttr::Bound { name, expr, .. } => Some(
            (
                rewritten(expr.text@, e.reactive_vars@, sh),
                bound_deps(e, SDynamicKind::Attribute(name@), expr.text@, sh),
                reads(expr.text@, sh),
            ),
        ),
        TemplateAttr::Static { name, value, .. } => match value {
            Some(v) => {
                let segs = segs_view(v.segments@);
                if interpolated(segs) {
                    Some(
                        (
                            "`"@ + literal_body(e.reactive_vars@, sh, segs) + "`"@,
                            attr_text_deps(e, name@, segs, sh),
                            reads_loop(segs, sh),
                        ),
                    )
                } else {
                    None
                }
            },
            None => None,
        },
        _ => None,
    }
}

/// The props-object member for `a`, if it gives one.
pub open spec fn prop_member(e: Emitter, a: TemplateAttr, sh: Seq<Seq<char>>) -> Option<Seq<char>> {
    match prop_value(e, a, sh) {
        Some((x, _, _)) => Some(prop_key_text(attr_name(a)) + ": () => ("@ + x + ")"@),
        None => match a {
            TemplateAttr::Static { name, value, .. } => Some(
                prop_key_text(name@) + ": "@ + match value {
                    Some(v) => "`"@ + escaped_literals(segs_view(v.segments@)) + "`"@,
                    None => "true"@,
                },
            ),
            TemplateAttr::Event { event, handler, .. } => Some(
                prop_key_text(event_prop(event@)) + ": ($event) => "@ + rewritten(
                    handler.text@,
                    e.reactive_vars@,
                    sh,
                ),
            ),
            _ => None,
        },
    }
}

/// ASCII uppercase of one character; every other character is unchanged.
pub open spec fn upper_char(c: char) -> char {
    if 97 <= c as u32 <= 122 {
        ((c as u32) - 32) as char
    } else {
        c
    }
}

/// Kebab-case segments joined, each capitalized when `cap` (and every one
/// after a `-`).
pub open spec fn camel_from(s: Seq<char>, cap: bool) -> Seq<char>
    decreases s.len(),
{
    if s.len() == 0 {
        Seq::empty()
    } else if s[0] == '-' {
        camel_from(s.drop_first(), true)
    } else {
        seq![if cap { upper_char(s[0]) } else { s[0] }] + camel_from(s.drop_first(), false)
    }
}

/// The props key a component event `@name` is handed to the child under:
/// `on` and the camel-cased name (`save-all` gives `onSaveAll`).
pub open spec fn event_prop(name: Seq<char>) -> Seq<char> {
    "on"@ + camel_from(name, true)
}

fn upper_one(c: char) -> (r: char)
    ensures
        r == upper_char(c),
{
    if 'a' <= c && c <= 'z' {
        let u = c as u8;
        (u - 32) as char
    } else {
        c
    }
}

/// The props key of component event `name` (see [`event_prop`]).
pub fn event_prop_name(name: &str) -> (r: String)
    ensures
        r@ == event_prop(name@),
{
    let cs = crate::text::chars_of(name);
    let ghost s = name@;
    let mut out = String::from_str("on");
    let mut cap = true;
    assert(s.skip(0) =~= s);
    let mut i: usize = 0;
    while i < cs.len()
        invariant
            i <= cs@.len(),
            cs@ == s,
            out@ + camel_from(s.skip(i as int), cap) == event_prop(s),
        decreases cs@.len() - i,
    {
        let c = cs[i];
        assert(s.skip(i as int)[0] == c);
        assert(s.skip(i as int).drop_first() =~= s.skip(i + 1));
        if c == '-' {
            cap = true;
        } else {
            let d = if cap { upper_one(c) } else { c };
            let ghost before = out@;
            crate::text::push_char(&mut out, d);
            assert(out@ + camel_from(s.skip(i + 1), false) =~= before + (seq![d] + camel_from(s.skip(i + 1), false)));
            cap = false;
        }
        i += 1;
    }
    assert(s.skip(i as int).len() == 0);
    out
}

/// The name an attribute is keyed by.
pub open spec fn attr_name(a: TemplateAttr) -> Seq<char> {
    match a {
        TemplateAttr::Static { name, .. } => name@,
        TemplateAttr::Bound { name, .. } => name@,
        TemplateAttr::Event { event, .. } => event@,
        TemplateAttr::TwoWay { name, .. } => name@,
    }
}

/// The members of the initial props object, in order.
pub open spec fn child_members(e: Emitter, attrs: Seq<TemplateAttr>, sh: Seq<Seq<char>>) -> Seq<Seq<char>>
    decreases attrs.len(),
{
    if attrs.len() == 0 {
        Seq::empty()
    } else {
        let rest = child_members(e, attrs.drop_last(), sh);
        match prop_member(e, attrs.last(), sh) {
            Some(m) => rest.push(m),
            None => rest,
        }
    }
}

/// The props the parent keeps driving: those whose value has dependencies or
/// reads a loop binding, in order.
pub open spec fn child_reactive(e: Emitter, attrs: Seq<TemplateAttr>, sh: Seq<Seq<char>>) -> Seq<SReactiveProp>
    decreases attrs.len(),
{
    if attrs.len() == 0 {
        Seq::empty()
    } else {
        let rest = child_reactive(e, attrs.drop_last(), sh);
        match prop_value(e, attrs.last(), sh) {
            Some((x, deps, coupled)) => if deps.len() > 0 || coupled {
                rest.push(SReactiveProp { name: attr_name(attrs.last()), expr: x, deps, coupled })
            } else {
                rest
            },
            None => rest,
        }
    }
}

/// The warnings for component attributes that are not supported (two-way
/// bindings and events), at `range`, in order.
pub open spec fn child_diags(attrs: Seq<TemplateAttr>, range: TextRange) -> Seq<SDiag>
    decreases attrs.len(),
{
    if attrs.len() == 0 {
        Seq::empty()
    } else {
        let rest = child_diags(attrs.drop_last(), range);
        match attrs.last() {
            TemplateAttr::TwoWay { name, .. } => rest.push(
                SDiag {
                    severity: Severity::Warning,
                    range,
                    message: "two-way binding `::"@ + name@ + "` on a component is not supported yet"@,
                },
            ),
            _ => rest,
        }
    }
}

/// The expression of the first `:name="…"` binding among `attrs`.
pub open spec fn bound_expr_of(attrs: Seq<TemplateAttr>, n: Seq<char>) -> Option<Seq<char>>
    decreases attrs.len(),
{
    if attrs.len() == 0 {
        None
    } else {
        match attrs[0] {
            TemplateAttr::Bound { name, expr, .. } => if name@ == n {
                Some(expr.text@)
            } else {
                bound_expr_of(attrs.drop_first(), n)
            },
            _ => bound_expr_of(attrs.drop_first(), n),
        }
    }
}

/// `a` is a `:n="…"` binding.
pub open spec fn is_bound_named(a: TemplateAttr, n: Seq<char>) -> bool {
    match a {
        TemplateAttr::Bound { name, .. } => name@ == n,
        _ => false,
    }
}

/// `attrs` without their `:n="…"` bindings, order kept.
pub open spec fn without_bound(attrs: Seq<TemplateAttr>, n: Seq<char>) -> Seq<TemplateAttr>
    decreases attrs.len(),
{
    if attrs.len() == 0 {
        Seq::empty()
    } else {
        let rest = without_bound(attrs.drop_last(), n);
        if is_bound_named(attrs.last(), n) {
            rest
        } else {
            rest.push(attrs.last())
        }
    }
}

pub open spec fn opt_view(o: Option<&str>) -> Option<Seq<char>> {
    match o {
        Some(n) => Some(n@),
        None => None,
    }
}

/// `attrs` without the `:n="…"` bindings when a name is given.
pub open spec fn without_opt(attrs: Seq<TemplateAttr>, skip: Option<Seq<char>>) -> Seq<TemplateAttr> {
    match skip {
        Some(n) => without_bound(attrs, n),
        None => attrs,
    }
}

/// The members of a props-object literal: ` a, b ` (nothing when empty).
pub open spec fn members_text(ms: Seq<Seq<char>>) -> Seq<char> {
    members_items(ms) + if ms.len() > 0 {
        " "@
    } else {
        Seq::empty()
    }
}

pub open spec fn members_items(ms: Seq<Seq<char>>) -> Seq<char>
    decreases ms.len(),
{
    if ms.len() == 0 {
        Seq::empty()
    } else {
        members_items(ms.drop_last()) + (if ms.len() > 1 {
            ","@
        } else {
            Seq::empty()
        }) + " "@ + ms.last()
    }
}

/// One `handle.setProp("name", expr);` per driven prop, as its dependencies
/// demand.
pub open spec fn setprop_text(e: Emitter, level: nat, handle: Seq<char>, rps: Seq<SReactiveProp>) -> Seq<char>
    decreases rps.len(),
{
    if rps.len() == 0 {
        Seq::empty()
    } else {
        let rp = rps.last();
        setprop_text(e, level, handle, rps.drop_last()) + update_text(
            e,
            level,
            rp.deps,
            rp.coupled,
            handle + ".setProp("@ + js_quoted(rp.name) + ", "@ + rp.expr + ");"@,
        )
    }
}

pub open spec fn setprop_used(used: Seq<Seq<char>>, rps: Seq<SReactiveProp>) -> Seq<Seq<char>>
    decreases rps.len(),
{
    if rps.len() == 0 {
        used
    } else {
        update_used(setprop_used(used, rps.drop_last()), rps.last().deps, rps.last().coupled)
    }
}

/// The driving updates depend on the emitter only through its aliases.
proof fn lemma_setprop_same(e0: Emitter, e1: Emitter, level: nat, handle: Seq<char>, rps: Seq<SReactiveProp>)
    requires
        e1.aliases == e0.aliases,
    ensures
        setprop_text(e1, level, handle, rps) == setprop_text(e0, level, handle, rps),
    decreases rps.len(),
{
    if rps.len() > 0 {
        lemma_setprop_same(e0, e1, level, handle, rps.drop_last());
    }
}

/// The local name a child component tag is imported under.
pub open spec fn import_local(imps: Seq<(Seq<char>, Seq<char>, Seq<char>)>, tag: Seq<char>) -> Option<Seq<char>>
    decreases imps.len(),
{
    if imps.len() == 0 {
        None
    } else if imps[0].0 == tag {
        Some(imps[0].1)
    } else {
        import_local(imps.drop_first(), tag)
    }
}

/// What a `:ref` on a component writes: the mount handle assigned into the
/// target's box, or a skipped-block comment when the target is no reactive
/// variable.
pub open spec fn ref_text(e: Emitter, level: nat, sh: Seq<Seq<char>>, handle: Seq<char>, target: Option<Seq<char>>) -> Seq<char> {
    match target {
        None => Seq::empty(),
        Some(x) => {
            let t = trim_white(x);
            if reactive_target(e.reactive_vars@, sh, t) {
                indent(level) + t + ".v = "@ + handle + ";\n"@
            } else {
                indent(level) + "/* lunas: block skipped \u{2014} "@ + comment_safe(ref_message(t)) + " */\n"@
            }
        },
    }
}

/// The warning of a `:ref` on a component whose target is no reactive
/// variable.
pub open spec fn ref_diags(e: Emitter, sh: Seq<Seq<char>>, target: Option<Seq<char>>, range: TextRange) -> Seq<SDiag> {
    match target {
        None => Seq::empty(),
        Some(x) => {
            let t = trim_white(x);
            if reactive_target(e.reactive_vars@, sh, t) {
                Seq::empty()
            } else {
                seq![SDiag { severity: Severity::Warning, range, message: ref_message(t) }]
            }
        },
    }
}

/// The warning for a component tag without a matching `@use`.
pub open spec fn unknown_tag_message() -> Seq<char> {
    "child component tag has no matching `@use` import"@
}

/// The warning for a `<component>` without `:is`.
pub open spec fn missing_is_message() -> Seq<char> {
    "`<component>` requires an `:is` binding (e.g. `:is=\"view\"`)"@
}

/// The literal text of the first static attribute called `name` with a value
/// (see [`static_literal`]).
pub fn static_attr_literal(attrs: &[TemplateAttr], name: &str) -> (r: String)
    ensures
        r@ == static_literal(attrs@, name@),
{
    let mut i: usize = 0;
    assert(attrs@.skip(0) =~= attrs@);
    while i < attrs.len()
        invariant
            i <= attrs@.len(),
            static_literal(attrs@, name@) == static_literal(attrs@.skip(i as int), name@),
        decreases attrs@.len() - i,
    {
        assert(attrs@.skip(i as int)[0] == attrs@[i as int]);
        match &attrs[i] {
            TemplateAttr::Static { name: n, value: Some(v), .. } => {
                if str_eq(n.as_str(), name) {
                    return literal_of(&v.segments);
                }
            },
            _ => {},
        }
        assert(attrs@.skip(i as int).drop_first() =~= attrs@.skip(i + 1));
        i += 1;
    }
    String::new()
}

/// `key: () => (expr)` for prop `name`.
fn getter_member(name: &str, expr: &str) -> (r: String)
    ensures
        r@ == prop_key_text(name@) + ": () => ("@ + expr@ + ")"@,
{
    let mut m = prop_key(name);
    m.append(": () => (");
    m.append(expr);
    m.append(")");
    m
}

/// Appends the escaped literal chunks of `segs` (see [`escaped_literals`]).
fn push_escaped_literals(b: &mut String, segs: &Vec<TextSegment>)
    ensures
        final(b)@ == old(b)@ + escaped_literals(segs_view(segs@)),
{
    let ghost sv = segs_view(segs@);
    let ghost b0 = b@;
    let mut i: usize = 0;
    while i < segs.len()
        invariant
            i <= segs@.len(),
            sv == segs_view(segs@),
            b@ == b0 + escaped_literals(sv.take(i as int)),
        decreases segs@.len() - i,
    {
        proof {
            assert(sv.take(i + 1).drop_last() =~= sv.take(i as int));
            assert(sv.take(i + 1).last() == segs@[i as int]@);
        }
        match &segs[i] {
            TextSegment::Literal { text, .. } => {
                push_template_literal_chunk(b, text.as_str());
            },
            TextSegment::Interpolation(_) => {},
        }
        i += 1;
    }
    assert(sv.take(sv.len() as int) =~= sv);
}

/// The expression of the first `:n="…"` binding (see [`bound_expr_of`]).
fn first_bound(attrs: &[TemplateAttr], n: &str) -> (r: Option<String>)
    requires
        forall|k: int| 0 <= k < attrs@.len() ==> attr_fits(#[trigger] attrs@[k]),
    ensures
        match bound_expr_of(attrs@, n@) {
            Some(x) => r matches Some(t) && t@ == x,
            None => r is None,
        },
        r matches Some(t) ==> vstd::utf8::encode_utf8(t@).len() <= u32::MAX,
{
    let mut i: usize = 0;
    assert(attrs@.skip(0) =~= attrs@);
    while i < attrs.len()
        invariant
            i <= attrs@.len(),
            forall|k: int| 0 <= k < attrs@.len() ==> attr_fits(#[trigger] attrs@[k]),
            bound_expr_of(attrs@, n@) == bound_expr_of(attrs@.skip(i as int), n@),
        decreases attrs@.len() - i,
    {
        assert(attrs@.skip(i as int)[0] == attrs@[i as int]);
        match &attrs[i] {
            TemplateAttr::Bound { name, expr, .. } => {
                if str_eq(name.as_str(), n) {
                    assert(attr_fits(attrs@[i as int]));
                    return Some(String::from_str(expr.text.as_str()));
                }
            },
            _ => {},
        }
        assert(attrs@.skip(i as int).drop_first() =~= attrs@.skip(i + 1));
        i += 1;
    }
    None
}

/// Appends ` a, b ` for the members (see [`members_text`]).
fn push_members(b: &mut String, ms: &Vec<String>)
    ensures
        final(b)@ == old(b)@ + members_text(string_views(ms@)),
{
    let ghost mv = string_views(ms@);
    let ghost b0 = b@;
    let mut i: usize = 0;
    while i < ms.len()
        invariant
            i <= ms@.len(),
            mv == string_views(ms@),
            b@ == b0 + members_items(mv.take(i as int)),
        decreases ms@.len() - i,
    {
        proof {
            assert(mv.take(i + 1).drop_last() =~= mv.take(i as int));
            assert(mv.take(i + 1).last() == ms@[i as int]@);
        }
        if i > 0 {
            b.append(",");
        }
        b.append(" ");
        b.append(ms[i].as_str());
        i += 1;
    }
    assert(mv.take(mv.len() as int) =~= mv);
    if ms.len() > 0 {
        b.append(" ");
    }
}


fn literal_of(segs: &Vec<TextSegment>) -> (r: String)
    ensures
        r@ == literal_text(segs_view(segs@)),
{
    let ghost sv = segs_view(segs@);
    let mut out = String::new();
    let mut i: usize = 0;
    while i < segs.len()
        invariant
            i <= segs@.len(),
            sv == segs_view(segs@),
            out@ == literal_text(sv.take(i as int)),
        decreases segs@.len() - i,
    {
        proof {
            assert(sv.take(i + 1).drop_last() =~= sv.take(i as int));
            assert(sv.take(i + 1).last() == segs@[i as int]@);
        }
        match &segs[i] {
            TextSegment::Literal { text, .. } => {
                out.append(text.as_str());
            },
            TextSegment::Interpolation(_) => {},
        }
        i += 1;
    }
    assert(sv.take(sv.len() as int) =~= sv);
    out
}

/// Whether the value holds an interpolation.
pub fn has_interpolation(v: &StaticValue) -> (r: bool)
    ensures
        r == interpolated(segs_view(v.segments@)),
{
    let ghost sv = segs_view(v.segments@);
    let mut i: usize = 0;
    while i < v.segments.len()
        invariant
            i <= v.segments@.len(),
            sv == segs_view(v.segments@),
            forall|k: int| 0 <= k < i ==> !(#[trigger] sv[k] is Interpolation),
        decreases v.segments@.len() - i,
    {
        assert(sv[i as int] == v.segments@[i as int]@);
        match &v.segments[i] {
            TextSegment::Interpolation(_) => {
                return true;
            },
            _ => {},
        }
        i += 1;
    }
    false
}

impl Emitter {
    /// Writes an interpolated static attribute value: the attribute set to
    /// the JS template literal, as its dependencies demand.
    pub fn emit_attr_text(&mut self, b: &mut String, node: &str, attr: &str, value: &StaticValue, frag: &Frag)
        requires
            exprs_fit(segs_view(value.segments@)),
        ensures
            ({
                let segs = segs_view(value.segments@);
                let sh = string_views(frag.shadowed@);
                let deps = attr_text_deps(*old(self), attr@, segs, sh);
                &&& final(b)@ == old(b)@ + update_text(
                    *old(self),
                    frag.indent as nat,
                    deps,
                    reads_loop(segs, sh),
                    set_statement(node@, attr@, "`"@ + literal_body(old(self).reactive_vars@, sh, segs) + "`"@),
                )
                &&& used_of(*final(self)) == update_used(used_of(*old(self)), deps, reads_loop(segs, sh))
            }),
            *final(self) == (Emitter { used: final(self).used, ..*old(self) }),
    {
        let (lit, deps, coupled) = self.attr_text_value(attr, value, frag);
        let set = attr_set_statement(node, attr, lit.as_str());
        self.emit_update(b, frag, deps.as_slice(), coupled, set.as_str());
    }

    /// Wires one attribute of element `node` (see [`wire_text`]); `sc` and
    /// `ss` are the element's static `class` and `style` literals.
    pub fn wire_attr(
        &mut self,
        b: &mut String,
        node: &str,
        attr: &TemplateAttr,
        sc: &str,
        ss: &str,
        frag: &Frag,
        diags: &mut Vec<Diagnostic>,
    )
        requires
            attr_fits(*attr),
        ensures
            final(b)@ == old(b)@ + wire_text(
                *old(self),
                node@,
                *attr,
                sc@,
                ss@,
                frag.indent as nat,
                string_views(frag.shadowed@),
            ),
            used_of(*final(self)) == wire_used(*old(self), used_of(*old(self)), *attr, string_views(frag.shadowed@)),
            diags_abs(final(diags)@) == wire_diags(
                *old(self),
                diags_abs(old(diags)@),
                *attr,
                string_views(frag.shadowed@),
            ),
            *final(self) == (Emitter { used: final(self).used, ..*old(self) }),
    {
        match attr {
            TemplateAttr::Bound { name, expr, .. } => {
                if str_eq(name.as_str(), "class") {
                    self.emit_class_style(b, node, "class", expr.text.as_str(), sc, frag);
                } else if str_eq(name.as_str(), "style") {
                    self.emit_class_style(b, node, "style", expr.text.as_str(), ss, frag);
                } else if str_eq(name.as_str(), "html") {
                    self.emit_html_bind(b, node, expr.text.as_str(), frag);
                } else if str_eq(name.as_str(), "ref") {
                    self.emit_ref(b, node, expr.text.as_str(), frag, diags);
                } else {
                    self.emit_bound_attr(b, node, name.as_str(), expr.text.as_str(), frag);
                }
            },
            TemplateAttr::Static { name, value, .. } => {
                match value {
                    Some(v) => {
                        if has_interpolation(v) {
                            self.emit_attr_text(b, node, name.as_str(), v, frag);
                        }
                    },
                    None => {},
                }
            },
            TemplateAttr::Event { event, handler, .. } => {
                self.emit_event(b, node, event.as_str(), handler.text.as_str(), frag);
            },
            TemplateAttr::TwoWay { name, lvalue, .. } => {
                self.emit_two_way(b, node, name.as_str(), lvalue.text.as_str(), frag);
            },
        }
    }

    /// Wires every attribute of element `node`, in order.
    pub fn wire_element(&mut self, b: &mut String, node: &str, attrs: &Vec<TemplateAttr>, frag: &Frag, diags: &mut Vec<Diagnostic>)
        requires
            forall|k: int| 0 <= k < attrs@.len() ==> attr_fits(#[trigger] attrs@[k]),
        ensures
            ({
                let sh = string_views(frag.shadowed@);
                &&& final(b)@ == old(b)@ + wire_all_text(
                    *old(self),
                    node@,
                    attrs@,
                    static_literal(attrs@, "class"@),
                    static_literal(attrs@, "style"@),
                    frag.indent as nat,
                    sh,
                )
                &&& used_of(*final(self)) == wire_all_used(*old(self), used_of(*old(self)), attrs@, sh)
                &&& diags_abs(final(diags)@) == wire_all_diags(*old(self), diags_abs(old(diags)@), attrs@, sh)
            }),
            *final(self) == (Emitter { used: final(self).used, ..*old(self) }),
    {
        let ghost e0 = *self;
        let ghost b0 = b@;
        let ghost u0 = used_of(*self);
        let ghost d0 = diags_abs(diags@);
        let ghost sh = string_views(frag.shadowed@);
        let sc = static_attr_literal(attrs.as_slice(), "class");
        let ss = static_attr_literal(attrs.as_slice(), "style");
        let mut i: usize = 0;
        while i < attrs.len()
            invariant
                i <= attrs@.len(),
                forall|k: int| 0 <= k < attrs@.len() ==> attr_fits(#[trigger] attrs@[k]),
                sh == string_views(frag.shadowed@),
                *self == (Emitter { used: self.used, ..e0 }),
                b@ == b0 + wire_all_text(e0, node@, attrs@.take(i as int), sc@, ss@, frag.indent as nat, sh),
                used_of(*self) == wire_all_used(e0, u0, attrs@.take(i as int), sh),
                diags_abs(diags@) == wire_all_diags(e0, d0, attrs@.take(i as int), sh),
            decreases attrs@.len() - i,
        {
            proof {
                assert(attrs@.take(i + 1).drop_last() =~= attrs@.take(i as int));
                assert(attrs@.take(i + 1).last() == attrs@[i as int]);
            }
            self.wire_attr(b, node, &attrs[i], sc.as_str(), ss.as_str(), frag, diags);
            i += 1;
        }
        assert(attrs@.take(attrs@.len() as int) =~= attrs@);
    }

    /// Wires the attributes and events of the dynamic elements, element `k`
    /// referenced as `ref_names[k]` (see [`wiring_text`]).
    pub fn emit_attr_and_event_wiring(
        &mut self,
        b: &mut String,
        elems: &[Vec<TemplateAttr>],
        ref_names: &[String],
        frag: &Frag,
        diags: &mut Vec<Diagnostic>,
    )
        requires
            ref_names@.len() >= elems@.len(),
            forall|k: int, j: int|
                0 <= k < elems@.len() && 0 <= j < elems@[k]@.len() ==> attr_fits(#[trigger] elems@[k]@[j]),
        ensures
            ({
                let sh = string_views(frag.shadowed@);
                let ev = elems_view(elems@);
                &&& final(b)@ == old(b)@ + wiring_text(*old(self), ev, string_views(ref_names@), frag.indent as nat, sh)
                &&& used_of(*final(self)) == wiring_used(*old(self), used_of(*old(self)), ev, sh)
                &&& diags_abs(final(diags)@) == wiring_diags(*old(self), diags_abs(old(diags)@), ev, sh)
            }),
            *final(self) == (Emitter { used: final(self).used, ..*old(self) }),
    {
        let ghost e0 = *self;
        let ghost b0 = b@;
        let ghost u0 = used_of(*self);
        let ghost d0 = diags_abs(diags@);
        let ghost sh = string_views(frag.shadowed@);
        let ghost ev = elems_view(elems@);
        let ghost nv = string_views(ref_names@);
        let mut i: usize = 0;
        while i < elems.len()
            invariant
                i <= elems@.len(),
                ref_names@.len() >= elems@.len(),
                forall|k: int, j: int|
                    0 <= k < elems@.len() && 0 <= j < elems@[k]@.len() ==> attr_fits(#[trigger] elems@[k]@[j]),
                sh == string_views(frag.shadowed@),
                ev == elems_view(elems@),
                nv == string_views(ref_names@),
                *self == (Emitter { used: self.used, ..e0 }),
                b@ == b0 + wiring_text(e0, ev.take(i as int), nv, frag.indent as nat, sh),
                used_of(*self) == wiring_used(e0, u0, ev.take(i as int), sh),
                diags_abs(diags@) == wiring_diags(e0, d0, ev.take(i as int), sh),
            decreases elems@.len() - i,
        {
            proof {
                assert(ev.take(i + 1).drop_last() =~= ev.take(i as int));
                assert(ev.take(i + 1).last() == elems@[i as int]@);
                assert(ev.take(i + 1)[i as int] == elems@[i as int]@);
                assert(nv[i as int] == ref_names@[i as int]@);
            }
            let ghost ei = *self;
            let ghost ui = used_of(*self);
            let ghost di = diags_abs(diags@);
            self.wire_element(b, ref_names[i].as_str(), &elems[i], frag, diags);
            proof {
                let a = elems@[i as int]@;
                lemma_wire_ignores_used(
                    e0,
                    ei,
                    ref_names@[i as int]@,
                    a,
                    static_literal(a, "class"@),
                    static_literal(a, "style"@),
                    frag.indent as nat,
                    sh,
                    ui,
                    di,
                );
            }
            i += 1;
        }
        assert(ev.take(ev.len() as int) =~= ev);
    }

    /// Classifies the attributes of a child component into the members of its
    /// initial props object and the props the parent keeps driving; two-way
    /// bindings and events on a component warn at `range`.
    pub fn build_child_props(
        &mut self,
        props: &[TemplateAttr],
        frag: &Frag,
        range: TextRange,
        diags: &mut Vec<Diagnostic>,
    ) -> (r: (Vec<String>, Vec<ReactiveProp>))
        requires
            forall|k: int| 0 <= k < props@.len() ==> attr_fits(#[trigger] props@[k]),
        ensures
            ({
                let sh = string_views(frag.shadowed@);
                &&& string_views(r.0@) == child_members(*old(self), props@, sh)
                &&& rprops_view(r.1@) == child_reactive(*old(self), props@, sh)
                &&& diags_abs(final(diags)@) == diags_abs(old(diags)@) + child_diags(props@, range)
            }),
            *final(self) == *old(self),
    {
        self.child_props(props, None, frag, range, diags)
    }

    /// [`Emitter::build_child_props`] on the attributes other than the
    /// `:skip="…"` bindings.
    fn child_props(
        &mut self,
        props: &[TemplateAttr],
        skip: Option<&str>,
        frag: &Frag,
        range: TextRange,
        diags: &mut Vec<Diagnostic>,
    ) -> (r: (Vec<String>, Vec<ReactiveProp>))
        requires
            forall|k: int| 0 <= k < props@.len() ==> attr_fits(#[trigger] props@[k]),
        ensures
            ({
                let sh = string_views(frag.shadowed@);
                let kept = without_opt(props@, opt_view(skip));
                &&& string_views(r.0@) == child_members(*old(self), kept, sh)
                &&& rprops_view(r.1@) == child_reactive(*old(self), kept, sh)
                &&& diags_abs(final(diags)@) == diags_abs(old(diags)@) + child_diags(kept, range)
            }),
            *final(self) == *old(self),
    {
        let ghost sh = string_views(frag.shadowed@);
        let ghost d0 = diags_abs(diags@);
        let shadowed = crate::emit::emitter::vec_of(frag.shadowed);
        let mut members: Vec<String> = Vec::new();
        let mut reactive: Vec<ReactiveProp> = Vec::new();
        let mut i: usize = 0;
        while i < props.len()
            invariant
                i <= props@.len(),
                forall|k: int| 0 <= k < props@.len() ==> attr_fits(#[trigger] props@[k]),
                sh == string_views(frag.shadowed@),
                string_views(shadowed@) == sh,
                string_views(members@) == child_members(*self, without_opt(props@.take(i as int), opt_view(skip)), sh),
                rprops_view(reactive@) == child_reactive(*self, without_opt(props@.take(i as int), opt_view(skip)), sh),
                diags_abs(diags@) == d0 + child_diags(without_opt(props@.take(i as int), opt_view(skip)), range),
            decreases props@.len() - i,
        {
            proof {
                assert(props@.take(i + 1).drop_last() =~= props@.take(i as int));
                assert(props@.take(i + 1).last() == props@[i as int]);
                assert(attr_fits(props@[i as int]));
            }
            let ghost m0 = members@;
            let ghost r0 = reactive@;
            let ghost dd = diags@;
            let skipped = match skip {
                Some(n) => match &props[i] {
                    TemplateAttr::Bound { name, .. } => str_eq(name.as_str(), n),
                    _ => false,
                },
                None => false,
            };
            proof {
                let kept_before = without_opt(props@.take(i as int), opt_view(skip));
                if skipped {
                    assert(without_opt(props@.take(i + 1), opt_view(skip)) == kept_before);
                } else {
                    assert(without_opt(props@.take(i + 1), opt_view(skip)) =~= kept_before.push(props@[i as int]));
                    assert(kept_before.push(props@[i as int]).drop_last() =~= kept_before);
                }
            }
            if skipped {
                i += 1;
                continue;
            }
            match &props[i] {
                TemplateAttr::Bound { name, expr, .. } => {
                    let raw = self.bound_attr_deps(name.as_str(), expr.text.as_str());
                    let deps = self.filter_deps(raw, frag.shadowed);
                    let value = rewrite_expr(expr.text.as_str(), self.reactive_vars.as_slice(), &shadowed);
                    let coupled = reads_any(expr.text.as_str(), frag.shadowed);
                    let m = getter_member(name.as_str(), value.as_str());
                    members.push(m);
                    assert(string_views(members@) =~= string_views(m0).push(m@));
                    if deps.len() > 0 || coupled {
                        let p = ReactiveProp { name: String::from_str(name.as_str()), expr: value, deps, coupled };
                        reactive.push(p);
                        assert(rprops_view(reactive@) =~= rprops_view(r0).push(p@));
                    }
                },
                TemplateAttr::Static { name, value, .. } => {
                    let interpolated_value = match value {
                        Some(v) => has_interpolation(v),
                        None => false,
                    };
                    if interpolated_value {
                        match value {
                            Some(v) => {
                                let (lit, deps, coupled) = self.attr_text_value(name.as_str(), v, frag);
                                let m = getter_member(name.as_str(), lit.as_str());
                                members.push(m);
                                assert(string_views(members@) =~= string_views(m0).push(m@));
                                if deps.len() > 0 || coupled {
                                    let p = ReactiveProp {
                                        name: String::from_str(name.as_str()),
                                        expr: lit,
                                        deps,
                                        coupled,
                                    };
                                    reactive.push(p);
                                    assert(rprops_view(reactive@) =~= rprops_view(r0).push(p@));
                                }
                            },
                            None => {},
                        }
                    } else {
                        let val = match value {
                            Some(v) => {
                                let mut t = String::from_str("`");
                                push_escaped_literals(&mut t, &v.segments);
                                t.append("`");
                                t
                            },
                            None => String::from_str("true"),
                        };
                        let mut m = prop_key(name.as_str());
                        m.append(": ");
                        m.append(val.as_str());
                        members.push(m);
                        assert(string_views(members@) =~= string_views(m0).push(m@));
                    }
                },
                TemplateAttr::TwoWay { name, .. } => {
                    let mut msg = String::from_str("two-way binding `::");
                    msg.append(name.as_str());
                    msg.append("` on a component is not supported yet");
                    let d = Diagnostic::warning(range, msg);
                    diags.push(d);
                    assert(diags_abs(diags@) =~= diags_abs(dd).push(diag_abs(d)));
                },
                TemplateAttr::Event { event, handler, .. } => {
                    let key = event_prop_name(event.as_str());
                    let mut m = prop_key(key.as_str());
                    m.append(": ($event) => ");
                    let body = rewrite_expr(handler.text.as_str(), self.reactive_vars.as_slice(), &shadowed);
                    m.append(body.as_str());
                    members.push(m);
                    assert(string_views(members@) =~= string_views(m0).push(m@));
                },
            }
            i += 1;
        }
        assert(props@.take(props@.len() as int) =~= props@);
        (members, reactive)
    }

    /// Writes a text slot: a fresh text anchor `t{n}` at `pos`, and the
    /// assignment of the run's template literal to its `data`, as its
    /// dependencies demand.
    pub fn emit_text_slot(&mut self, b: &mut String, t: &TemplateText, pos: &InsertPos, frag: &Frag)
        requires
            old(self).n_text < usize::MAX,
            exprs_fit(segs_view(t.segments@)),
        ensures
            ({
                let e = *old(self);
                let segs = segs_view(t.segments@);
                let sh = string_views(frag.shadowed@);
                let anchor = "t"@ + dec(e.n_text as nat);
                let deps = segs_deps(e, SDynamicKind::Text, segs, sh);
                &&& final(b)@ == old(b)@ + anchor_text(
                    e,
                    frag.base@,
                    frag.strip as nat,
                    frag.indent as nat,
                    anchor,
                    *pos,
                ) + update_text(
                    e,
                    frag.indent as nat,
                    deps,
                    reads_loop(segs, sh),
                    anchor + ".data = "@ + "`"@ + literal_body(e.reactive_vars@, sh, segs) + "`"@ + ";"@,
                )
                &&& used_of(*final(self)) == update_used(
                    with_helper(used_of(e), anchor_helper(*pos)),
                    deps,
                    reads_loop(segs, sh),
                )
            }),
            *final(self) == (Emitter {
                used: final(self).used,
                n_text: (old(self).n_text + 1) as usize,
                ..*old(self)
            }),
    {
        let anchor = self.alloc_text();
        let ghost b0 = b@;
        self.emit_anchor(b, anchor.as_str(), pos, frag);
        let ghost b1 = b@;
        let (expr, deps, coupled) = self.segments_value(&DynamicKind::Text, &t.segments, frag);
        let mut stmt = String::from_str(anchor.as_str());
        stmt.append(".data = ");
        stmt.append(expr.as_str());
        stmt.append(";");
        self.emit_update(b, frag, deps.as_slice(), coupled, stmt.as_str());
    }

    /// Writes a dynamic component `<component :is="expr" …/>` at `pos`: a
    /// fresh anchor, `dynamicBlock` remounting the factory `expr` with the
    /// initial props, and one driving update per reactive prop. Without `:is`
    /// the block is skipped with a warning at `range` (the open tag).
    pub fn emit_dynamic_slot(
        &mut self,
        b: &mut String,
        attrs: &[TemplateAttr],
        range: TextRange,
        pos: &InsertPos,
        frag: &Frag,
        diags: &mut Vec<Diagnostic>,
    )
        requires
            forall|k: int| 0 <= k < attrs@.len() ==> attr_fits(#[trigger] attrs@[k]),
            old(self).n_anchor < usize::MAX,
            old(self).n_child < usize::MAX,
        ensures
            ({
                let e = *old(self);
                let sh = string_views(frag.shadowed@);
                let level = frag.indent as nat;
                match bound_expr_of(attrs@, "is"@) {
                    None => {
                        &&& final(b)@ == old(b)@ + indent(level) + "/* lunas: block skipped \u{2014} "@
                            + comment_safe(missing_is_message()) + " */\n"@
                        &&& diags_abs(final(diags)@) == diags_abs(old(diags)@).push(
                            SDiag { severity: Severity::Warning, range, message: missing_is_message() },
                        )
                        &&& *final(self) == *old(self)
                    },
                    Some(x) => {
                        let props = without_bound(attrs@, "is"@);
                        let rps = child_reactive(e, props, sh);
                        let anchor = "a"@ + dec(e.n_anchor as nat);
                        let handle = "ch"@ + dec(e.n_child as nat);
                        let deps = ascending_of(|d: u32| bound_deps(e, SDynamicKind::Attribute("is"@), x, sh).contains(d));
                        &&& final(b)@ == old(b)@ + anchor_text(e, frag.base@, frag.strip as nat, level, anchor, *pos)
                            + indent(level) + "const "@ + handle + " = "@ + helper_of(e, "dynamicBlock"@) + "(c, "@
                            + anchor + ", "@ + array_text(deps) + ", () => ("@ + rewritten(x, e.reactive_vars@, sh)
                            + "), {"@ + members_text(child_members(e, props, sh)) + "});\n"@ + setprop_text(
                            e,
                            level,
                            handle,
                            rps,
                        )
                        &&& diags_abs(final(diags)@) == diags_abs(old(diags)@) + child_diags(props, range)
                        &&& used_of(*final(self)) == setprop_used(
                            with_helper(with_helper(used_of(e), anchor_helper(*pos)), "dynamicBlock"@),
                            rps,
                        )
                        &&& *final(self) == (Emitter {
                            used: final(self).used,
                            n_anchor: (e.n_anchor + 1) as usize,
                            n_child: (e.n_child + 1) as usize,
                            ..e
                        })
                    },
                }
            }),
    {
        let ghost e0 = *self;
        let ghost sh = string_views(frag.shadowed@);
        let is_expr = match first_bound(attrs, "is") {
            Some(x) => x,
            None => {
                let msg = String::from_str("`<component>` requires an `:is` binding (e.g. `:is=\"view\"`)");
                self.void_block(b, frag, range, msg.as_str(), diags);
                return;
            },
        };
        let ghost b0 = b@;
        let (members, reactive) = self.child_props(attrs, Some("is"), frag, range, diags);
        proof {
            assert(opt_view(Some("is")) == Some("is"@));
        }
        let anchor = self.alloc_anchor();
        self.emit_anchor(b, anchor.as_str(), pos, frag);
        let ghost b1 = b@;
        let raw = self.bound_attr_deps("is", is_expr.as_str());
        let is_deps = self.filter_deps(raw, frag.shadowed);
        let shadowed = crate::emit::emitter::vec_of(frag.shadowed);
        let is_value = rewrite_expr(is_expr.as_str(), self.reactive_vars.as_slice(), &shadowed);
        let ghost dv = is_deps@;
        assert(dv == bound_deps(e0, SDynamicKind::Attribute("is"@), is_expr@, sh));
        let lists = vec![is_deps];
        let no_names: Vec<String> = Vec::new();
        let all_deps = self.sorted_union(&lists, no_names.as_slice());
        proof {
            let lv = lists_view(lists@);
            assert(lv[0] == dv);
            assert(string_views(no_names@) =~= Seq::<Seq<char>>::empty());
            assert forall|d: u32| all_deps@.contains(d) <==> dv.contains(d) by {
                if dv.contains(d) {
                    assert(lv[0].contains(d));
                }
                if in_some(lv, d) {
                    let j = choose|j: int| 0 <= j < lv.len() && #[trigger] lv[j].contains(d);
                    assert(j == 0);
                }
            }
            lemma_is_ascending_of(all_deps@, |d: u32| dv.contains(d));
            assert(all_deps@ == ascending_of(
                |d: u32| bound_deps(e0, SDynamicKind::Attribute("is"@), is_expr@, sh).contains(d),
            ));
        }
        let handle = self.alloc_child();
        self.use_helper("dynamicBlock");
        push_indent(b, frag.indent);
        let h = self.helper("dynamicBlock");
        b.append("const ");
        b.append(handle.as_str());
        b.append(" = ");
        b.append(h.as_str());
        b.append("(c, ");
        b.append(anchor.as_str());
        b.append(", ");
        push_dep_list(b, all_deps.as_slice());
        b.append(", () => (");
        b.append(is_value.as_str());
        b.append("), {");
        push_members(b, &members);
        b.append("});\n");
        let ghost b2 = b@;
        let ghost e3 = *self;
        let ghost u3 = used_of(*self);
        self.emit_setprops(b, handle.as_str(), &reactive, frag);
        proof {
            lemma_setprop_same(e0, e3, frag.indent as nat, handle@, rprops_view(reactive@));
            assert(b@ == b2 + setprop_text(e0, frag.indent as nat, handle@, rprops_view(reactive@)));
        }
    }

    /// Writes a child-component mount at `pos`: a fresh anchor,
    /// `mountChild(c, anchor, Local, {…})` with the initial props, the
    /// component's `:ref` (if any) assigned the mount handle, and one driving
    /// update per reactive prop. A tag without a `@use` import is skipped with
    /// a warning at `range` (the open tag).
    pub fn emit_component_slot(
        &mut self,
        b: &mut String,
        tag: &str,
        props: &[TemplateAttr],
        range: TextRange,
        pos: &InsertPos,
        frag: &Frag,
        diags: &mut Vec<Diagnostic>,
    )
        requires
            forall|k: int| 0 <= k < props@.len() ==> attr_fits(#[trigger] props@[k]),
            old(self).n_anchor < usize::MAX,
            old(self).n_child < usize::MAX,
        ensures
            ({
                let e = *old(self);
                let sh = string_views(frag.shadowed@);
                let level = frag.indent as nat;
                match import_local(crate::emit::setup::triples_view(e.child_imports@), tag@) {
                    None => {
                        &&& final(b)@ == old(b)@ + indent(level) + "/* lunas: block skipped \u{2014} "@
                            + comment_safe(unknown_tag_message()) + " */\n"@
                        &&& diags_abs(final(diags)@) == diags_abs(old(diags)@).push(
                            SDiag { severity: Severity::Warning, range, message: unknown_tag_message() },
                        )
                        &&& *final(self) == *old(self)
                    },
                    Some(local) => {
                        let kept = without_bound(props@, "ref"@);
                        let rps = child_reactive(e, kept, sh);
                        let anchor = "a"@ + dec(e.n_anchor as nat);
                        let handle = "ch"@ + dec(e.n_child as nat);
                        let target = bound_expr_of(props@, "ref"@);
                        &&& final(b)@ == old(b)@ + anchor_text(e, frag.base@, frag.strip as nat, level, anchor, *pos)
                            + indent(level) + "const "@ + handle + " = "@ + helper_of(e, "mountChild"@) + "(c, "@
                            + anchor + ", "@ + local + ", {"@ + members_text(child_members(e, kept, sh)) + "});\n"@
                            + ref_text(e, level, sh, handle, target) + setprop_text(e, level, handle, rps)
                        &&& diags_abs(final(diags)@) == diags_abs(old(diags)@) + child_diags(kept, range) + ref_diags(
                            e,
                            sh,
                            target,
                            range,
                        )
                        &&& used_of(*final(self)) == setprop_used(
                            with_helper(with_helper(used_of(e), anchor_helper(*pos)), "mountChild"@),
                            rps,
                        )
                        &&& *final(self) == (Emitter {
                            used: final(self).used,
                            n_anchor: (e.n_anchor + 1) as usize,
                            n_child: (e.n_child + 1) as usize,
                            ..e
                        })
                    },
                }
            }),
    {
        let ghost e0 = *self;
        let ghost sh = string_views(frag.shadowed@);
        let local = match self.import_local_of(tag) {
            Some(l) => l,
            None => {
                let msg = String::from_str("child component tag has no matching `@use` import");
                self.void_block(b, frag, range, msg.as_str(), diags);
                return;
            },
        };
        let ref_target = first_bound(props, "ref");
        let ghost d0 = diags_abs(diags@);
        let (members, reactive) = self.child_props(props, Some("ref"), frag, range, diags);
        let ghost d1 = diags_abs(diags@);
        proof {
            assert(opt_view(Some("ref")) == Some("ref"@));
        }
        let anchor = self.alloc_anchor();
        self.emit_anchor(b, anchor.as_str(), pos, frag);
        let handle = self.alloc_child();
        self.use_helper("mountChild");
        push_indent(b, frag.indent);
        let h = self.helper("mountChild");
        b.append("const ");
        b.append(handle.as_str());
        b.append(" = ");
        b.append(h.as_str());
        b.append("(c, ");
        b.append(anchor.as_str());
        b.append(", ");
        b.append(local.as_str());
        b.append(", {");
        push_members(b, &members);
        b.append("});\n");
        let ghost b2 = b@;
        match ref_target {
            Some(t) => {
                self.emit_ref_assign(b, handle.as_str(), t.as_str(), frag, range, diags);
            },
            None => {},
        }
        proof {
            assert(diags_abs(diags@) =~= d1 + ref_diags(e0, sh, bound_expr_of(props@, "ref"@), range));
        }
        let ghost b3 = b@;
        let ghost e3 = *self;
        self.emit_setprops(b, handle.as_str(), &reactive, frag);
        proof {
            lemma_setprop_same(e0, e3, frag.indent as nat, handle@, rprops_view(reactive@));
            assert(b3 == b2 + ref_text(e0, frag.indent as nat, sh, handle@, bound_expr_of(props@, "ref"@)));
        }
    }

    /// The local name `tag` is imported under (see [`import_local`]).
    fn import_local_of(&self, tag: &str) -> (r: Option<String>)
        ensures
            match import_local(crate::emit::setup::triples_view(self.child_imports@), tag@) {
                Some(l) => r matches Some(x) && x@ == l,
                None => r is None,
            },
    {
        let ghost tv = crate::emit::setup::triples_view(self.child_imports@);
        assert(tv.skip(0) =~= tv);
        let mut i: usize = 0;
        while i < self.child_imports.len()
            invariant
                i <= tv.len(),
                tv == crate::emit::setup::triples_view(self.child_imports@),
                import_local(tv, tag@) == import_local(tv.skip(i as int), tag@),
            decreases tv.len() - i,
        {
            assert(tv.skip(i as int)[0] == tv[i as int]);
            if str_eq(self.child_imports[i].0.as_str(), tag) {
                return Some(String::from_str(self.child_imports[i].1.as_str()));
            }
            assert(tv.skip(i as int).drop_first() =~= tv.skip(i + 1));
            i += 1;
        }
        None
    }

    /// Writes one driving update per reactive prop (see [`setprop_text`]).
    fn emit_setprops(&mut self, b: &mut String, handle: &str, rps: &Vec<ReactiveProp>, frag: &Frag)
        ensures
            final(b)@ == old(b)@ + setprop_text(*old(self), frag.indent as nat, handle@, rprops_view(rps@)),
            used_of(*final(self)) == setprop_used(used_of(*old(self)), rprops_view(rps@)),
            *final(self) == (Emitter { used: final(self).used, ..*old(self) }),
    {
        let ghost e0 = *self;
        let ghost b0 = b@;
        let ghost u0 = used_of(*self);
        let ghost rv = rprops_view(rps@);
        let mut i: usize = 0;
        while i < rps.len()
            invariant
                i <= rps@.len(),
                rv == rprops_view(rps@),
                *self == (Emitter { used: self.used, ..e0 }),
                b@ == b0 + setprop_text(e0, frag.indent as nat, handle@, rv.take(i as int)),
                used_of(*self) == setprop_used(u0, rv.take(i as int)),
            decreases rps@.len() - i,
        {
            proof {
                assert(rv.take(i + 1).drop_last() =~= rv.take(i as int));
                assert(rv.take(i + 1).last() == rps@[i as int]@);
            }
            let rp = &rps[i];
            let mut stmt = String::from_str(handle);
            stmt.append(".setProp(");
            let q = crate::emit::js::js_string(rp.name.as_str());
            stmt.append(q.as_str());
            stmt.append(", ");
            stmt.append(rp.expr.as_str());
            stmt.append(");");
            self.emit_update(b, frag, rp.deps.as_slice(), rp.coupled, stmt.as_str());
            i += 1;
        }
        assert(rv.take(rv.len() as int) =~= rv);
    }

    /// Writes `:ref="target"`: the element `handle` assigned into the box of
    /// the reactive variable `target`; a target that is no reactive variable
    /// (or is shadowed by a loop binding) gives a skipped-block comment and a
    /// warning at `range`.
    pub fn emit_ref_assign(
        &mut self,
        b: &mut String,
        handle: &str,
        target: &str,
        frag: &Frag,
        range: TextRange,
        diags: &mut Vec<Diagnostic>,
    )
        ensures
            ({
                let t = trim_white(target@);
                if reactive_target(old(self).reactive_vars@, string_views(frag.shadowed@), t) {
                    &&& final(b)@ == old(b)@ + indent(frag.indent as nat) + t + ".v = "@ + handle@ + ";\n"@
                    &&& final(diags)@ == old(diags)@
                } else {
                    &&& final(b)@ == old(b)@ + indent(frag.indent as nat)
                        + "/* lunas: block skipped \u{2014} "@ + comment_safe(ref_message(t)) + " */\n"@
                    &&& diags_abs(final(diags)@) == diags_abs(old(diags)@).push(
                        SDiag { severity: Severity::Warning, range, message: ref_message(t) },
                    )
                }
            }),
            *final(self) == *old(self),
    {
        let t = trimmed(target);
        let ghost vars = self.reactive_vars@;
        let ghost sh = string_views(frag.shadowed@);
        let mut known = false;
        let mut i: usize = 0;
        while i < self.reactive_vars.len()
            invariant
                i <= vars.len(),
                vars == self.reactive_vars@,
                known == exists|k: int| 0 <= k < i && #[trigger] vars[k].name@ == t@,
            decreases vars.len() - i,
        {
            if str_eq(self.reactive_vars[i].name.as_str(), t.as_str()) {
                known = true;
            }
            proof {
                if known {
                    if !(exists|k: int| 0 <= k < i && #[trigger] vars[k].name@ == t@) {
                        assert(vars[i as int].name@ == t@);
                    }
                } else {
                    assert(vars[i as int].name@ != t@);
                }
            }
            i += 1;
        }
        let shadowed = crate::emit::emitter::names_contain(frag.shadowed, t.as_str());
        if !known || shadowed {
            let mut msg = String::from_str("`:ref` target `");
            msg.append(t.as_str());
            msg.append("` is not a reactive variable (declare it with `let ");
            msg.append(t.as_str());
            msg.append(";` in script)");
            self.void_block(b, frag, range, msg.as_str(), diags);
            return;
        }
        push_indent(b, frag.indent);
        b.append(t.as_str());
        b.append(".v = ");
        b.append(handle);
        b.append(";\n");
    }

    /// Writes `:ref="expr"` (see [`Emitter::emit_ref_assign`]); it has no
    /// range of its own, so a warning points at the start of the file.
    pub fn emit_ref(
        &mut self,
        b: &mut String,
        node: &str,
        expr: &str,
        frag: &Frag,
        diags: &mut Vec<Diagnostic>,
    )
        ensures
            ({
                let t = trim_white(expr@);
                if reactive_target(old(self).reactive_vars@, string_views(frag.shadowed@), t) {
                    &&& final(b)@ == old(b)@ + indent(frag.indent as nat) + t + ".v = "@ + node@ + ";\n"@
                    &&& final(diags)@ == old(diags)@
                } else {
                    &&& final(b)@ == old(b)@ + indent(frag.indent as nat)
                        + "/* lunas: block skipped \u{2014} "@ + comment_safe(ref_message(t)) + " */\n"@
                    &&& diags_abs(final(diags)@) == diags_abs(old(diags)@).push(
                        SDiag {
                            severity: Severity::Warning,
                            range: TextRange::spec_at(0, 0),
                            message: ref_message(t),
                        },
                    )
                }
            }),
            *final(self) == *old(self),
    {
        self.emit_ref_assign(b, node, expr, frag, TextRange::at(0, 0), diags);
    }

    /// The JS template literal of an interpolated static value of attribute
    /// `attr`, the dependencies its interpolations record (each once,
    /// increasing, shadowed ones dropped), and whether one reads a loop
    /// binding.
    pub fn attr_text_value(&self, attr: &str, value: &StaticValue, frag: &Frag) -> (r: (
        String,
        Vec<u32>,
        bool,
    ))
        requires
            exprs_fit(segs_view(value.segments@)),
        ensures
            ({
                let segs = segs_view(value.segments@);
                let sh = string_views(frag.shadowed@);
                &&& r.0@ == "`"@ + literal_body(self.reactive_vars@, sh, segs) + "`"@
                &&& r.1@ == attr_text_deps(*self, attr@, segs, sh)
                &&& r.2 == reads_loop(segs, sh)
            }),
    {
        let kind = DynamicKind::AttributeText(String::from_str(attr));
        self.segments_value(&kind, &value.segments, frag)
    }

    /// The JS template literal of the segments, the dependencies their
    /// interpolations record as parts of kind `kind` (see [`segs_deps`]), and
    /// whether one reads a loop binding.
    pub fn segments_value(&self, kind: &DynamicKind, segments: &Vec<TextSegment>, frag: &Frag) -> (r: (
        String,
        Vec<u32>,
        bool,
    ))
        requires
            exprs_fit(segs_view(segments@)),
        ensures
            ({
                let segs = segs_view(segments@);
                let sh = string_views(frag.shadowed@);
                &&& r.0@ == "`"@ + literal_body(self.reactive_vars@, sh, segs) + "`"@
                &&& r.1@ == segs_deps(*self, kind@, segs, sh)
                &&& r.2 == reads_loop(segs, sh)
            }),
    {
        let ghost segs = segs_view(segments@);
        let ghost sh = string_views(frag.shadowed@);
        let ghost pv = parts_view(self.dynamics@);
        let shadowed = crate::emit::emitter::vec_of(frag.shadowed);
        let mut lists: Vec<Vec<u32>> = Vec::new();
        let mut coupled = false;
        let mut lit = String::from_str("`");
        let mut i: usize = 0;
        while i < segments.len()
            invariant
                i <= segs.len(),
                segs == segs_view(segments@),
                sh == string_views(frag.shadowed@),
                string_views(shadowed@) == sh,
                pv == parts_view(self.dynamics@),
                
                exprs_fit(segs),
                lit@ == "`"@ + literal_body(self.reactive_vars@, sh, segs.take(i as int)),
                lists@.len() == i,
                forall|k: int| 0 <= k < i ==> #[trigger] lists@[k]@ == seg_deps(pv, kind@, segs[k]),
                coupled == exists|k: int| 0 <= k < i && #[trigger] reads_at(segs[k], sh),
            decreases segs.len() - i,
        {
            proof {
                assert(segs.take(i + 1).drop_last() =~= segs.take(i as int));
                assert(segs.take(i + 1).last() == segments@[i as int]@);
                assert(segs[i as int] == segments@[i as int]@);
            }
            let ghost c0 = coupled;
            match &segments[i] {
                TextSegment::Literal { text, .. } => {
                    push_template_literal_chunk(&mut lit, text.as_str());
                    lists.push(Vec::new());
                },
                TextSegment::Interpolation(interp) => {
                    lit.append("${");
                    let e = rewrite_expr(interp.expr.as_str(), self.reactive_vars.as_slice(), &shadowed);
                    lit.append(e.as_str());
                    lit.append("}");
                    let rd = reads_any(interp.expr.as_str(), frag.shadowed);
                    coupled = coupled || rd;
                    let found = self.located_deps_of(kind, interp.expr.as_str(), interp.expr_range);
                    lists.push(found);
                },
            }
            proof {
                if coupled && !c0 {
                    assert(reads_at(segs[i as int], sh));
                }
                if !coupled {
                    assert(!reads_at(segs[i as int], sh));
                }
            }
            i += 1;
        }
        lit.append("`");
        proof {
            assert(segs.take(segs.len() as int) =~= segs);
        }
        let deps = self.sorted_union(&lists, frag.shadowed);
        proof {
            let lv = lists_view(lists@);
            assert forall|x: u32| in_some(lv, x) <==> segs_read(pv, kind@, segs, x) by {
                if in_some(lv, x) {
                    let k = choose|k: int| 0 <= k < lv.len() && #[trigger] lv[k].contains(x);
                    assert(lists@[k]@ == seg_deps(pv, kind@, segs[k]));
                    assert(seg_deps(pv, kind@, segs[k]).contains(x));
                }
                if segs_read(pv, kind@, segs, x) {
                    let k = choose|k: int| 0 <= k < segs.len() && #[trigger] seg_deps(pv, kind@, segs[k]).contains(x);
                    assert(lists@[k]@ == seg_deps(pv, kind@, segs[k]));
                    assert(lv[k].contains(x));
                }
            }
        }
        proof {
            lemma_is_ascending_of(
                deps@,
                |x: u32| segs_read(pv, kind@, segs, x) && dep_kept(self.reactive_vars@, sh, x),
            );
        }
        (lit, deps, coupled)
    }
}

} // verus!
