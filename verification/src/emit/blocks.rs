//! Control-flow blocks of the template: `<teleport>`, `:if` cascades and
//! keyed `:for` lists. Each block's own fragment (its hoisted HTML and the
//! statements that wire it) is emitted by the caller and handed in as text;
//! these functions decide whether the block can be emitted and write the
//! block statement around it.

use vstd::prelude::*;
use vstd::string::{StringExecFns, StringSliceAdditionalSpecFns};

use crate::diagnostic::{diag_abs, diags_abs, Diagnostic, SDiag, Severity};
use crate::emit::bindings::{
    ascending_of, escaped_literals, lemma_is_ascending_of, StaticValue, TemplateAttr, TemplateExpr,
};
use crate::emit::emitter::{
    anchor_helper, anchor_text, ascending, cascade_reads, comment_safe, dep_kept, helper_of,
    if_chain_text, if_helper, kept_deps, part_deps, parts_view, used_of, with_helper, DynamicKind,
    Emitter, Frag, InsertPos, SDynamicKind,
};
use crate::emit::js::{array_text, dec, indent, push_dep_list, push_indent, push_template_literal_chunk};
use crate::emit::names::{binding_names, generated, is_generated_name, pattern_names};
use crate::sfc::for_parser::{law_parse_for_trim, parse_for, parsed_for, ForKind, ParsedFor, SParsedFor};
use crate::text::{concat3, trim_white, trimmed};
use crate::emit::rewrite::{rewrite_expr, rewritten};
use crate::script::analysis::string_views;
use crate::script::json::str_eq;
use crate::sfc::scan::{segs_view, TextSegment};
use crate::span::TextRange;

verus! {

broadcast use vstd::string::group_string_axioms;

/// How deeply control-flow blocks may nest.
pub const MAX_BLOCK_DEPTH: u32 = 32;

/// The comment that stands for a skipped block.
pub open spec fn void_text(level: nat, why: Seq<char>) -> Seq<char> {
    indent(level) + "/* lunas: block skipped \u{2014} "@ + comment_safe(why) + " */\n"@
}

/// The warning for blocks nested past [`MAX_BLOCK_DEPTH`].
pub open spec fn too_deep_message() -> Seq<char> {
    "control flow nested too deeply"@
}

/// The target of a `<teleport>`: the first `to="selector"` (as a template
/// literal of its text) or `:to="expr"` (rewritten); `null` without one.
pub open spec fn teleport_target(e: Emitter, attrs: Seq<TemplateAttr>, sh: Seq<Seq<char>>) -> Seq<char>
    decreases attrs.len(),
{
    if attrs.len() == 0 {
        "null"@
    } else {
        match attrs[0] {
            TemplateAttr::Static { name, value: Some(v), .. } => if name@ == "to"@ {
                "`"@ + escaped_literals(segs_view(v.segments@)) + "`"@
            } else {
                teleport_target(e, attrs.drop_first(), sh)
            },
            TemplateAttr::Bound { name, expr, .. } => if name@ == "to"@ {
                rewritten(expr.text@, e.reactive_vars@, sh)
            } else {
                teleport_target(e, attrs.drop_first(), sh)
            },
            _ => teleport_target(e, attrs.drop_first(), sh),
        }
    }
}

/// Every `:to` expression fits 32-bit offsets.
pub open spec fn to_exprs_fit(attrs: Seq<TemplateAttr>) -> bool {
    forall|k: int|
        0 <= k < attrs.len() ==> (#[trigger] attrs[k] matches TemplateAttr::Bound { expr, .. }
            ==> vstd::utf8::encode_utf8(expr.text@).len() <= u32::MAX)
}

/// The statement of a `<teleport>` whose body fragment is `body`.
pub open spec fn teleport_text(
    e: Emitter,
    frag_base: Seq<char>,
    strip: nat,
    level: nat,
    target: Seq<char>,
    body: Seq<char>,
    pos: InsertPos,
) -> Seq<char> {
    let anchor = "a"@ + dec(e.n_anchor as nat);
    let html = "HTML_"@ + dec((e.n_html + 1) as nat);
    let root = "r"@ + dec(e.n_root as nat);
    anchor_text(e, frag_base, strip, level, anchor, pos) + teleport_block(
        level,
        helper_of(e, "teleportBlock"@),
        anchor,
        target,
        root,
        helper_of(e, "fromHTML"@),
        html,
        body,
    )
}

/// A branch of an `:if` cascade: its condition (`None` for `:else`), its
/// range, and whether its body is a component.
pub type IfBranch = (Option<TemplateExpr>, TextRange, bool);

/// The first branch whose body is a component, with its warning.
pub open spec fn first_component(brs: Seq<IfBranch>) -> Option<(TextRange, Seq<char>)>
    decreases brs.len(),
{
    if brs.len() == 0 {
        None
    } else if brs[0].2 {
        Some((brs[0].1, "`:if` on a component is not supported yet"@))
    } else {
        first_component(brs.drop_first())
    }
}

/// Why an `:if` cascade is skipped, and where: nesting past the limit, or a
/// branch whose body is a component.
pub open spec fn if_refusal(depth: u32, range: TextRange, brs: Seq<IfBranch>) -> Option<(TextRange, Seq<char>)> {
    if depth >= MAX_BLOCK_DEPTH {
        Some((range, too_deep_message()))
    } else {
        first_component(brs)
    }
}

/// The conditions of the branches that have one, with their ranges.
pub open spec fn branch_conds(brs: Seq<IfBranch>) -> Seq<(Seq<char>, TextRange)>
    decreases brs.len(),
{
    if brs.len() == 0 {
        Seq::empty()
    } else {
        let rest = branch_conds(brs.drop_last());
        match brs.last().0 {
            Some(c) => rest.push((c.text@, c.range)),
            None => rest,
        }
    }
}

/// The conditions of the branches that have one, rewritten.
pub open spec fn branch_texts(e: Emitter, brs: Seq<IfBranch>, sh: Seq<Seq<char>>) -> Seq<Seq<char>>
    decreases brs.len(),
{
    if brs.len() == 0 {
        Seq::empty()
    } else {
        let rest = branch_texts(e, brs.drop_last(), sh);
        match brs.last().0 {
            Some(c) => rest.push(rewritten(c.text@, e.reactive_vars@, sh)),
            None => rest,
        }
    }
}

/// The dependencies that drive a cascade (see [`Emitter::cascade_deps`]).
pub open spec fn if_deps(e: Emitter, brs: Seq<IfBranch>, sh: Seq<Seq<char>>) -> Seq<u32> {
    ascending_of(
        |x: u32| cascade_reads(parts_view(e.dynamics@), branch_conds(brs), x) && dep_kept(e.reactive_vars@, sh, x),
    )
}

/// Every condition fits 32-bit offsets.
pub open spec fn conds_fit(brs: Seq<IfBranch>) -> bool {
    forall|k: int|
        0 <= k < brs.len() ==> (#[trigger] brs[k].0 matches Some(c) ==> vstd::utf8::encode_utf8(c.text@).len()
            <= u32::MAX)
}

/// The statement of an `:if` cascade with branch bodies `bodies`.
pub open spec fn if_slot_text(
    e: Emitter,
    frag_base: Seq<char>,
    strip: nat,
    level: nat,
    brs: Seq<IfBranch>,
    bodies: Seq<Seq<char>>,
    sh: Seq<Seq<char>>,
    pos: InsertPos,
) -> Seq<char> {
    let anchor = "a"@ + dec(e.n_anchor as nat);
    anchor_text(e, frag_base, strip, level, anchor, pos) + if_chain_text(
        e,
        level,
        anchor,
        if_deps(e, brs, sh),
        branch_texts(e, brs, sh),
        brs.len() > 0 && brs.last().0 is None,
        bodies,
    )
}

/// Why a `:for` is skipped, and where: nesting past the limit, a header that
/// is no `for … of` / `for … in` header, an `:if` or a component on the same
/// element, a binding pattern that binds nothing, or one that binds a name
/// like the emitter's own locals.
pub open spec fn for_refusal(
    depth: u32,
    range: TextRange,
    header: TemplateExpr,
    has_if: bool,
    on_component: bool,
) -> Option<(TextRange, Seq<char>)> {
    if depth >= MAX_BLOCK_DEPTH {
        Some((range, too_deep_message()))
    } else {
        match parsed_for(header.text@) {
            None => Some((header.range, "unrecognized `:for` header (expected e.g. `item of items`)"@)),
            Some(p) => if has_if {
                Some(
                    (
                        range,
                        "`:if` on the same element as `:for` is not supported yet (wrap the element in the `:if` instead)"@,
                    ),
                )
            } else if on_component {
                Some((range, "`:for` on a component is not supported yet"@))
            } else if pattern_names(p.binding).len() == 0 {
                Some((header.range, "could not resolve the `:for` binding pattern"@))
            } else if any_generated(pattern_names(p.binding)) {
                Some(
                    (
                        header.range,
                        "`:for` binding name collides with a compiler-generated identifier (e0/t0/a0/r0/d0 style); please rename it"@,
                    ),
                )
            } else {
                None
            }
        }
    }
}

/// Some name looks like one of the emitter's own locals.
pub open spec fn any_generated(ns: Seq<Seq<char>>) -> bool {
    exists|k: int| 0 <= k < ns.len() && #[trigger] generated(ns[k])
}

/// `sh` with each name of `ns` added unless it is there already.
pub open spec fn add_names(sh: Seq<Seq<char>>, ns: Seq<Seq<char>>) -> Seq<Seq<char>>
    decreases ns.len(),
{
    if ns.len() == 0 {
        sh
    } else {
        let acc = add_names(sh, ns.drop_last());
        if acc.contains(ns.last()) {
            acc
        } else {
            acc.push(ns.last())
        }
    }
}

/// The item list a `:for` walks: the iterable's values (`of`) or keys (`in`).
pub open spec fn items_text(kind: ForKind, it: Seq<char>) -> Seq<char> {
    match kind {
        ForKind::Of => "Array.from(("@ + it + ") || [])"@,
        ForKind::In => "Object.keys(("@ + it + ") || {})"@,
    }
}

/// `forBlock(c, anchor, deps, () => items, {`.
pub open spec fn for_head(level: nat, fb: Seq<char>, anchor: Seq<char>, deps: Seq<u32>, items: Seq<char>) -> Seq<char> {
    indent(level) + fb + "(c, "@ + anchor + ", "@ + array_text(deps) + ", () => "@ + items + ", {\n"@
}

/// The `html:` and `wire:` members: the item root and its data bound to the
/// loop binding, the item body, and the patch function.
pub open spec fn for_wire(
    level: nat,
    html: Seq<char>,
    root: Seq<char>,
    dw: Seq<char>,
    bind: Seq<char>,
    body: Seq<char>,
    dp: Seq<char>,
) -> Seq<char> {
    for_wire_open(level, html, root, dw, bind) + body + for_wire_close(level, bind, dp)
}

pub open spec fn for_wire_open(level: nat, html: Seq<char>, root: Seq<char>, dw: Seq<char>, bind: Seq<char>) -> Seq<char> {
    indent(level + 1) + "html: "@ + html + ",\n"@ + indent(level + 1) + "wire: ("@ + root + ", "@ + dw
        + ") => {\n"@ + indent(level + 2) + "let "@ + bind + " = "@ + dw + ";\n"@
}

pub open spec fn for_wire_close(level: nat, bind: Seq<char>, dp: Seq<char>) -> Seq<char> {
    indent(level + 2) + "return ("@ + dp + ") => { ("@ + bind + " = "@ + dp + "); };\n"@ + indent(level + 1)
        + "},\n"@
}

/// The `keyOf:` member.
pub open spec fn for_key(level: nat, dk: Seq<char>, bind: Seq<char>, key: Seq<char>) -> Seq<char> {
    indent(level + 1) + "keyOf: ("@ + dk + ") => { const "@ + bind + " = "@ + dk + "; return ("@ + key
        + "); },\n"@
}

/// The statement of a `:for` whose header reads `p`.
pub open spec fn for_text(
    e: Emitter,
    frag_base: Seq<char>,
    strip: nat,
    level: nat,
    p: SParsedFor,
    key: Option<Seq<char>>,
    sh: Seq<Seq<char>>,
    item_body: Seq<char>,
    pos: InsertPos,
) -> Seq<char> {
    let anchor = "a"@ + dec(e.n_anchor as nat);
    let html = "HTML_"@ + dec((e.n_html + 1) as nat);
    let root = "r"@ + dec(e.n_root as nat);
    let bind = trim_white(p.binding);
    let deps = kept_deps(
        e.reactive_vars@,
        sh,
        part_deps(parts_view(e.dynamics@), SDynamicKind::ForIterable, p.iterable),
    );
    let child_sh = add_names(sh, pattern_names(p.binding));
    anchor_text(e, frag_base, strip, level, anchor, pos) + for_head(
        level,
        helper_of(e, "forBlock"@),
        anchor,
        deps,
        items_text(p.kind, rewritten(p.iterable, e.reactive_vars@, sh)),
    ) + for_wire(
        level,
        html,
        root,
        "d"@ + dec(e.n_data as nat),
        bind,
        item_body,
        "d"@ + dec((e.n_data + 1) as nat),
    ) + match key {
        Some(k) => for_key(
            level,
            "d"@ + dec((e.n_data + 2) as nat),
            bind,
            rewritten(k, e.reactive_vars@, child_sh),
        ),
        None => Seq::empty(),
    } + indent(level) + "});\n"@
}

impl Emitter {
    /// Writes a `<teleport>` at `pos`: a fresh anchor, the body's HTML hoisted
    /// as `HTML_{n}`, and `teleportBlock` building the body (`body`, the
    /// statements that wire it from root `r{n}`) into the target. Past the
    /// nesting limit the block is skipped with a warning at `open_tag_range`.
    pub fn emit_teleport_slot(
        &mut self,
        b: &mut String,
        attrs: &[TemplateAttr],
        open_tag_range: TextRange,
        body_html: String,
        body: &str,
        pos: &InsertPos,
        frag: &Frag,
        diags: &mut Vec<Diagnostic>,
    )
        requires
            to_exprs_fit(attrs@),
            old(self).n_anchor < usize::MAX,
            old(self).n_html < usize::MAX,
            old(self).n_root < usize::MAX,
            frag.indent < usize::MAX,
        ensures
            ({
                let e = *old(self);
                let sh = string_views(frag.shadowed@);
                let level = frag.indent as nat;
                if frag.depth >= MAX_BLOCK_DEPTH {
                    &&& final(b)@ == old(b)@ + void_text(level, too_deep_message())
                    &&& diags_abs(final(diags)@) == diags_abs(old(diags)@).push(
                        SDiag { severity: Severity::Warning, range: open_tag_range, message: too_deep_message() },
                    )
                    &&& *final(self) == *old(self)
                } else {
                    &&& final(b)@ == old(b)@ + teleport_text(
                        e,
                        frag.base@,
                        frag.strip as nat,
                        level,
                        teleport_target(e, attrs@, sh),
                        body@,
                        *pos,
                    )
                    &&& final(diags)@ == old(diags)@
                    &&& used_of(*final(self)) == with_helper(
                        with_helper(with_helper(used_of(e), anchor_helper(*pos)), "teleportBlock"@),
                        "fromHTML"@,
                    )
                    &&& crate::emit::script::aliases_view(final(self).hoisted@)
                        == crate::emit::script::aliases_view(e.hoisted@).push(
                        ("HTML_"@ + dec((e.n_html + 1) as nat), body_html@),
                    )
                    &&& *final(self) == (Emitter {
                        used: final(self).used,
                        hoisted: final(self).hoisted,
                        n_anchor: (e.n_anchor + 1) as usize,
                        n_html: (e.n_html + 1) as usize,
                        n_root: (e.n_root + 1) as usize,
                        ..e
                    })
                }
            }),
    {
        if frag.depth >= MAX_BLOCK_DEPTH {
            let msg = String::from_str("control flow nested too deeply");
            self.void_block(b, frag, open_tag_range, msg.as_str(), diags);
            return;
        }
        let ghost e0 = *self;
        let target = self.teleport_target_of(attrs, frag);
        let anchor = self.alloc_anchor();
        self.emit_anchor(b, anchor.as_str(), pos, frag);
        let html_name = self.hoist_html(body_html);
        let root = self.alloc_root();
        self.use_helper("teleportBlock");
        self.use_helper("fromHTML");
        let h = self.helper("teleportBlock");
        let f = self.helper("fromHTML");
        push_teleport_block(
            b,
            frag.indent,
            h.as_str(),
            anchor.as_str(),
            target.as_str(),
            root.as_str(),
            f.as_str(),
            html_name.as_str(),
            body,
        );
    }

    /// Writes an `:if` cascade at `pos` (see [`if_slot_text`]): a fresh
    /// anchor and the `ifBlock` / `ifChain` statement over the branch bodies
    /// `bodies` (each branch's emitted `make` body), driven by the union of
    /// the conditions' dependencies. A cascade nested past the limit, or with
    /// a component branch, is skipped with a warning (see [`if_refusal`]).
    pub fn emit_if_slot(
        &mut self,
        b: &mut String,
        conds: &[IfBranch],
        bodies: &[String],
        range: TextRange,
        pos: &InsertPos,
        frag: &Frag,
        diags: &mut Vec<Diagnostic>,
    )
        requires
            conds@.len() >= 1,
            bodies@.len() == conds@.len(),
            conds@.len() == 1 ==> conds@[0].0 is Some,
            conds_fit(conds@),
            old(self).n_anchor < usize::MAX,
            frag.indent < usize::MAX,
        ensures
            ({
                let e = *old(self);
                let sh = string_views(frag.shadowed@);
                let level = frag.indent as nat;
                match if_refusal(frag.depth, range, conds@) {
                    Some((r, why)) => {
                        &&& final(b)@ == old(b)@ + void_text(level, why)
                        &&& diags_abs(final(diags)@) == diags_abs(old(diags)@).push(
                            SDiag { severity: Severity::Warning, range: r, message: why },
                        )
                        &&& *final(self) == *old(self)
                    },
                    None => {
                        &&& final(b)@ == old(b)@ + if_slot_text(
                            e,
                            frag.base@,
                            frag.strip as nat,
                            level,
                            conds@,
                            string_views(bodies@),
                            sh,
                            *pos,
                        )
                        &&& final(diags)@ == old(diags)@
                        &&& used_of(*final(self)) == with_helper(
                            with_helper(used_of(e), anchor_helper(*pos)),
                            if_helper(bodies@.len()),
                        )
                        &&& *final(self) == (Emitter {
                            used: final(self).used,
                            n_anchor: (e.n_anchor + 1) as usize,
                            ..e
                        })
                    },
                }
            }),
    {
        let ghost e0 = *self;
        let ghost sh = string_views(frag.shadowed@);
        if frag.depth >= MAX_BLOCK_DEPTH {
            let msg = String::from_str("control flow nested too deeply");
            self.void_block(b, frag, range, msg.as_str(), diags);
            return;
        }
        let ghost brs = conds@;
        assert(brs.skip(0) =~= brs);
        let mut i: usize = 0;
        while i < conds.len()
            invariant
                i <= brs.len(),
                brs == conds@,
                *self == e0,
                e0 == *old(self),
                frag.depth < MAX_BLOCK_DEPTH,
                b@ == old(b)@,
                diags@ == old(diags)@,
                first_component(brs) == first_component(brs.skip(i as int)),
            decreases brs.len() - i,
        {
            assert(brs.skip(i as int)[0] == brs[i as int]);
            if conds[i].2 {
                assert(first_component(brs.skip(i as int)) == Some(
                    (brs[i as int].1, "`:if` on a component is not supported yet"@),
                ));
                assert(if_refusal(frag.depth, range, brs) == Some(
                    (brs[i as int].1, "`:if` on a component is not supported yet"@),
                ));
                let msg = String::from_str("`:if` on a component is not supported yet");
                self.void_block(b, frag, conds[i].1, msg.as_str(), diags);
                assert(b@ =~= old(b)@ + void_text(frag.indent as nat, msg@));
                assert(*self == *old(self));
                assert(diags_abs(diags@) == diags_abs(old(diags)@).push(
                    SDiag { severity: Severity::Warning, range: brs[i as int].1, message: msg@ },
                ));
                return;
            }
            assert(brs.skip(i as int).drop_first() =~= brs.skip(i + 1));
            i += 1;
        }
        assert(brs.skip(i as int).len() == 0);
        let anchor = self.alloc_anchor();
        self.emit_anchor(b, anchor.as_str(), pos, frag);
        let shadowed = crate::emit::emitter::vec_of(frag.shadowed);
        let mut list: Vec<(String, TextRange)> = Vec::new();
        let mut texts: Vec<String> = Vec::new();
        let mut k: usize = 0;
        while k < conds.len()
            invariant
                k <= brs.len(),
                brs == conds@,
                conds_fit(brs),
                sh == string_views(frag.shadowed@),
                string_views(shadowed@) == sh,
                self.reactive_vars@ == e0.reactive_vars@,
                crate::emit::emitter::conds_view(list@) == branch_conds(brs.take(k as int)),
                string_views(texts@) == branch_texts(e0, brs.take(k as int), sh),
            decreases brs.len() - k,
        {
            proof {
                assert(brs.take(k + 1).drop_last() =~= brs.take(k as int));
                assert(brs.take(k + 1).last() == brs[k as int]);
            }
            match &conds[k].0 {
                Some(c) => {
                    assert(brs[k as int].0 matches Some(c) ==> vstd::utf8::encode_utf8(c.text@).len() <= u32::MAX);
                    let ghost l0 = list@;
                    let ghost t0 = texts@;
                    let entry = (String::from_str(c.text.as_str()), c.range);
                    list.push(entry);
                    let t = rewrite_expr(c.text.as_str(), self.reactive_vars.as_slice(), &shadowed);
                    texts.push(t);
                    assert(crate::emit::emitter::conds_view(list@) =~= crate::emit::emitter::conds_view(l0).push(
                        (c.text@, c.range),
                    ));
                    assert(string_views(texts@) =~= string_views(t0).push(t@));
                },
                None => {},
            }
            k += 1;
        }
        assert(brs.take(brs.len() as int) =~= brs);
        let deps = self.cascade_deps(list.as_slice(), frag.shadowed);
        proof {
            lemma_is_ascending_of(
                deps@,
                |x: u32| cascade_reads(parts_view(e0.dynamics@), branch_conds(brs), x) && dep_kept(
                    e0.reactive_vars@,
                    sh,
                    x,
                ),
            );
            if brs.len() == 1 {
                assert(brs.take(1).drop_last() =~= Seq::<IfBranch>::empty());
                assert(branch_texts(e0, brs, sh).len() >= 1);
            }
        }
        let has_else = match &conds[conds.len() - 1].0 {
            Some(_) => false,
            None => true,
        };
        self.emit_if_chain(b, anchor.as_str(), deps.as_slice(), texts.as_slice(), has_else, bodies, frag);
    }

    /// Writes a keyed `:for` list at `pos` (see [`for_text`]): a fresh anchor,
    /// the item's HTML hoisted, and `forBlock` over the iterable's values or
    /// keys, wiring each item with `item_body` (the item's statements, with
    /// the loop binding's names shadowing reactive variables) and keying it by
    /// `key` when given. A list that cannot be emitted is skipped with a
    /// warning (see [`for_refusal`]).
    pub fn emit_for_slot(
        &mut self,
        b: &mut String,
        header: &TemplateExpr,
        key: Option<&TemplateExpr>,
        range: TextRange,
        on_component: bool,
        has_if: bool,
        item_html: String,
        item_body: &str,
        pos: &InsertPos,
        frag: &Frag,
        diags: &mut Vec<Diagnostic>,
    )
        requires
            vstd::utf8::encode_utf8(header.text@).len() + 7 <= u32::MAX,
            key matches Some(k) ==> vstd::utf8::encode_utf8(k.text@).len() <= u32::MAX,
            old(self).n_anchor < usize::MAX,
            old(self).n_html < usize::MAX,
            old(self).n_root < usize::MAX,
            old(self).n_data + 3 <= usize::MAX,
            frag.indent + 2 <= usize::MAX,
        ensures
            ({
                let e = *old(self);
                let sh = string_views(frag.shadowed@);
                let level = frag.indent as nat;
                match for_refusal(frag.depth, range, *header, has_if, on_component) {
                    Some((r, why)) => {
                        &&& final(b)@ == old(b)@ + void_text(level, why)
                        &&& diags_abs(final(diags)@) == diags_abs(old(diags)@).push(
                            SDiag { severity: Severity::Warning, range: r, message: why },
                        )
                        &&& *final(self) == *old(self)
                    },
                    None => {
                        let p = parsed_for(header.text@)->Some_0;
                        &&& final(b)@ == old(b)@ + for_text(
                            e,
                            frag.base@,
                            frag.strip as nat,
                            level,
                            p,
                            match key {
                                Some(k) => Some(k.text@),
                                None => None,
                            },
                            sh,
                            item_body@,
                            *pos,
                        )
                        &&& final(diags)@ == old(diags)@
                        &&& used_of(*final(self)) == with_helper(
                            with_helper(used_of(e), anchor_helper(*pos)),
                            "forBlock"@,
                        )
                        &&& crate::emit::script::aliases_view(final(self).hoisted@)
                            == crate::emit::script::aliases_view(e.hoisted@).push(
                            ("HTML_"@ + dec((e.n_html + 1) as nat), item_html@),
                        )
                        &&& *final(self) == (Emitter {
                            used: final(self).used,
                            hoisted: final(self).hoisted,
                            n_anchor: (e.n_anchor + 1) as usize,
                            n_html: (e.n_html + 1) as usize,
                            n_root: (e.n_root + 1) as usize,
                            n_data: (e.n_data + if key is Some {
                                3int
                            } else {
                                2int
                            }) as usize,
                            ..e
                        })
                    },
                }
            }),
    {
        match for_check(header, range, has_if, on_component, frag.depth) {
            Err((r, why)) => {
                self.void_block(b, frag, r, why.as_str(), diags);
            },
            Ok((parsed, names)) => {
                self.emit_for_list(b, &parsed, &names, key, item_html, item_body, pos, frag);
            },
        }
    }

    /// Writes the statement of a `:for` whose header is `parsed` and whose
    /// binding binds `names` (see [`for_text`]).
    #[verifier::rlimit(60)]
    fn emit_for_list(
        &mut self,
        b: &mut String,
        parsed: &ParsedFor,
        names: &Vec<String>,
        key: Option<&TemplateExpr>,
        item_html: String,
        item_body: &str,
        pos: &InsertPos,
        frag: &Frag,
    )
        requires
            string_views(names@) == pattern_names(parsed.binding@),
            vstd::utf8::encode_utf8(parsed.iterable@).len() <= u32::MAX,
            key matches Some(k) ==> vstd::utf8::encode_utf8(k.text@).len() <= u32::MAX,
            old(self).n_anchor < usize::MAX,
            old(self).n_html < usize::MAX,
            old(self).n_root < usize::MAX,
            old(self).n_data + 3 <= usize::MAX,
            frag.indent + 2 <= usize::MAX,
        ensures
            ({
                let e = *old(self);
                &&& final(b)@ == old(b)@ + for_text(
                    e,
                    frag.base@,
                    frag.strip as nat,
                    frag.indent as nat,
                    parsed@,
                    match key {
                        Some(k) => Some(k.text@),
                        None => None,
                    },
                    string_views(frag.shadowed@),
                    item_body@,
                    *pos,
                )
                &&& used_of(*final(self)) == with_helper(with_helper(used_of(e), anchor_helper(*pos)), "forBlock"@)
                &&& crate::emit::script::aliases_view(final(self).hoisted@)
                    == crate::emit::script::aliases_view(e.hoisted@).push(
                    ("HTML_"@ + dec((e.n_html + 1) as nat), item_html@),
                )
                &&& *final(self) == (Emitter {
                    used: final(self).used,
                    hoisted: final(self).hoisted,
                    n_anchor: (e.n_anchor + 1) as usize,
                    n_html: (e.n_html + 1) as usize,
                    n_root: (e.n_root + 1) as usize,
                    n_data: (e.n_data + if key is Some {
                        3int
                    } else {
                        2int
                    }) as usize,
                    ..e
                })
            }),
    {
        let ghost e0 = *self;
        let ghost b0 = b@;
        let ghost sh = string_views(frag.shadowed@);
        let ghost level = frag.indent as nat;
        let outer = crate::emit::emitter::vec_of(frag.shadowed);
        let child = extend_names(&outer, names);
        let anchor = self.alloc_anchor();
        self.emit_anchor(b, anchor.as_str(), pos, frag);
        let ghost b1 = b@;
        assert(b1 == b0 + anchor_text(e0, frag.base@, frag.strip as nat, level, anchor@, *pos));
        let (items, deps) = self.for_items(parsed, frag);
        let html_name = self.hoist_html(item_html);
        let root = self.alloc_root();
        let d_wire = self.alloc_data();
        let d_patch = self.alloc_data();
        self.use_helper("forBlock");
        let fb = self.helper("forBlock");
        let bind = trimmed(parsed.binding.as_str());
        push_for_head(b, frag.indent, fb.as_str(), anchor.as_str(), deps.as_slice(), items.as_str());
        let ghost b2 = b@;
        push_for_wire(
            b,
            frag.indent,
            html_name.as_str(),
            root.as_str(),
            d_wire.as_str(),
            bind.as_str(),
            item_body,
            d_patch.as_str(),
        );
        let ghost b3 = b@;
        let ghost key_part: Seq<char> = Seq::empty();
        match key {
            Some(k) => {
                let d_key = self.alloc_data();
                let key_js = rewrite_expr(k.text.as_str(), self.reactive_vars.as_slice(), &child);
                push_for_key(b, frag.indent, d_key.as_str(), bind.as_str(), key_js.as_str());
                proof {
                    key_part = for_key(level, d_key@, bind@, key_js@);
                }
            },
            None => {},
        }
        let ghost b4 = b@;
        assert(b4 == b3 + key_part);
        push_indent(b, frag.indent);
        b.append("});\n");
        assert(b@ =~= b0 + (anchor_text(e0, frag.base@, frag.strip as nat, level, anchor@, *pos) + for_head(
            level,
            fb@,
            anchor@,
            deps@,
            items@,
        ) + for_wire(level, html_name@, root@, d_wire@, bind@, item_body@, d_patch@) + key_part + indent(level)
            + "});\n"@));
    }

    /// The item list expression of a `:for` and the dependencies that drive
    /// it.
    fn for_items(&self, parsed: &ParsedFor, frag: &Frag) -> (r: (String, Vec<u32>))
        requires
            vstd::utf8::encode_utf8(parsed.iterable@).len() <= u32::MAX,
        ensures
            ({
                let sh = string_views(frag.shadowed@);
                &&& r.0@ == items_text(parsed.kind, rewritten(parsed.iterable@, self.reactive_vars@, sh))
                &&& r.1@ == kept_deps(
                    self.reactive_vars@,
                    sh,
                    part_deps(parts_view(self.dynamics@), SDynamicKind::ForIterable, parsed.iterable@),
                )
            }),
    {
        let outer = crate::emit::emitter::vec_of(frag.shadowed);
        let iterable = rewrite_expr(parsed.iterable.as_str(), self.reactive_vars.as_slice(), &outer);
        let items = match parsed.kind {
            ForKind::Of => concat3("Array.from((", iterable.as_str(), ") || [])"),
            ForKind::In => concat3("Object.keys((", iterable.as_str(), ") || {})"),
        };
        let raw = self.loose_deps_of(&DynamicKind::ForIterable, parsed.iterable.as_str());
        let deps = self.filter_deps(raw, frag.shadowed);
        (items, deps)
    }

    /// The dependencies of the first part of kind `kind` for `expr` (see
    /// [`part_deps`]).
    pub fn loose_deps_of(&self, kind: &DynamicKind, expr: &str) -> (r: Vec<u32>)
        ensures
            r@ == part_deps(parts_view(self.dynamics@), kind@, expr@),
    {
        let ghost pv = parts_view(self.dynamics@);
        assert(pv.skip(0) =~= pv);
        let mut i: usize = 0;
        while i < self.dynamics.len()
            invariant
                i <= pv.len(),
                pv == parts_view(self.dynamics@),
                part_deps(pv, kind@, expr@) == part_deps(pv.skip(i as int), kind@, expr@),
            decreases pv.len() - i,
        {
            assert(pv.skip(i as int)[0] == self.dynamics@[i as int]@);
            let p = &self.dynamics[i];
            if crate::emit::emitter::same_kind(&p.kind, kind) && str_eq(p.expr.as_str(), expr) {
                let mut out: Vec<u32> = Vec::new();
                let mut j: usize = 0;
                while j < p.deps.len()
                    invariant
                        j <= p.deps@.len(),
                        out@ == p.deps@.take(j as int),
                    decreases p.deps@.len() - j,
                {
                    out.push(p.deps[j]);
                    assert(out@ =~= p.deps@.take(j + 1));
                    j += 1;
                }
                assert(p.deps@.take(p.deps@.len() as int) =~= p.deps@);
                return out;
            }
            assert(pv.skip(i as int).drop_first() =~= pv.skip(i + 1));
            i += 1;
        }
        Vec::new()
    }

    /// The target of a `<teleport>` (see [`teleport_target`]).
    fn teleport_target_of(&self, attrs: &[TemplateAttr], frag: &Frag) -> (r: String)
        requires
            to_exprs_fit(attrs@),
        ensures
            r@ == teleport_target(*self, attrs@, string_views(frag.shadowed@)),
    {
        let ghost sh = string_views(frag.shadowed@);
        let shadowed = crate::emit::emitter::vec_of(frag.shadowed);
        assert(attrs@.skip(0) =~= attrs@);
        let mut i: usize = 0;
        while i < attrs.len()
            invariant
                i <= attrs@.len(),
                to_exprs_fit(attrs@),
                sh == string_views(frag.shadowed@),
                string_views(shadowed@) == sh,
                teleport_target(*self, attrs@, sh) == teleport_target(*self, attrs@.skip(i as int), sh),
            decreases attrs@.len() - i,
        {
            assert(attrs@.skip(i as int)[0] == attrs@[i as int]);
            match &attrs[i] {
                TemplateAttr::Static { name, value: Some(v), .. } => {
                    if str_eq(name.as_str(), "to") {
                        let mut s = String::from_str("`");
                        push_literals(&mut s, &v.segments);
                        s.append("`");
                        return s;
                    }
                },
                TemplateAttr::Bound { name, expr, .. } => {
                    if str_eq(name.as_str(), "to") {
                        assert(to_exprs_fit(attrs@) ==> (attrs@[i as int] matches TemplateAttr::Bound { expr, .. }
                            ==> vstd::utf8::encode_utf8(expr.text@).len() <= u32::MAX));
                        return rewrite_expr(expr.text.as_str(), self.reactive_vars.as_slice(), &shadowed);
                    }
                },
                _ => {},
            }
            assert(attrs@.skip(i as int).drop_first() =~= attrs@.skip(i + 1));
            i += 1;
        }
        String::from_str("null")
    }
}


/// Whether a `:for` can be emitted (see [`for_refusal`]): its parsed header
/// and the names its binding binds, or where and why it is skipped.
fn for_check(header: &TemplateExpr, range: TextRange, has_if: bool, on_component: bool, depth: u32) -> (r: Result<
    (ParsedFor, Vec<String>),
    (TextRange, String),
>)
    requires
        vstd::utf8::encode_utf8(header.text@).len() + 7 <= u32::MAX,
    ensures
        match r {
            Err((rg, why)) => for_refusal(depth, range, *header, has_if, on_component) == Some((rg, why@)),
            Ok((p, names)) => {
                &&& for_refusal(depth, range, *header, has_if, on_component) is None
                &&& parsed_for(header.text@) == Some(p@)
                &&& string_views(names@) == pattern_names(p.binding@)
                &&& vstd::utf8::encode_utf8(p.iterable@).len() <= u32::MAX
            },
        },
{
    if depth >= MAX_BLOCK_DEPTH {
        return Err((range, String::from_str("control flow nested too deeply")));
    }
    let parsed = match parse_for(header.text.as_str()) {
        Some(p) => p,
        None => {
            return Err((header.range, String::from_str("unrecognized `:for` header (expected e.g. `item of items`)")));
        },
    };
    proof {
        law_parse_for_trim(header.text@);
    }
    if has_if {
        return Err(
            (
                range,
                String::from_str(
                    "`:if` on the same element as `:for` is not supported yet (wrap the element in the `:if` instead)",
                ),
            ),
        );
    }
    if on_component {
        return Err((range, String::from_str("`:for` on a component is not supported yet")));
    }
    let names = binding_names(parsed.binding.as_str());
    if names.len() == 0 {
        return Err((header.range, String::from_str("could not resolve the `:for` binding pattern")));
    }
    if any_generated_name(&names) {
        return Err(
            (
                header.range,
                String::from_str(
                    "`:for` binding name collides with a compiler-generated identifier (e0/t0/a0/r0/d0 style); please rename it",
                ),
            ),
        );
    }
    Ok((parsed, names))
}

/// Whether some name looks like one of the emitter's own locals.
fn any_generated_name(names: &Vec<String>) -> (r: bool)
    ensures
        r == any_generated(string_views(names@)),
{
    let ghost nv = string_views(names@);
    let mut i: usize = 0;
    while i < names.len()
        invariant
            i <= names@.len(),
            nv == string_views(names@),
            forall|k: int| 0 <= k < i ==> !generated(#[trigger] nv[k]),
        decreases names@.len() - i,
    {
        if is_generated_name(names[i].as_str()) {
            assert(generated(nv[i as int]));
            return true;
        }
        i += 1;
    }
    false
}

/// `outer` with each of `names` added unless it is there (see [`add_names`]).
fn extend_names(outer: &Vec<String>, names: &Vec<String>) -> (r: Vec<String>)
    ensures
        string_views(r@) == add_names(string_views(outer@), string_views(names@)),
{
    let ghost ov = string_views(outer@);
    let ghost nv = string_views(names@);
    let mut r = crate::emit::emitter::vec_of(outer.as_slice());
    let mut i: usize = 0;
    while i < names.len()
        invariant
            i <= names@.len(),
            ov == string_views(outer@),
            nv == string_views(names@),
            string_views(r@) == add_names(ov, nv.take(i as int)),
        decreases names@.len() - i,
    {
        proof {
            assert(nv.take(i + 1).drop_last() =~= nv.take(i as int));
            assert(nv.take(i + 1).last() == names@[i as int]@);
        }
        if !crate::emit::emitter::names_contain(r.as_slice(), names[i].as_str()) {
            let n = String::from_str(names[i].as_str());
            let ghost before = r@;
            r.push(n);
            assert(string_views(r@) =~= string_views(before).push(n@));
        }
        i += 1;
    }
    assert(nv.take(nv.len() as int) =~= nv);
    r
}

fn push_for_head(b: &mut String, level: usize, fb: &str, anchor: &str, deps: &[u32], items: &str)
    ensures
        final(b)@ == old(b)@ + for_head(level as nat, fb@, anchor@, deps@, items@),
{
    push_indent(b, level);
    b.append(fb);
    b.append("(c, ");
    b.append(anchor);
    b.append(", ");
    push_dep_list(b, deps);
    b.append(", () => ");
    b.append(items);
    b.append(", {\n");
}

fn push_for_wire(
    b: &mut String,
    level: usize,
    html: &str,
    root: &str,
    dw: &str,
    bind: &str,
    body: &str,
    dp: &str,
)
    requires
        level + 2 <= usize::MAX,
    ensures
        final(b)@ == old(b)@ + for_wire(level as nat, html@, root@, dw@, bind@, body@, dp@),
{
    let ghost b0 = b@;
    push_for_wire_open(b, level, html, root, dw, bind);
    let ghost b1 = b@;
    b.append(body);
    let ghost b2 = b@;
    push_for_wire_close(b, level, bind, dp);
    assert(b@ =~= b0 + (for_wire_open(level as nat, html@, root@, dw@, bind@) + body@ + for_wire_close(
        level as nat,
        bind@,
        dp@,
    )));
}

fn push_for_wire_open(b: &mut String, level: usize, html: &str, root: &str, dw: &str, bind: &str)
    requires
        level + 2 <= usize::MAX,
    ensures
        final(b)@ == old(b)@ + for_wire_open(level as nat, html@, root@, dw@, bind@),
{
    push_indent(b, level + 1);
    b.append("html: ");
    b.append(html);
    b.append(",\n");
    push_indent(b, level + 1);
    b.append("wire: (");
    b.append(root);
    b.append(", ");
    b.append(dw);
    b.append(") => {\n");
    push_indent(b, level + 2);
    b.append("let ");
    b.append(bind);
    b.append(" = ");
    b.append(dw);
    b.append(";\n");
}

fn push_for_wire_close(b: &mut String, level: usize, bind: &str, dp: &str)
    requires
        level + 2 <= usize::MAX,
    ensures
        final(b)@ == old(b)@ + for_wire_close(level as nat, bind@, dp@),
{
    push_indent(b, level + 2);
    b.append("return (");
    b.append(dp);
    b.append(") => { (");
    b.append(bind);
    b.append(" = ");
    b.append(dp);
    b.append("); };\n");
    push_indent(b, level + 1);
    b.append("},\n");
}

fn push_for_key(b: &mut String, level: usize, dk: &str, bind: &str, key: &str)
    requires
        level + 1 <= usize::MAX,
    ensures
        final(b)@ == old(b)@ + for_key(level as nat, dk@, bind@, key@),
{
    push_indent(b, level + 1);
    b.append("keyOf: (");
    b.append(dk);
    b.append(") => { const ");
    b.append(bind);
    b.append(" = ");
    b.append(dk);
    b.append("; return (");
    b.append(key);
    b.append("); },\n");
}

/// The `teleportBlock(…)` statement around a body fragment.
pub open spec fn teleport_block(
    level: nat,
    tb: Seq<char>,
    anchor: Seq<char>,
    target: Seq<char>,
    root: Seq<char>,
    fh: Seq<char>,
    html: Seq<char>,
    body: Seq<char>,
) -> Seq<char> {
    indent(level) + tb + "(c, "@ + anchor + ", () => ("@ + target + "), () => {\n"@ + indent(level + 1)
        + "const "@ + root + " = "@ + fh + "("@ + html + ", "@ + anchor + ");\n"@ + body + indent(level + 1)
        + "return Array.from("@ + root + ".childNodes);\n"@ + indent(level) + "});\n"@
}

fn push_teleport_block(
    b: &mut String,
    level: usize,
    tb: &str,
    anchor: &str,
    target: &str,
    root: &str,
    fh: &str,
    html: &str,
    body: &str,
)
    requires
        level < usize::MAX,
    ensures
        final(b)@ == old(b)@ + teleport_block(level as nat, tb@, anchor@, target@, root@, fh@, html@, body@),
{
    push_indent(b, level);
    b.append(tb);
    b.append("(c, ");
    b.append(anchor);
    b.append(", () => (");
    b.append(target);
    b.append("), () => {\n");
    push_indent(b, level + 1);
    b.append("const ");
    b.append(root);
    b.append(" = ");
    b.append(fh);
    b.append("(");
    b.append(html);
    b.append(", ");
    b.append(anchor);
    b.append(");\n");
    b.append(body);
    push_indent(b, level + 1);
    b.append("return Array.from(");
    b.append(root);
    b.append(".childNodes);\n");
    push_indent(b, level);
    b.append("});\n");
}

/// Appends the escaped literal chunks of `segs` (see [`escaped_literals`]).
fn push_literals(b: &mut String, segs: &Vec<TextSegment>)
    ensures
        final(b)@ == old(b)@ + escaped_literals(segs_view(segs@)),
{
    let ghost sv = segs_view(segs@);
    let ghost b0 = b@;
    let mut i: usize = 0;
    while i < segs.len()
        invariant
            i <= segs@.len(),
            sv == segs_view(segs@),
            b@ == b0 + escaped_literals(sv.take(i as int)),
        decreases segs@.len() - i,
    {
        proof {
            assert(sv.take(i + 1).drop_last() =~= sv.take(i as int));
            assert(sv.take(i + 1).last() == segs@[i as int]@);
        }
        match &segs[i] {
            TextSegment::Literal { text, .. } => {
                push_template_literal_chunk(b, text.as_str());
            },
            TextSegment::Interpolation(_) => {},
        }
        i += 1;
    }
    assert(sv.take(sv.len() as int) =~= sv);
}

} // verus!
