use lunas::diagnostic::Severity;
use lunas::emit::emitter::{DynamicKind, DynamicPart, Emitter, Frag, InsertPos};
use lunas::emit::script::{helper_name, rewrite_script, BindingRef, TopDecl};
use lunas::model::ReactiveVar;
use lunas::span::TextRange;

fn var(name: &str, index: u32) -> ReactiveVar {
    ReactiveVar { name: name.to_string(), index, decl_range: None }
}

fn decl(name: &str, init: Option<(u32, u32)>, stmt: (u32, u32)) -> TopDecl {
    TopDecl {
        name: name.to_string(),
        declarators_in_stmt: 1,
        init_range: init.map(|(s, e)| TextRange::at(s, e)),
        stmt_range: TextRange::at(stmt.0, stmt.1),
    }
}

fn reference(name: &str, start: u32, end: u32, shorthand: bool) -> BindingRef {
    BindingRef { name: name.to_string(), range: TextRange::at(start, end), shorthand }
}

fn emitter(vars: Vec<ReactiveVar>, dynamics: Vec<DynamicPart>) -> Emitter {
    Emitter::with_parts(vars, dynamics, Vec::new())
}

fn root_frag<'a>(shadowed: &'a [String]) -> Frag<'a> {
    Frag { base: "c.root", shadowed, indent: 1, depth: 0, strip: 0 }
}

#[test]
fn rewrite_script_boxes_declaration_and_reads_value() {
    let script = "let count = 0\ncount++";
    let out = rewrite_script(
        script,
        script,
        &[var("count", 0)],
        &[],
        &[decl("count", Some((12, 13)), (0, 13))],
        &[reference("count", 4, 9, false), reference("count", 14, 19, false)],
    );
    assert_eq!(out, "const count = box(c, 0, 0)\ncount.v++");
}

#[test]
fn rewrite_script_shorthand_property() {
    let script = "let a = 1\nf({ a })";
    let out = rewrite_script(
        script,
        script,
        &[var("a", 0)],
        &[],
        &[decl("a", Some((8, 9)), (0, 9))],
        &[reference("a", 14, 15, true)],
    );
    assert_eq!(out, "const a = box(c, 0, 1)\nf({ a: a.v })");
}

#[test]
fn rewrite_script_deep_mutation_uses_deep_box_and_alias() {
    let script = "let list = []\nlist.push(1)";
    let aliases = vec![("deepBox".to_string(), "deepBox$1".to_string())];
    let out = rewrite_script(
        script,
        script,
        &[var("list", 3)],
        &aliases,
        &[decl("list", Some((11, 13)), (0, 13))],
        &[reference("list", 14, 18, false)],
    );
    assert_eq!(out, "const list = deepBox$1(c, 3, [])\nlist.v.push(1)");
}

#[test]
fn rewrite_script_without_initializer_or_with_several_declarators() {
    let script = "let x\nlet y = 1, z = 2\nx = y";
    let mut multi = decl("y", Some((14, 15)), (6, 22));
    multi.declarators_in_stmt = 2;
    let out = rewrite_script(
        script,
        script,
        &[var("x", 0), var("y", 1)],
        &[],
        &[decl("x", None, (0, 5)), multi],
        &[reference("x", 23, 24, false), reference("y", 27, 28, false)],
    );
    assert_eq!(out, "const x = box(c, 0, undefined)\nlet y = 1, z = 2\nx.v = y.v");
}

#[test]
fn rewrite_script_without_reactive_vars_is_unchanged() {
    let script = "let a = 1\na++";
    let out = rewrite_script(script, script, &[], &[], &[decl("a", Some((8, 9)), (0, 9))], &[]);
    assert_eq!(out, script);
}

#[test]
fn helper_name_prefers_alias() {
    let aliases = vec![("on".to_string(), "on$1".to_string())];
    assert_eq!(helper_name(&aliases, "on"), "on$1");
    assert_eq!(helper_name(&aliases, "bind"), "bind");
}

#[test]
fn emitter_allocates_numbered_names() {
    let mut e = emitter(Vec::new(), Vec::new());
    assert_eq!(e.alloc_ref(), "e0");
    assert_eq!(e.alloc_ref(), "e1");
    assert_eq!(e.alloc_text(), "t0");
    assert_eq!(e.alloc_anchor(), "a0");
    assert_eq!(e.alloc_root(), "r0");
    assert_eq!(e.alloc_data(), "d0");
    assert_eq!(e.alloc_child(), "ch0");
    assert_eq!(e.hoist_html("<p></p>".to_string()), "HTML_1");
    assert_eq!(e.hoist_html("<b></b>".to_string()), "HTML_2");
    assert_eq!(e.hoisted[1], ("HTML_2".to_string(), "<b></b>".to_string()));
}

#[test]
fn use_helper_records_each_helper_once() {
    let mut e = emitter(Vec::new(), Vec::new());
    e.use_helper("bind");
    e.use_helper("on");
    e.use_helper("bind");
    assert_eq!(e.used, vec!["bind".to_string(), "on".to_string()]);
}

#[test]
fn emit_update_plain_and_bound() {
    let mut e = emitter(Vec::new(), Vec::new());
    let none: Vec<String> = Vec::new();
    let frag = root_frag(&none);
    let mut b = String::new();
    e.emit_update(&mut b, &frag, &[], false, "x = 1;");
    assert_eq!(b, "  x = 1;\n");
    assert!(e.used.is_empty());
    let mut b = String::new();
    e.emit_update(&mut b, &frag, &[0, 2], false, "x = 1;");
    assert_eq!(b, "  bind(c, [0, 2], () => { x = 1; });\n");
    let mut b = String::new();
    e.emit_update(&mut b, &frag, &[], true, "x = 1;");
    assert_eq!(b, "  bind(c, [], () => { x = 1; });\n");
    assert_eq!(e.used, vec!["bind".to_string()]);
}

#[test]
fn emit_anchor_positions() {
    let mut e = emitter(Vec::new(), Vec::new());
    let none: Vec<String> = Vec::new();
    let frag = root_frag(&none);
    let mut b = String::new();
    e.emit_anchor(&mut b, "a0", &InsertPos::Before(vec![0, 1]), &frag);
    assert_eq!(b, "  const a0 = anchorBefore(c.root.childNodes[0].childNodes[1]);\n");
    let mut b = String::new();
    e.emit_anchor(&mut b, "t0", &InsertPos::BeforeSplit { path: vec![0, 2], utf16_offset: 5 }, &frag);
    assert_eq!(b, "  const t0 = anchorBeforeSplit(c.root.childNodes[0].childNodes[2], 5);\n");
    let item = Frag { base: "r0", shadowed: &none, indent: 2, depth: 1, strip: 1 };
    let mut b = String::new();
    e.emit_anchor(&mut b, "a1", &InsertPos::Append(vec![0, 3]), &item);
    assert_eq!(b, "    const a1 = anchorAppend(r0.childNodes[3]);\n");
}

#[test]
fn emit_event_rewrites_handler() {
    let mut e = emitter(vec![var("count", 0)], Vec::new());
    let none: Vec<String> = Vec::new();
    let frag = root_frag(&none);
    let mut b = String::new();
    e.emit_event(&mut b, "e0", "click", "count++", &frag);
    assert_eq!(b, "  on(e0, \"click\", () => { count.v++; });\n");
    assert_eq!(e.used, vec!["on".to_string()]);
}

#[test]
fn emit_bound_attr_binds_on_recorded_deps() {
    let part = DynamicPart {
        kind: DynamicKind::Attribute("title".to_string()),
        expr: "label".to_string(),
        range: TextRange::at(0, 5),
        deps: vec![1],
    };
    let mut e = emitter(vec![var("count", 0), var("label", 1)], vec![part]);
    let none: Vec<String> = Vec::new();
    let frag = root_frag(&none);
    let mut b = String::new();
    e.emit_bound_attr(&mut b, "e0", "title", "label", &frag);
    assert_eq!(b, "  bind(c, [1], () => { e0.setAttribute(\"title\", label.v); });\n");
}

#[test]
fn emit_two_way_reads_and_writes_back() {
    let part = DynamicPart {
        kind: DynamicKind::TwoWay("value".to_string()),
        expr: "name".to_string(),
        range: TextRange::at(0, 4),
        deps: vec![0],
    };
    let mut e = emitter(vec![var("name", 0)], vec![part]);
    let none: Vec<String> = Vec::new();
    let frag = root_frag(&none);
    let mut b = String::new();
    e.emit_two_way(&mut b, "e0", "value", "name", &frag);
    assert_eq!(
        b,
        "  bind(c, [0], () => { e0.value = name.v; });\n  on(e0, \"input\", () => { name.v = e0.value; });\n"
    );
}

#[test]
fn filter_deps_drops_shadowed_variables() {
    let e = emitter(vec![var("item", 0), var("count", 1)], Vec::new());
    let shadowed = vec!["item".to_string()];
    assert_eq!(e.filter_deps(vec![0, 1, 7], &shadowed), vec![1, 7]);
    assert_eq!(e.filter_deps(vec![0, 1], &[]), vec![0, 1]);
}

#[test]
fn cascade_deps_unites_conditions_in_order() {
    let cond = |expr: &str, start: u32, deps: Vec<u32>| DynamicPart {
        kind: DynamicKind::IfCondition,
        expr: expr.to_string(),
        range: TextRange::at(start, start + 1),
        deps,
    };
    let e = emitter(
        vec![var("a", 0), var("b", 1), var("c", 2)],
        vec![cond("x", 0, vec![2, 0]), cond("y", 10, vec![1, 2])],
    );
    let conds = vec![
        ("x".to_string(), TextRange::at(0, 1)),
        ("y".to_string(), TextRange::at(40, 41)),
    ];
    assert_eq!(e.cascade_deps(&conds, &[]), vec![0, 1, 2]);
    let shadowed = vec!["b".to_string()];
    assert_eq!(e.cascade_deps(&conds, &shadowed), vec![0, 2]);
}

#[test]
fn emit_if_chain_single_branch() {
    let mut e = emitter(Vec::new(), Vec::new());
    let none: Vec<String> = Vec::new();
    let frag = root_frag(&none);
    let mut b = String::new();
    e.emit_if_chain(&mut b, "a0", &[0], &["show.v".to_string()], false, &["BODY\n".to_string()], &frag);
    assert_eq!(b, "  ifBlock(c, a0, [0], () => (show.v), () => {\nBODY\n  });\n");
    assert_eq!(e.used, vec!["ifBlock".to_string()]);
}

#[test]
fn emit_if_chain_cascade_with_and_without_else() {
    let mut e = emitter(Vec::new(), Vec::new());
    let none: Vec<String> = Vec::new();
    let frag = root_frag(&none);
    let conds = vec!["x".to_string(), "y".to_string()];
    let bodies = vec!["B0\n".to_string(), "B1\n".to_string(), "B2\n".to_string()];
    let mut b = String::new();
    e.emit_if_chain(&mut b, "a0", &[], &conds, true, &bodies, &frag);
    assert_eq!(
        b,
        "  ifChain(c, a0, [], () => (x) ? 0 : (y) ? 1 : 2, [\n    () => {\nB0\n    },\n    () => {\nB1\n    },\n    () => {\nB2\n    },\n  ]);\n"
    );
    let mut b = String::new();
    e.emit_if_chain(&mut b, "a1", &[1], &conds, false, &bodies[..2], &frag);
    assert_eq!(
        b,
        "  ifChain(c, a1, [1], () => (x) ? 0 : (y) ? 1 : -1, [\n    () => {\nB0\n    },\n    () => {\nB1\n    },\n  ]);\n"
    );
}

#[test]
fn void_block_comment_is_safe_and_warns() {
    let mut e = emitter(Vec::new(), Vec::new());
    let none: Vec<String> = Vec::new();
    let frag = root_frag(&none);
    let mut b = String::new();
    let mut diags = Vec::new();
    e.void_block(&mut b, &frag, TextRange::at(3, 9), "a */ b", &mut diags);
    assert_eq!(b, "  /* lunas: block skipped \u{2014} a * / b */\n");
    assert_eq!(diags.len(), 1);
    assert_eq!(diags[0].severity, Severity::Warning);
    assert_eq!(diags[0].message, "a */ b");
    assert_eq!(diags[0].range, TextRange::at(3, 9));
}

use lunas::emit::bindings::{has_interpolation, static_attr_literal, StaticValue, TemplateAttr, TemplateExpr, TemplateText};
use lunas::sfc::scan::{Interpolation, TextSegment};
use lunas::sfc::ir::{PropInput, UseComponent};

fn lit(text: &str, start: u32) -> TextSegment {
    TextSegment::Literal { text: text.to_string(), range: TextRange::at(start, start + text.len() as u32) }
}

fn interp(expr: &str, start: u32) -> TextSegment {
    let end = start + expr.len() as u32;
    TextSegment::Interpolation(Interpolation {
        expr: expr.to_string(),
        range: TextRange::at(start - 2, end + 1),
        expr_range: TextRange::at(start, end),
    })
}

fn texpr(text: &str) -> TemplateExpr {
    TemplateExpr { text: text.to_string(), range: TextRange::at(0, text.len() as u32) }
}

#[test]
fn static_attr_literal_and_interpolation() {
    let attrs = vec![
        TemplateAttr::Static { name: "class".to_string(), value: None, range: TextRange::at(0, 5) },
        TemplateAttr::Static {
            name: "class".to_string(),
            value: Some(StaticValue { segments: vec![lit("a ", 0), interp("x", 4), lit(" b", 6)] }),
            range: TextRange::at(0, 10),
        },
    ];
    assert_eq!(static_attr_literal(&attrs, "class"), "a  b");
    assert_eq!(static_attr_literal(&attrs, "style"), "");
    assert!(has_interpolation(&StaticValue { segments: vec![lit("a", 0), interp("x", 3)] }));
    assert!(!has_interpolation(&StaticValue { segments: vec![lit("a", 0)] }));
}

#[test]
fn attr_text_value_builds_template_literal() {
    let part = DynamicPart {
        kind: DynamicKind::AttributeText("title".to_string()),
        expr: "x".to_string(),
        range: TextRange::at(4, 5),
        deps: vec![0],
    };
    let e = emitter(vec![var("x", 0)], vec![part]);
    let none: Vec<String> = Vec::new();
    let frag = root_frag(&none);
    let value = StaticValue { segments: vec![lit("a `", 0), interp("x", 5), lit(" b", 7)] };
    let (text, deps, coupled) = e.attr_text_value("title", &value, &frag);
    assert_eq!(text, "`a \\`${x.v} b`");
    assert_eq!(deps, vec![0]);
    assert!(!coupled);
}

#[test]
fn emit_ref_assign_reactive_and_not() {
    let mut e = emitter(vec![var("el", 0)], Vec::new());
    let none: Vec<String> = Vec::new();
    let frag = root_frag(&none);
    let mut b = String::new();
    let mut diags = Vec::new();
    e.emit_ref(&mut b, "e0", " el ", &frag, &mut diags);
    assert_eq!(b, "  el.v = e0;\n");
    assert!(diags.is_empty());
    let mut b = String::new();
    e.emit_ref_assign(&mut b, "e1", "nope", &frag, TextRange::at(2, 8), &mut diags);
    assert_eq!(
        b,
        "  /* lunas: block skipped \u{2014} `:ref` target `nope` is not a reactive variable (declare it with `let nope;` in script) */\n"
    );
    assert_eq!(diags.len(), 1);
    assert_eq!(diags[0].range, TextRange::at(2, 8));
    assert_eq!(diags[0].severity, Severity::Warning);
}

#[test]
fn attr_and_event_wiring_in_attribute_order() {
    let part = DynamicPart {
        kind: DynamicKind::Attribute("class".to_string()),
        expr: "cls".to_string(),
        range: TextRange::at(0, 3),
        deps: vec![1],
    };
    let mut e = emitter(vec![var("count", 0), var("cls", 1)], vec![part]);
    let none: Vec<String> = Vec::new();
    let frag = root_frag(&none);
    let attrs = vec![
        TemplateAttr::Static {
            name: "class".to_string(),
            value: Some(StaticValue { segments: vec![lit("box", 0)] }),
            range: TextRange::at(0, 11),
        },
        TemplateAttr::Bound { name: "class".to_string(), expr: texpr("cls"), range: TextRange::at(12, 24) },
        TemplateAttr::Event { event: "click".to_string(), handler: texpr("count++"), range: TextRange::at(25, 40) },
    ];
    let mut b = String::new();
    let mut diags = Vec::new();
    e.emit_attr_and_event_wiring(&mut b, &[attrs], &["e0".to_string()], &frag, &mut diags);
    assert_eq!(
        b,
        "  bind(c, [1], () => { setClass(e0, \"box\", cls.v); });\n  on(e0, \"click\", () => { count.v++; });\n"
    );
    assert_eq!(e.used, vec!["setClass".to_string(), "bind".to_string(), "on".to_string()]);
    assert!(diags.is_empty());
}

#[test]
fn build_child_props_classifies_attributes() {
    let part = DynamicPart {
        kind: DynamicKind::Attribute("count".to_string()),
        expr: "n".to_string(),
        range: TextRange::at(0, 1),
        deps: vec![0],
    };
    let mut e = emitter(vec![var("n", 0)], vec![part]);
    let none: Vec<String> = Vec::new();
    let frag = root_frag(&none);
    let props = vec![
        TemplateAttr::Bound { name: "count".to_string(), expr: texpr("n"), range: TextRange::at(0, 9) },
        TemplateAttr::Bound { name: "data-x".to_string(), expr: texpr("1 + 1"), range: TextRange::at(10, 25) },
        TemplateAttr::Static {
            name: "label".to_string(),
            value: Some(StaticValue { segments: vec![lit("hi `you`", 0)] }),
            range: TextRange::at(26, 40),
        },
        TemplateAttr::Static { name: "open".to_string(), value: None, range: TextRange::at(41, 45) },
        TemplateAttr::TwoWay { name: "value".to_string(), lvalue: texpr("n"), range: TextRange::at(46, 58) },
        TemplateAttr::Event { event: "done".to_string(), handler: texpr("f()"), range: TextRange::at(59, 70) },
    ];
    let mut diags = Vec::new();
    let (members, reactive) = e.build_child_props(&props, &frag, TextRange::at(0, 70), &mut diags);
    assert_eq!(
        members,
        vec![
            "count: () => (n.v)".to_string(),
            "\"data-x\": () => (1 + 1)".to_string(),
            "label: `hi \\`you\\``".to_string(),
            "open: true".to_string(),
            "onDone: ($event) => f()".to_string(),
        ]
    );
    assert_eq!(reactive.len(), 1);
    assert_eq!(reactive[0].name, "count");
    assert_eq!(reactive[0].expr, "n.v");
    assert_eq!(reactive[0].deps, vec![0]);
    assert!(!reactive[0].coupled);
    assert_eq!(diags.len(), 1);
    assert_eq!(diags[0].message, "two-way binding `::value` on a component is not supported yet");
}

#[test]
fn emit_text_slot_anchors_and_binds_run() {
    let part = DynamicPart {
        kind: DynamicKind::Text,
        expr: "name".to_string(),
        range: TextRange::at(5, 9),
        deps: vec![0],
    };
    let mut e = emitter(vec![var("name", 0)], vec![part]);
    let none: Vec<String> = Vec::new();
    let frag = root_frag(&none);
    let t = TemplateText { segments: vec![lit("Hi ", 0), interp("name", 5), lit("!", 10)], range: TextRange::at(0, 11) };
    let mut b = String::new();
    e.emit_text_slot(&mut b, &t, &InsertPos::Before(vec![0, 0]), &frag);
    assert_eq!(
        b,
        "  const t0 = anchorBefore(c.root.childNodes[0].childNodes[0]);\n  bind(c, [0], () => { t0.data = `Hi ${name.v}!`; });\n"
    );
    assert_eq!(e.used, vec!["anchorBefore".to_string(), "bind".to_string()]);
    assert_eq!(e.n_text, 1);
}

#[test]
fn emitter_new_hint_aliases_and_child_imports() {
    let props = vec![PropInput {
        name: "bind".to_string(),
        type_annotation: None,
        default_value: None,
        nullable: false,
        range: TextRange::at(0, 4),
    }];
    let imports = vec![
        UseComponent { component_name: "Child".to_string(), path: "./Child.lunas".to_string(), range: TextRange::at(0, 5) },
        UseComponent { component_name: "Other".to_string(), path: "./Other.lunas".to_string(), range: TextRange::at(6, 11) },
        UseComponent { component_name: "Child".to_string(), path: "./Again.lunas".to_string(), range: TextRange::at(12, 17) },
    ];
    let e = Emitter::new(
        "let on = 1\nlet x = 2",
        &props,
        &imports,
        Vec::new(),
        Vec::new(),
        &["o.k".to_string(), "x".to_string(), "a[0]".to_string()],
        &["Child".to_string()],
        false,
    );
    assert_eq!(e.deep_hint, "let on = 1\nlet x = 2\no.k = 0;\na[0] = 0;");
    assert_eq!(
        e.aliases,
        vec![("on".to_string(), "$on".to_string()), ("bind".to_string(), "$bind".to_string())]
    );
    assert_eq!(
        e.child_imports,
        vec![("Child".to_string(), "Child".to_string(), "./Child.lunas".to_string())]
    );
    let all = Emitter::new("", &[], &imports, Vec::new(), Vec::new(), &[], &[], true);
    assert_eq!(all.child_imports.len(), 2);
    assert_eq!(all.child_imports[1], ("Other".to_string(), "Other".to_string(), "./Other.lunas".to_string()));
}

#[test]
fn emit_dynamic_slot_mounts_factory() {
    let part = DynamicPart {
        kind: DynamicKind::Attribute("is".to_string()),
        expr: "view".to_string(),
        range: TextRange::at(0, 4),
        deps: vec![0],
    };
    let mut e = emitter(vec![var("view", 0)], vec![part]);
    let none: Vec<String> = Vec::new();
    let frag = root_frag(&none);
    let attrs = vec![
        TemplateAttr::Bound { name: "is".to_string(), expr: texpr("view"), range: TextRange::at(0, 10) },
        TemplateAttr::Static {
            name: "title".to_string(),
            value: Some(StaticValue { segments: vec![lit("Hi", 0)] }),
            range: TextRange::at(11, 21),
        },
    ];
    let mut b = String::new();
    let mut diags = Vec::new();
    e.emit_dynamic_slot(&mut b, &attrs, TextRange::at(0, 30), &InsertPos::Append(vec![0]), &frag, &mut diags);
    assert_eq!(
        b,
        "  const a0 = anchorAppend(c.root.childNodes[0]);\n  const ch0 = dynamicBlock(c, a0, [0], () => (view.v), { title: `Hi` });\n"
    );
    assert_eq!(e.used, vec!["anchorAppend".to_string(), "dynamicBlock".to_string()]);
    assert!(diags.is_empty());

    let mut b = String::new();
    e.emit_dynamic_slot(&mut b, &attrs[1..], TextRange::at(0, 30), &InsertPos::Append(vec![0]), &frag, &mut diags);
    assert_eq!(
        b,
        "  /* lunas: block skipped \u{2014} `<component>` requires an `:is` binding (e.g. `:is=\"view\"`) */\n"
    );
    assert_eq!(diags.len(), 1);
    assert_eq!(diags[0].range, TextRange::at(0, 30));
}

#[test]
fn emit_component_slot_mounts_child_with_ref_and_props() {
    let part = DynamicPart {
        kind: DynamicKind::Attribute("count".to_string()),
        expr: "n".to_string(),
        range: TextRange::at(0, 1),
        deps: vec![0],
    };
    let mut e = emitter(vec![var("n", 0), var("h", 1)], vec![part]);
    e.child_imports = vec![("Child".to_string(), "Child".to_string(), "./c.lunas".to_string())];
    let none: Vec<String> = Vec::new();
    let frag = root_frag(&none);
    let props = vec![
        TemplateAttr::Bound { name: "ref".to_string(), expr: texpr("h"), range: TextRange::at(0, 8) },
        TemplateAttr::Bound { name: "count".to_string(), expr: texpr("n"), range: TextRange::at(9, 19) },
    ];
    let mut b = String::new();
    let mut diags = Vec::new();
    e.emit_component_slot(&mut b, "Child", &props, TextRange::at(0, 20), &InsertPos::Before(vec![1]), &frag, &mut diags);
    assert_eq!(
        b,
        "  const a0 = anchorBefore(c.root.childNodes[1]);\n  const ch0 = mountChild(c, a0, Child, { count: () => (n.v) });\n  h.v = ch0;\n  bind(c, [0], () => { ch0.setProp(\"count\", n.v); });\n"
    );
    assert_eq!(e.used, vec!["anchorBefore".to_string(), "mountChild".to_string(), "bind".to_string()]);
    assert!(diags.is_empty());

    let mut b = String::new();
    e.emit_component_slot(&mut b, "Missing", &props, TextRange::at(30, 40), &InsertPos::Before(vec![1]), &frag, &mut diags);
    assert_eq!(b, "  /* lunas: block skipped \u{2014} child component tag has no matching `@use` import */\n");
    assert_eq!(diags.len(), 1);
}

#[test]
fn component_event_becomes_on_prop() {
    let mut e = emitter(Vec::new(), Vec::new());
    let none: Vec<String> = Vec::new();
    let frag = root_frag(&none);
    let props = vec![TemplateAttr::Event {
        event: "saved".to_string(),
        handler: texpr("onSaved($event)"),
        range: TextRange::at(0, 26),
    }];
    let mut diags = Vec::new();
    let (members, reactive) = e.build_child_props(&props, &frag, TextRange::at(0, 30), &mut diags);
    assert_eq!(members, vec!["onSaved: ($event) => onSaved($event)".to_string()]);
    assert!(reactive.is_empty());
    assert!(diags.is_empty());
}

#[test]
fn event_prop_names_are_camel_cased() {
    use_event_prop("save", "onSave");
    use_event_prop("close", "onClose");
    use_event_prop("save-all", "onSaveAll");
    use_event_prop("update-model-value", "onUpdateModelValue");
}

fn use_event_prop(name: &str, want: &str) {
    assert_eq!(lunas::emit::bindings::event_prop_name(name), want);
}

#[test]
fn emit_teleport_slot_builds_body_into_target() {
    let mut e = emitter(Vec::new(), Vec::new());
    let none: Vec<String> = Vec::new();
    let frag = root_frag(&none);
    let attrs = vec![TemplateAttr::Static {
        name: "to".to_string(),
        value: Some(StaticValue { segments: vec![lit("#modal", 0)] }),
        range: TextRange::at(0, 11),
    }];
    let mut b = String::new();
    let mut diags = Vec::new();
    e.emit_teleport_slot(&mut b, &attrs, TextRange::at(0, 20), "<p>x</p>".to_string(), "    BODY\n", &InsertPos::Append(vec![]), &frag, &mut diags);
    assert_eq!(
        b,
        "  const a0 = anchorAppend(c.root);\n  teleportBlock(c, a0, () => (`#modal`), () => {\n    const r0 = fromHTML(HTML_1, a0);\n    BODY\n    return Array.from(r0.childNodes);\n  });\n"
    );
    assert_eq!(e.hoisted, vec![("HTML_1".to_string(), "<p>x</p>".to_string())]);
    assert!(diags.is_empty());
    let deep = Frag { base: "r0", shadowed: &none, indent: 1, depth: 32, strip: 0 };
    let mut b = String::new();
    e.emit_teleport_slot(&mut b, &[], TextRange::at(5, 9), String::new(), "", &InsertPos::Append(vec![]), &deep, &mut diags);
    assert_eq!(b, "  /* lunas: block skipped \u{2014} control flow nested too deeply */\n");
    assert_eq!(diags.len(), 1);
    assert_eq!(diags[0].range, TextRange::at(5, 9));
}

#[test]
fn emit_if_slot_cascade_and_component_branch() {
    let part = DynamicPart {
        kind: DynamicKind::IfCondition,
        expr: "ok".to_string(),
        range: TextRange::at(0, 2),
        deps: vec![0],
    };
    let mut e = emitter(vec![var("ok", 0)], vec![part]);
    let none: Vec<String> = Vec::new();
    let frag = root_frag(&none);
    let branches = vec![
        (Some(texpr("ok")), TextRange::at(0, 10), false),
        (None, TextRange::at(11, 20), false),
    ];
    let bodies = vec!["B0\n".to_string(), "B1\n".to_string()];
    let mut b = String::new();
    let mut diags = Vec::new();
    e.emit_if_slot(&mut b, &branches, &bodies, TextRange::at(0, 20), &InsertPos::Before(vec![0]), &frag, &mut diags);
    assert_eq!(
        b,
        "  const a0 = anchorBefore(c.root.childNodes[0]);\n  ifChain(c, a0, [0], () => (ok.v) ? 0 : 1, [\n    () => {\nB0\n    },\n    () => {\nB1\n    },\n  ]);\n"
    );
    assert!(diags.is_empty());
    let comp = vec![(Some(texpr("ok")), TextRange::at(3, 8), true)];
    let mut b = String::new();
    e.emit_if_slot(&mut b, &comp, &bodies[..1], TextRange::at(0, 20), &InsertPos::Before(vec![0]), &frag, &mut diags);
    assert_eq!(b, "  /* lunas: block skipped \u{2014} `:if` on a component is not supported yet */\n");
    assert_eq!(diags[0].range, TextRange::at(3, 8));
}

#[test]
fn emit_for_slot_keyed_list() {
    let part = DynamicPart {
        kind: DynamicKind::ForIterable,
        expr: "items".to_string(),
        range: TextRange::at(8, 13),
        deps: vec![0],
    };
    let mut e = emitter(vec![var("items", 0)], vec![part]);
    let none: Vec<String> = Vec::new();
    let frag = root_frag(&none);
    let key = texpr("item.id");
    let mut b = String::new();
    let mut diags = Vec::new();
    e.emit_for_slot(
        &mut b,
        &texpr("item of items"),
        Some(&key),
        TextRange::at(0, 30),
        false,
        false,
        "<li></li>".to_string(),
        "      BODY\n",
        &InsertPos::Append(vec![0]),
        &frag,
        &mut diags,
    );
    assert_eq!(
        b,
        "  const a0 = anchorAppend(c.root.childNodes[0]);\n  forBlock(c, a0, [0], () => Array.from((items.v) || []), {\n    html: HTML_1,\n    wire: (r0, d0) => {\n      let item = d0;\n      BODY\n      return (d1) => { (item = d1); };\n    },\n    keyOf: (d2) => { const item = d2; return (item.id); },\n  });\n"
    );
    assert!(diags.is_empty());
    assert_eq!(e.n_data, 3);
}

#[test]
fn emit_for_slot_refusals() {
    let mut e = emitter(Vec::new(), Vec::new());
    let none: Vec<String> = Vec::new();
    let frag = root_frag(&none);
    let mut diags = Vec::new();
    let mut b = String::new();
    e.emit_for_slot(&mut b, &texpr("nonsense"), None, TextRange::at(0, 30), false, false, String::new(), "", &InsertPos::Append(vec![0]), &frag, &mut diags);
    assert_eq!(b, "  /* lunas: block skipped \u{2014} unrecognized `:for` header (expected e.g. `item of items`) */\n");
    let mut b = String::new();
    e.emit_for_slot(&mut b, &texpr("e0 of xs"), None, TextRange::at(0, 30), false, false, String::new(), "", &InsertPos::Append(vec![0]), &frag, &mut diags);
    assert_eq!(
        b,
        "  /* lunas: block skipped \u{2014} `:for` binding name collides with a compiler-generated identifier (e0/t0/a0/r0/d0 style); please rename it */\n"
    );
    let mut b = String::new();
    e.emit_for_slot(&mut b, &texpr("x in o"), None, TextRange::at(0, 30), false, true, String::new(), "", &InsertPos::Append(vec![0]), &frag, &mut diags);
    assert!(b.contains("`:if` on the same element as `:for`"), "{}", b);
    assert_eq!(diags.len(), 3);
    assert_eq!(e.n_anchor, 0);
}
