use lunas::diagnostic::Severity;
use lunas::model::{resolve_component, resolve_reactive_vars, ReactiveVar};
use lunas::sfc::ir::{BlockSource, Directive, PropInput, StyleBlock, UseComponent};
use lunas::span::TextRange;

fn block(text: &str, start: u32) -> BlockSource {
    BlockSource { text: text.to_string(), range: TextRange::at(start, start + text.len() as u32) }
}

#[test]
fn reactive_var_mutated_in_function() {
    let mut diags = Vec::new();
    let vars = resolve_reactive_vars(&block("let count = 0\nfunction inc(){ count++ }", 100), &mut diags);
    assert!(diags.is_empty());
    assert_eq!(
        vars,
        vec![ReactiveVar { name: "count".to_string(), index: 0, decl_range: Some(TextRange::at(104, 109)) }]
    );
}

#[test]
fn reactive_var_reassigned_at_top_level() {
    let mut diags = Vec::new();
    let vars = resolve_reactive_vars(&block("let a = 1\nlet b = 2\na = 3", 0), &mut diags);
    let names: Vec<_> = vars.iter().map(|v| v.name.as_str()).collect();
    assert_eq!(names, ["a"]);
}

#[test]
fn reactive_vars_numbered_in_declaration_order() {
    let mut diags = Vec::new();
    let vars = resolve_reactive_vars(
        &block("let b = 0\nlet a = 0\nlet c = 0\nfunction f(){ a++; b++ }", 0),
        &mut diags,
    );
    let got: Vec<_> = vars.iter().map(|v| (v.name.as_str(), v.index)).collect();
    assert_eq!(got, [("b", 0), ("a", 1)]);
}

#[test]
fn reactive_var_declared_twice_counts_once() {
    let mut diags = Vec::new();
    let vars = resolve_reactive_vars(&block("var x = 1\nvar x = 2\nx++", 10), &mut diags);
    assert_eq!(vars.len(), 1);
    assert_eq!(vars[0].decl_range, Some(TextRange::at(14, 15)));
}

#[test]
fn reactive_vars_unparseable_script_reports() {
    let mut diags = Vec::new();
    let vars = resolve_reactive_vars(&block("let = = =", 5), &mut diags);
    assert!(vars.is_empty());
    assert_eq!(diags.len(), 1);
    assert_eq!(diags[0].severity, Severity::Error);
    assert_eq!(diags[0].range, TextRange::at(5, 14));
    assert!(diags[0].message.starts_with("could not analyze script block: "));
}

fn input(name: &str) -> Directive {
    Directive::Input(PropInput {
        name: name.to_string(),
        type_annotation: Some("number".to_string()),
        default_value: Some("0".to_string()),
        nullable: false,
        range: TextRange::at(0, 23),
    })
}

fn use_of(name: &str, path: &str) -> Directive {
    Directive::UseComponent(UseComponent {
        component_name: name.to_string(),
        path: path.to_string(),
        range: TextRange::at(30, 50),
    })
}

#[test]
fn resolve_component_counter_is_reactive() {
    let mut diags = Vec::new();
    let script = block("let count = start\nfunction inc(){ count++ }", 60);
    let c = resolve_component(&vec![input("start")], Some(script.clone()), None, &mut diags);
    assert!(diags.is_empty());
    assert!(c.is_reactive("count"));
    assert!(!c.is_reactive("start"));
    assert!(!c.is_reactive("inc"));
    assert_eq!(c.reactive_index("count"), Some(0));
    assert_eq!(c.reactive_index("start"), None);
    assert_eq!(c.props.len(), 1);
    assert_eq!(c.props[0].name, "start");
    assert_eq!(c.script, Some(script));
}

#[test]
fn resolve_component_mutual_recursion_terminates() {
    let mut diags = Vec::new();
    let script = block("let n = 0\nfunction ping(){ n++; pong() }\nfunction pong(){ ping() }", 0);
    let c = resolve_component(&Vec::new(), Some(script), None, &mut diags);
    assert!(c.is_reactive("n"));
    assert_eq!(c.reactive_index("n"), Some(0));
}

#[test]
fn resolve_component_splits_directives_in_order() {
    let mut diags = Vec::new();
    let directives = vec![
        use_of("Card", "./Card.lunas"),
        input("a"),
        Directive::UseRouting,
        input("b"),
        use_of("List", "./List.lunas"),
        Directive::UseAutoRouting,
    ];
    let style = StyleBlock { source: block("p { color: red }", 70) };
    let c = resolve_component(&directives, None, Some(style.clone()), &mut diags);
    let props: Vec<_> = c.props.iter().map(|p| p.name.as_str()).collect();
    assert_eq!(props, ["a", "b"]);
    let imports: Vec<_> = c.imports.iter().map(|u| (u.component_name.as_str(), u.path.as_str())).collect();
    assert_eq!(imports, [("Card", "./Card.lunas"), ("List", "./List.lunas")]);
    assert_eq!(c.style, Some(style));
    assert!(c.script.is_none());
    assert!(c.reactive_vars.is_empty());
    assert!(diags.is_empty());
    assert!(!c.is_reactive("a"));
}

#[test]
fn resolve_component_reports_unparseable_script() {
    let mut diags = Vec::new();
    let c = resolve_component(&Vec::new(), Some(block("let = = =", 5)), None, &mut diags);
    assert!(c.reactive_vars.is_empty());
    assert_eq!(diags.len(), 1);
    assert_eq!(diags[0].severity, Severity::Error);
}

#[test]
fn reactive_index_takes_numbering_of_second_var() {
    let mut diags = Vec::new();
    let c = resolve_component(
        &Vec::new(),
        Some(block("let b = 0\nlet a = 0\nfunction f(){ a++; b++ }", 0)),
        None,
        &mut diags,
    );
    assert_eq!(c.reactive_index("b"), Some(0));
    assert_eq!(c.reactive_index("a"), Some(1));
    assert_eq!(c.reactive_index("f"), None);
}
