use lunas::diagnostic::Severity;
use lunas::html::dom::{DomKind, Node};
use lunas::sfc::file::{lower_items, RawItem, RawLanguageBlock};
use lunas::sfc::ir::Directive;
use lunas::sfc::lower::RawDirective;
use lunas::span::TextRange;

fn block(source: &str, name: &str, body: &str) -> RawItem {
    let start = source.find(body).unwrap() as u32;
    RawItem::LanguageBlock(RawLanguageBlock {
        name: name.to_string(),
        body_range: TextRange::at(start, start + body.len() as u32),
    })
}

fn directive(source: &str, keyword: &str, body: &str) -> RawItem {
    let start = source.find(body).unwrap() as u32;
    RawItem::Directive(RawDirective {
        keyword: keyword.to_string(),
        params: None,
        body_range: Some(TextRange::at(start, start + body.len() as u32)),
    })
}

const SOURCE: &str = "@input count: number = 0\nhtml:\n    <p>${count}</p>\nstyle:\n    p { color: red }\nscript:\n    let x = 1\n";

#[test]
fn lower_items_takes_each_block() {
    let items = vec![
        directive(SOURCE, "input", "count: number = 0"),
        block(SOURCE, "html", "    <p>${count}</p>\n"),
        block(SOURCE, "style", "    p { color: red }\n"),
        block(SOURCE, "script", "    let x = 1\n"),
    ];
    let mut diags = Vec::new();
    let file = lower_items(SOURCE, &items, &mut diags);
    assert!(diags.is_empty(), "{diags:?}");
    let html = file.html.unwrap();
    assert_eq!(html.source.text, "    <p>${count}</p>\n");
    assert_eq!(html.dom.kind, DomKind::Fragment);
    match &html.dom.children[1] {
        Node::Element(e) => {
            assert_eq!(e.name, "p");
            assert_eq!(e.range.slice(SOURCE), Some("<p>${count}</p>"));
        }
        other => panic!("expected element, got {:?}", other),
    }
    assert_eq!(file.style.unwrap().source.text, "p { color: red }");
    let script = file.script.unwrap();
    assert_eq!(script.text, "let x = 1");
    assert_eq!(script.range, TextRange::at(87, 101));
    assert_eq!(file.directives.len(), 1);
    match &file.directives[0] {
        Directive::Input(p) => {
            assert_eq!(p.name, "count");
            assert_eq!(p.type_annotation.as_deref(), Some("number"));
            assert_eq!(p.default_value.as_deref(), Some("0"));
        }
        other => panic!("expected input, got {:?}", other),
    }
}

#[test]
fn lower_items_reports_missing_html() {
    let items = vec![block(SOURCE, "script", "    let x = 1\n")];
    let mut diags = Vec::new();
    let file = lower_items(SOURCE, &items, &mut diags);
    assert!(file.html.is_none());
    assert!(file.script.is_some());
    assert_eq!(diags.len(), 1);
    assert_eq!(diags[0].severity, Severity::Warning);
    assert_eq!(diags[0].message, "missing `html:` block");
    assert_eq!(diags[0].range, TextRange::at(0, 0));
}

#[test]
fn lower_items_keeps_first_of_repeated_blocks() {
    let source = "html:\n  <a></a>\nhtml:\n  <b></b>\n";
    let items = vec![block(source, "html", "  <a></a>\n"), block(source, "html", "  <b></b>\n")];
    let mut diags = Vec::new();
    let file = lower_items(source, &items, &mut diags);
    assert_eq!(file.html.unwrap().source.text, "  <a></a>\n");
    assert_eq!(diags.len(), 1);
    assert_eq!(diags[0].severity, Severity::Error);
    assert_eq!(diags[0].message, "duplicate `html:` block");
    assert_eq!(diags[0].range, TextRange::at(22, 32));
}

#[test]
fn lower_items_ignores_unknown_blocks() {
    let source = "html:\n  <a></a>\nmeta:\n  x\nmeta:\n  y\n";
    let items = vec![
        block(source, "html", "  <a></a>\n"),
        block(source, "meta", "  x\n"),
        block(source, "meta", "  y\n"),
    ];
    let mut diags = Vec::new();
    let file = lower_items(source, &items, &mut diags);
    assert!(diags.is_empty());
    assert!(file.style.is_none() && file.script.is_none());
}

#[test]
fn lower_items_orders_diagnostics() {
    let source = "@bogus x\nhtml:\n  <p>\nstyle:\n  a\nstyle:\n  b\n";
    let items = vec![
        directive(source, "bogus", "x"),
        block(source, "html", "  <p>\n"),
        block(source, "style", "  a\n"),
        block(source, "style", "  b\n"),
    ];
    let mut diags = Vec::new();
    let file = lower_items(source, &items, &mut diags);
    let messages: Vec<_> = diags.iter().map(|d| d.message.as_str()).collect();
    assert_eq!(
        messages,
        ["duplicate `style:` block", "unclosed element `<p>`", "unknown directive `@bogus`"]
    );
    assert!(file.directives.is_empty());
}
