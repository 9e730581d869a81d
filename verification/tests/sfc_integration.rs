use lunas::diagnostic::{Diagnostic, Severity};
use lunas::html::dom::Node;
use lunas::line_index::LineCol;
use lunas::sfc::file::{ParsedFile, RawItem, RawLanguageBlock};
use lunas::sfc::split::split_items;
use lunas::sfc::ir::Directive;
use lunas::sfc::lower::RawDirective;
use lunas::span::TextRange;

fn parse(src: &str) -> (ParsedFile, Vec<Diagnostic>) {
    lunas::sfc::split::parse(src)
}

fn no_errors(diags: &[Diagnostic]) -> bool {
    !diags.iter().any(|d| d.severity == Severity::Error)
}

#[test]
fn full_realistic_file() {
    let src = "@input(optional)\n\
               count: number = 0\n\
               \n\
               @use()\n\
               Button from \"./Button\"\n\
               \n\
               html:\n\
               \x20   <div>{{ count }}</div>\n\
               \n\
               style:\n\
               \x20   div { color: red; }\n\
               \n\
               script:\n\
               \x20   let count: number = 0\n";
    let (file, diags) = parse(src);
    assert!(no_errors(&diags), "unexpected errors: {:?}", diags);
    assert!(file.html.is_some());
    assert!(file.style.is_some());
    assert!(file.script.is_some());
    assert_eq!(file.directives.len(), 2);
    match &file.directives[0] {
        Directive::Input(p) => {
            assert_eq!(p.name, "count");
            assert_eq!(p.type_annotation.as_deref(), Some("number"));
            assert_eq!(p.default_value.as_deref(), Some("0"));
        }
        other => panic!("expected input, got {:?}", other),
    }
    match &file.directives[1] {
        Directive::UseComponent(u) => {
            assert_eq!(u.component_name, "Button");
            assert_eq!(u.path, "./Button");
        }
        other => panic!("expected use, got {:?}", other),
    }
    let script = file.script.as_ref().expect("script");
    assert!(script.text.contains("let count: number = 0"));
}

#[test]
fn directive_no_params() {
    let (file, _) = parse("@useAutoRouting\nhtml:\n    <p/>\n");
    assert!(matches!(file.directives[0], Directive::UseAutoRouting));
}

#[test]
fn use_routing_directive() {
    let (file, _) = parse("@useRouting\nhtml:\n    <p/>\n");
    assert!(matches!(file.directives[0], Directive::UseRouting));
}

#[test]
fn integration_input_nullable() {
    let (file, diags) = parse("@input\nname: string? = \"x\"\nhtml:\n    <p/>\n");
    assert!(no_errors(&diags));
    match &file.directives[0] {
        Directive::Input(p) => {
            assert!(p.nullable);
            assert_eq!(p.type_annotation.as_deref(), Some("string"));
        }
        _ => panic!("expected input"),
    }
}

#[test]
fn multiple_inputs() {
    let src = "@input\na: number\n@input\nb: string\nhtml:\n    <p/>\n";
    let (file, diags) = parse(src);
    assert!(no_errors(&diags));
    assert_eq!(file.directives.len(), 2);
}

#[test]
fn only_html() {
    let (file, diags) = parse("html:\n    <div></div>\n");
    assert!(no_errors(&diags));
    assert!(file.html.is_some());
    assert!(file.script.is_none());
    assert!(file.style.is_none());
}

#[test]
fn html_and_script() {
    let (file, diags) = parse("html:\n    <p/>\nscript:\n    let x = 1\n");
    assert!(no_errors(&diags));
    assert!(file.html.is_some());
    assert!(file.script.is_some());
}

#[test]
fn missing_html_warns() {
    let (file, diags) = parse("script:\n    let x = 1\n");
    assert!(file.html.is_none());
    assert!(diags.iter().any(|d| d.message.contains("missing `html:`")));
}

#[test]
fn duplicate_block_errors() {
    let (_file, diags) = parse("html:\n    <p/>\nhtml:\n    <span/>\n");
    assert!(diags.iter().any(|d| d.message.contains("duplicate")));
}

#[test]
fn tab_indentation() {
    let (file, diags) = parse("html:\n    <p/>\nscript:\n\tlet x = 1\n");
    assert!(no_errors(&diags));
    assert_eq!(file.script.as_ref().unwrap().text, "let x = 1");
}

#[test]
fn deeper_relative_indent_preserved() {
    let src = "html:\n    <p/>\nscript:\n    if (x) {\n        y()\n    }\n";
    let (file, _) = parse(src);
    let text = &file.script.as_ref().unwrap().text;
    assert_eq!(text, "if (x) {\n    y()\n}");
}

#[test]
fn html_block_keeps_raw_indentation() {
    let src = "html:\n    <ul>\n        <li/>\n    </ul>\n";
    let (file, _) = parse(src);
    let block = file.html.as_ref().unwrap();
    assert_eq!(block.source.range.slice(src), Some(block.source.text.as_str()));
    assert!(block.source.text.contains("    <ul>"));
}

#[test]
fn html_dom_ranges_are_file_absolute() {
    let src = "html:\n    <div id=\"a\">hi</div>\n";
    let (file, _) = parse(src);
    let dom = &file.html.as_ref().unwrap().dom;
    let div = dom
        .children
        .iter()
        .find_map(|n| match n {
            Node::Element(e) => Some(e),
            _ => None,
        })
        .expect("element");
    assert_eq!(div.range.slice(src), Some("<div id=\"a\">hi</div>"));
    assert_eq!(div.open_tag_range.slice(src), Some("<div id=\"a\">"));
    assert_eq!(div.attributes[0].range.slice(src), Some("id=\"a\""));
}

#[test]
fn blank_lines_inside_body() {
    let src = "script:\n    let a = 1\n\n    let b = 2\n";
    let (file, diags) = parse(src);
    assert!(no_errors(&diags));
    assert!(file.script.as_ref().unwrap().text.contains("\n\n"));
}

#[test]
fn body_text_with_keyword_strings() {
    let src = "html:\n    <p>html: and @input are text</p>\n";
    let (file, diags) = parse(src);
    assert!(no_errors(&diags));
    assert_eq!(file.directives.len(), 0);
    assert!(file.html.as_ref().unwrap().source.text.contains("@input"));
}

#[test]
fn empty_script_block() {
    let (file, diags) = parse("html:\n    <p/>\nscript:\n");
    assert!(no_errors(&diags), "{:?}", diags);
    let _ = file;
}

#[test]
fn script_text_preserved_verbatim() {
    let src = "html:\n    <p/>\nscript:\n    interface A { x: number }\n    let y: A = { x: 1 }\n";
    let (file, diags) = parse(src);
    assert!(no_errors(&diags));
    let text = &file.script.as_ref().unwrap().text;
    assert!(text.contains("interface A { x: number }"));
    assert!(text.contains("let y: A = { x: 1 }"));
}

#[test]
fn block_source_range_maps_to_original() {
    let src = "html:\n    <div>x</div>\n";
    let (file, _) = parse(src);
    let range = file.html.as_ref().unwrap().source.range;
    let region = range.slice(src).expect("slice");
    assert!(region.contains("    <div>x</div>"));
}

#[test]
fn lunas_to_script_inside_and_outside() {
    let src = "html:\n    <p/>\nscript:\n    let a = 1\n    let b = 2\n";
    let (file, _) = parse(src);
    let script = file.script.as_ref().unwrap();
    let start_line = file.line_index.line_col(script.range.start()).line;
    let mapped = file.lunas_to_script(LineCol::new(start_line, 4));
    assert_eq!(mapped, Some(LineCol::new(0, 4)));
    assert_eq!(file.lunas_to_script(LineCol::new(0, 0)), None);
}

#[test]
fn script_to_lunas_roundtrip() {
    let src = "html:\n    <p/>\nscript:\n    let a = 1\n    let b = 2\n";
    let (file, _) = parse(src);
    let back = file.script_to_lunas(LineCol::new(0, 4)).expect("some");
    let forward = file.lunas_to_script(back).expect("some");
    assert_eq!(forward, LineCol::new(0, 4));
}

#[test]
fn lunas_to_script_none_without_script() {
    let (file, _) = parse("html:\n    <p/>\n");
    assert_eq!(file.lunas_to_script(LineCol::new(0, 0)), None);
}

#[test]
fn crlf_line_endings() {
    let src = "html:\r\n    <div></div>\r\n";
    let (file, diags) = parse(src);
    assert!(no_errors(&diags), "{:?}", diags);
    assert!(file.html.is_some());
}

#[test]
fn no_trailing_newline() {
    let (file, diags) = parse("html:\n    <p/>");
    assert!(no_errors(&diags));
    assert!(file.html.is_some());
}

#[test]
fn trailing_newline() {
    let (file, diags) = parse("html:\n    <p/>\n");
    assert!(no_errors(&diags));
    assert!(file.html.is_some());
}

#[test]
fn use_integration_calls_html_parser() {
    let (file, _) = parse("html:\n    <div></div>\n");
    let dom = &file.html.as_ref().unwrap().dom;
    let _ = dom.kind;
}

#[test]
fn varying_indent_depth() {
    let (file, _) = parse("html:\n    <p/>\nscript:\n        let x = 1\n");
    assert_eq!(file.script.as_ref().unwrap().text, "let x = 1");
}

#[test]
fn script_positions_map_by_line() {
    let src = "html:\n    <p/>\nscript:\n    let a = 1\n    let b = 2\n";
    let (file, _) = parse(src);
    assert_eq!(file.line_index.line_col(lunas::span::TextSize::new(0)), LineCol::new(0, 0));
    assert_eq!(file.line_index.line_col(lunas::span::TextSize::new(17)), LineCol::new(2, 2));
    assert_eq!(file.lunas_to_script(LineCol::new(4, 7)), Some(LineCol::new(1, 7)));
    assert_eq!(file.script_to_lunas(LineCol::new(1, 7)), Some(LineCol::new(4, 7)));
}

#[test]
fn split_items_reads_blocks_and_directives() {
    let src = "@input(optional)\ncount: number = 0\r\n\n@use()\nhtml:  \n  <p/>\n\n  <b/>\nstray\nscript:\n";
    let items = split_items(src);
    assert_eq!(items.len(), 3);
    assert_eq!(
        items[0],
        RawItem::Directive(RawDirective {
            keyword: "input".to_string(),
            params: Some("optional".to_string()),
            body_range: Some(TextRange::at(17, 34)),
        })
    );
    assert_eq!(
        items[1],
        RawItem::Directive(RawDirective { keyword: "use".to_string(), params: Some(String::new()), body_range: None })
    );
    assert_eq!(
        items[2],
        RawItem::LanguageBlock(RawLanguageBlock { name: "html".to_string(), body_range: TextRange::at(52, 67) })
    );
}

#[test]
fn split_items_plain_directive_and_text() {
    assert!(split_items("").is_empty());
    assert!(split_items("just text\n:\n1:\n").is_empty());
    let items = split_items("@useRouting");
    assert_eq!(
        items,
        vec![RawItem::Directive(RawDirective { keyword: "useRouting".to_string(), params: None, body_range: None })]
    );
}
