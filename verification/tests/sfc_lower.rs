use lunas::diagnostic::Severity;
use lunas::sfc::ir::Directive;
use lunas::sfc::lower::{
    extract_block_source, is_ident, leading_ws_len, lower_directive, parse_input, parse_use,
    strip_common_indent, unquote, RawDirective,
};
use lunas::span::TextRange;

#[test]
fn strip_common_indent_basic() {
    assert_eq!(strip_common_indent("    a\n    b"), "a\nb");
}

#[test]
fn strip_preserves_relative_indent() {
    assert_eq!(strip_common_indent("    a\n        b\n    c"), "a\n    b\nc");
}

#[test]
fn strip_blank_lines() {
    assert_eq!(strip_common_indent("    a\n\n    b"), "a\n\nb");
}

#[test]
fn strip_tabs() {
    assert_eq!(strip_common_indent("\t\ta\n\t\tb"), "a\nb");
}

#[test]
fn input_full() {
    let p = parse_input("count: number = 0").expect("ok");
    assert_eq!(p.name, "count");
    assert_eq!(p.type_annotation.as_deref(), Some("number"));
    assert_eq!(p.default_value.as_deref(), Some("0"));
    assert!(!p.nullable);
}

#[test]
fn lower_input_nullable() {
    let p = parse_input("name: string? = \"x\"").expect("ok");
    assert!(p.nullable);
    assert_eq!(p.type_annotation.as_deref(), Some("string"));
    assert_eq!(p.default_value.as_deref(), Some("\"x\""));
}

#[test]
fn input_type_only() {
    let p = parse_input("flag: boolean").expect("ok");
    assert_eq!(p.type_annotation.as_deref(), Some("boolean"));
    assert_eq!(p.default_value, None);
    assert!(!p.nullable);
}

#[test]
fn input_no_type() {
    let p = parse_input("x:").expect("ok");
    assert_eq!(p.type_annotation, None);
    assert_eq!(p.default_value, None);
}

#[test]
fn input_nullable_no_default() {
    let p = parse_input("x: T?").expect("ok");
    assert!(p.nullable);
    assert_eq!(p.type_annotation.as_deref(), Some("T"));
}

#[test]
fn input_invalid_no_colon() {
    assert!(parse_input("noColon").is_none());
}

#[test]
fn use_double_quotes() {
    let u = parse_use("Button from \"./Button\"").expect("ok");
    assert_eq!(u.component_name, "Button");
    assert_eq!(u.path, "./Button");
}

#[test]
fn use_single_quotes() {
    let u = parse_use("Card from './Card.lunas'").expect("ok");
    assert_eq!(u.path, "./Card.lunas");
}

#[test]
fn use_invalid_no_from() {
    assert!(parse_use("Button \"./x\"").is_none());
}

#[test]
fn use_invalid_unquoted() {
    assert!(parse_use("Button from ./x").is_none());
}

#[test]
fn strip_trims_surrounding_blank_lines_and_crlf() {
    assert_eq!(strip_common_indent("\n  a\r\n    b\n\n"), "a\n  b");
    assert_eq!(strip_common_indent(""), "");
    assert_eq!(strip_common_indent("   \n  "), "");
}

#[test]
fn leading_whitespace_counts_spaces_and_tabs() {
    assert_eq!(leading_ws_len(" \t x "), 3);
    assert_eq!(leading_ws_len("x"), 0);
    assert_eq!(leading_ws_len(""), 0);
}

#[test]
fn block_source_keeps_range() {
    let src = "html:\n    <p>\n      x\n";
    let range = TextRange::at(6, src.len() as u32);
    let b = extract_block_source(src, range);
    assert_eq!(b.text, "<p>\n  x");
    assert_eq!(b.range, range);
    let bad = extract_block_source(src, TextRange::at(3, 100));
    assert_eq!(bad.text, "");
}

#[test]
fn unquote_cases() {
    assert_eq!(unquote("\"a b\"").as_deref(), Some("a b"));
    assert_eq!(unquote("'x'").as_deref(), Some("x"));
    assert_eq!(unquote("''").as_deref(), Some(""));
    assert_eq!(unquote("\"x'"), None);
    assert_eq!(unquote("\""), None);
    assert_eq!(unquote("x"), None);
}

#[test]
fn ident_cases() {
    assert!(is_ident("count"));
    assert!(is_ident("_x$1"));
    assert!(is_ident("café"));
    assert!(!is_ident("1x"));
    assert!(!is_ident("a-b"));
    assert!(!is_ident(""));
}

#[test]
fn input_rejects_non_identifier_name() {
    assert!(parse_input("1x: number").is_none());
    assert!(parse_input(" : number").is_none());
}

#[test]
fn input_empty_default_is_none() {
    let p = parse_input("x: number =  ").expect("ok");
    assert_eq!(p.default_value, None);
    assert_eq!(p.type_annotation.as_deref(), Some("number"));
    assert_eq!(p.range, TextRange::at(0, 0));
}

#[test]
fn use_rejects_bad_name() {
    assert!(parse_use("1Button from \"./x\"").is_none());
    assert!(parse_use(" from \"./x\"").is_none());
}

fn raw(keyword: &str, range: Option<TextRange>) -> RawDirective {
    RawDirective { keyword: keyword.to_string(), params: None, body_range: range }
}

#[test]
fn lower_input_directive_sets_range() {
    let src = "@input\n  count: number = 1\n";
    let r = TextRange::at(7, src.len() as u32);
    let mut diags = Vec::new();
    match lower_directive(src, &raw("input", Some(r)), &mut diags) {
        Some(Directive::Input(p)) => {
            assert_eq!(p.name, "count");
            assert_eq!(p.default_value.as_deref(), Some("1"));
            assert_eq!(p.range, r);
        }
        other => panic!("unexpected {:?}", other),
    }
    assert!(diags.is_empty());
}

#[test]
fn lower_use_directive() {
    let src = "@use\nCard from './Card.lunas'";
    let r = TextRange::at(5, src.len() as u32);
    let mut diags = Vec::new();
    match lower_directive(src, &raw("use", Some(r)), &mut diags) {
        Some(Directive::UseComponent(u)) => {
            assert_eq!(u.component_name, "Card");
            assert_eq!(u.path, "./Card.lunas");
            assert_eq!(u.range, r);
        }
        other => panic!("unexpected {:?}", other),
    }
    assert!(diags.is_empty());
}

#[test]
fn lower_invalid_input_reports_error() {
    let mut diags = Vec::new();
    let d = lower_directive("noColon", &raw("input", Some(TextRange::at(0, 7))), &mut diags);
    assert!(d.is_none());
    assert_eq!(diags.len(), 1);
    assert_eq!(diags[0].severity, Severity::Error);
    assert_eq!(diags[0].range, TextRange::at(0, 7));
    assert_eq!(diags[0].message, "invalid `@input` declaration; expected `name: Type = default`");
}

#[test]
fn lower_invalid_use_reports_error() {
    let mut diags = Vec::new();
    let d = lower_directive("", &raw("use", None), &mut diags);
    assert!(d.is_none());
    assert_eq!(diags[0].severity, Severity::Error);
    assert_eq!(diags[0].range, TextRange::at(0, 0));
    assert_eq!(diags[0].message, "invalid `@use` declaration; expected `Name from \"path\"`");
}

#[test]
fn lower_routing_directives() {
    let mut diags = Vec::new();
    assert_eq!(lower_directive("", &raw("useAutoRouting", None), &mut diags), Some(Directive::UseAutoRouting));
    assert_eq!(lower_directive("", &raw("useRouting", None), &mut diags), Some(Directive::UseRouting));
    assert!(diags.is_empty());
}

#[test]
fn lower_unknown_directive_warns() {
    let mut diags = vec![];
    let d = lower_directive("", &raw("frobnicate", Some(TextRange::at(0, 0))), &mut diags);
    assert!(d.is_none());
    assert_eq!(diags[0].severity, Severity::Warning);
    assert_eq!(diags[0].message, "unknown directive `@frobnicate`");
}
