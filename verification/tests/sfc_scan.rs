use lunas::diagnostic::Severity;
use lunas::sfc::scan::{scan_segments, Interpolation, TextSegment};
use lunas::span::{TextRange, TextSize};

fn scan(text: &str, base: u32) -> (Vec<TextSegment>, Vec<lunas::diagnostic::Diagnostic>) {
    let mut diags = Vec::new();
    let segs = scan_segments(text, TextSize::new(base), &mut diags);
    (segs, diags)
}

fn lit(text: &str, lo: u32, hi: u32) -> TextSegment {
    TextSegment::Literal { text: text.to_string(), range: TextRange::at(lo, hi) }
}

fn interp(expr: &str, lo: u32, hi: u32) -> TextSegment {
    TextSegment::Interpolation(Interpolation {
        expr: expr.to_string(),
        range: TextRange::at(lo, hi),
        expr_range: TextRange::at(lo + 2, hi - 1),
    })
}

#[test]
fn scan_plain_literal() {
    let (segs, diags) = scan("hello", 0);
    assert_eq!(segs, vec![lit("hello", 0, 5)]);
    assert!(diags.is_empty());
}

#[test]
fn scan_empty_text() {
    let (segs, diags) = scan("", 3);
    assert!(segs.is_empty());
    assert!(diags.is_empty());
}

#[test]
fn scan_single_interpolation() {
    let (segs, diags) = scan("${count}", 0);
    assert_eq!(segs, vec![interp("count", 0, 8)]);
    assert!(diags.is_empty());
}

#[test]
fn scan_interpolation_between_literals_with_base() {
    let (segs, _) = scan("a ${x} b", 10);
    assert_eq!(segs, vec![lit("a ", 10, 12), interp("x", 12, 16), lit(" b", 16, 18)]);
}

#[test]
fn scan_nested_braces() {
    let (segs, _) = scan("${ {a:1}.a }", 0);
    assert_eq!(segs, vec![interp(" {a:1}.a ", 0, 12)]);
}

#[test]
fn scan_brace_in_string() {
    let (segs, _) = scan("${ \"}\" }", 0);
    assert_eq!(segs, vec![interp(" \"}\" ", 0, 8)]);
}

#[test]
fn scan_escaped_quote_in_string() {
    let (segs, _) = scan("${ '\\'}' }", 0);
    assert_eq!(segs, vec![interp(" '\\'}' ", 0, 10)]);
}

#[test]
fn scan_template_literal_substitution() {
    let (segs, _) = scan("${ `a${b}c` }x", 0);
    assert_eq!(segs, vec![interp(" `a${b}c` ", 0, 13), lit("x", 13, 14)]);
}

#[test]
fn scan_empty_interpolation_warns() {
    let (segs, diags) = scan("${ }", 5);
    assert_eq!(segs, vec![interp(" ", 5, 9)]);
    assert_eq!(diags.len(), 1);
    assert_eq!(diags[0].severity, Severity::Warning);
    assert_eq!(diags[0].range, TextRange::at(5, 9));
    assert_eq!(diags[0].message, "empty interpolation `${}`");
}

#[test]
fn scan_unterminated_reports_and_keeps_text() {
    let (segs, diags) = scan("a ${x", 0);
    assert_eq!(segs, vec![lit("a ", 0, 2), lit("${x", 2, 5)]);
    assert_eq!(diags.len(), 1);
    assert_eq!(diags[0].severity, Severity::Error);
    assert_eq!(diags[0].range, TextRange::at(2, 5));
    assert_eq!(diags[0].message, "unterminated interpolation: missing `}` for `${`");
}

#[test]
fn scan_dollar_without_brace_is_literal() {
    let (segs, diags) = scan("$a $", 0);
    assert_eq!(segs, vec![lit("$a $", 0, 4)]);
    assert!(diags.is_empty());
}

#[test]
fn scan_multibyte_literal() {
    let (segs, _) = scan("é${x}", 0);
    assert_eq!(segs, vec![lit("é", 0, 2), interp("x", 2, 6)]);
}

fn seg_range(s: &TextSegment) -> TextRange {
    match s {
        TextSegment::Literal { range, .. } => *range,
        TextSegment::Interpolation(i) => i.range,
    }
}

#[test]
fn scan_segments_cover_the_run_in_order() {
    let text = "a ${x} b ${ {c:1}.c }${\"}\"}!";
    let (segs, diags) = scan(text, 40);
    assert!(diags.is_empty());
    assert_eq!(segs.len(), 6);
    let mut at = 40;
    for s in &segs {
        let r = seg_range(s);
        assert_eq!(r.start().raw(), at);
        assert!(r.end().raw() > at);
        at = r.end().raw();
    }
    assert_eq!(at, 40 + text.len() as u32);
}

#[test]
fn scan_unterminated_keeps_text_once() {
    let (segs, diags) = scan("a${b", 0);
    assert_eq!(segs, vec![lit("a", 0, 1), lit("${b", 1, 4)]);
    assert_eq!(diags.len(), 1);
}

#[test]
fn scan_regex_literal_does_not_close() {
    let (segs, diags) = scan("${ /}/.test(x) }", 0);
    assert!(diags.is_empty());
    assert_eq!(segs, vec![interp(" /}/.test(x) ", 0, 16)]);
}

#[test]
fn scan_division_is_not_a_regex() {
    let (segs, _) = scan("${ a / b }c/}", 0);
    assert_eq!(segs, vec![interp(" a / b ", 0, 10), lit("c/}", 10, 13)]);
}

#[test]
fn scan_regex_with_class_and_escape() {
    let (segs, _) = scan("${ x.replace(/[}\\/]/g, '') }!", 0);
    assert_eq!(segs.len(), 2);
    assert_eq!(segs[1], lit("!", 28, 29));
}

#[test]
fn scan_comments_are_skipped() {
    let (segs, _) = scan("${ a /* } */ }${ b // }\n }", 0);
    assert_eq!(segs, vec![interp(" a /* } */ ", 0, 14), interp(" b // }\n ", 14, 26)]);
}
