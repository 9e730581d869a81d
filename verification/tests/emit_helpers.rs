use lunas::emit::dedent::dedent;
use lunas::emit::attrs::{attr_set_statement, boolean_property, idl_property, two_way_read};
use lunas::emit::js::{
    js_string, prop_key, push_dep_list, push_indent, push_js_string, push_node_at, push_path,
    push_template_literal_chunk, u32_text,
};
use lunas::emit::mutation::{is_deeply_mutated, match_identifier_occurrences, reactive_box_kinds};
use lunas::emit::names::{
    alias_name, binding_names, child_local_name, is_generated_name, reads_any, strip_path,
};
use lunas::emit::rewrite::{apply_edits, rewrite_expr};
use lunas::model::ReactiveVar;

fn strings(v: &[&str]) -> Vec<String> {
    v.iter().map(|s| s.to_string()).collect()
}

fn var(name: &str, index: u32) -> ReactiveVar {
    ReactiveVar { name: name.to_string(), index, decl_range: None }
}

#[test]
fn decimal_text() {
    assert_eq!(u32_text(0), "0");
    assert_eq!(u32_text(7), "7");
    assert_eq!(u32_text(42), "42");
    assert_eq!(u32_text(4294967295), "4294967295");
}

#[test]
fn indentation_is_two_spaces_per_level() {
    let mut b = String::from("x");
    push_indent(&mut b, 3);
    assert_eq!(b, "x      ");
}

#[test]
fn node_navigation_and_arrays() {
    let mut b = String::new();
    push_node_at(&mut b, "root", &[0, 12]);
    assert_eq!(b, "root.childNodes[0].childNodes[12]");
    let mut b = String::new();
    push_node_at(&mut b, "root", &[]);
    assert_eq!(b, "root");
    let mut p = String::new();
    push_path(&mut p, &[0, 1, 2]);
    assert_eq!(p, "[0, 1, 2]");
    let mut d = String::new();
    push_dep_list(&mut d, &[]);
    assert_eq!(d, "[]");
}

#[test]
fn js_string_escapes() {
    assert_eq!(js_string("a\"b\\c\nd\re\tf"), "\"a\\\"b\\\\c\\nd\\re\\tf\"");
    let mut b = String::from("x=");
    push_js_string(&mut b, "é");
    assert_eq!(b, "x=\"é\"");
}

#[test]
fn object_keys() {
    assert_eq!(prop_key("count"), "count");
    assert_eq!(prop_key("_a$1"), "_a$1");
    assert_eq!(prop_key("data-x"), "\"data-x\"");
    assert_eq!(prop_key("1a"), "\"1a\"");
    assert_eq!(prop_key(""), "\"\"");
}

#[test]
fn template_literal_chunks() {
    let mut b = String::new();
    push_template_literal_chunk(&mut b, "a`b\\c${d}$e");
    assert_eq!(b, "a\\`b\\\\c\\${d}$e");
}

#[test]
fn attribute_properties() {
    assert_eq!(boolean_property("readonly"), Some("readOnly"));
    assert_eq!(boolean_property("checked"), Some("checked"));
    assert_eq!(boolean_property("value"), None);
    assert_eq!(idl_property("value"), Some("value"));
    assert_eq!(idl_property("class"), None);
}

#[test]
fn attribute_set_statements() {
    assert_eq!(attr_set_statement("e0", "disabled", "x"), "e0.disabled = !!(x);");
    assert_eq!(attr_set_statement("e0", "value", "v"), "e0.value = v;");
    assert_eq!(attr_set_statement("e0", "title", "t"), "e0.setAttribute(\"title\", t);");
}

#[test]
fn two_way_reads() {
    assert_eq!(two_way_read("e1", "checked"), ("change", "e1.checked".to_string()));
    assert_eq!(two_way_read("e1", "value"), ("input", "e1.value".to_string()));
    assert_eq!(two_way_read("e1", "title"), ("input", "e1.title".to_string()));
    assert_eq!(two_way_read("e1", "data-x"), ("input", "e1.getAttribute(\"data-x\")".to_string()));
}

#[test]
fn generated_names() {
    assert!(is_generated_name("e0"));
    assert!(is_generated_name("t12"));
    assert!(!is_generated_name("e"));
    assert!(!is_generated_name("x1"));
    assert!(!is_generated_name("a1b"));
}

#[test]
fn aliases_avoid_reserved_names() {
    assert_eq!(alias_name("on", &strings(&[])), "$on");
    assert_eq!(alias_name("on", &strings(&["$on", "$on_"])), "$on__");
    assert_eq!(child_local_name("Button", &strings(&[])), "Button");
    assert_eq!(child_local_name("Button", &strings(&["Button"])), "Button$");
    assert_eq!(child_local_name("e0", &strings(&[])), "e0$");
    assert_eq!(child_local_name("B", &strings(&["B", "B$"])), "B$_");
}

#[test]
fn paths_are_stripped() {
    assert_eq!(strip_path(&[1, 2, 3], 1), &[2, 3]);
    assert_eq!(strip_path(&[1, 2], 2), &[] as &[u32]);
    assert_eq!(strip_path(&[1], 2), &[] as &[u32]);
}

#[test]
fn for_binding_names() {
    assert_eq!(binding_names("item"), ["item"]);
    assert_eq!(binding_names(" [i, v] "), ["i", "v"]);
    assert_eq!(binding_names("{a, b}"), ["a", "b"]);
    assert!(binding_names("   ").is_empty());
}

#[test]
fn reads_any_names() {
    assert!(reads_any("item.x + 1", &strings(&["item"])));
    assert!(!reads_any("other + 1", &strings(&["item"])));
    assert!(!reads_any("item", &strings(&[])));
    assert!(reads_any("= = =", &strings(&["item"])));
    assert!(!reads_any("items.map(item => item)", &strings(&["item"])));
}

#[test]
fn identifier_occurrences() {
    assert_eq!(match_identifier_occurrences("a ab a.b ba a", "a"), vec![(0, 1), (5, 6), (12, 13)]);
    assert!(match_identifier_occurrences("abc", "").is_empty());
}

#[test]
fn deep_mutation_heuristic() {
    assert!(is_deeply_mutated("list.push(1)", "list"));
    assert!(is_deeply_mutated("obj . x  = 2", "obj"));
    assert!(is_deeply_mutated("obj.count++", "obj"));
    assert!(is_deeply_mutated("arr[0] = 1", "arr"));
    assert!(!is_deeply_mutated("obj.x == 2", "obj"));
    assert!(!is_deeply_mutated("list = []", "list"));
    assert!(!is_deeply_mutated("mylist.push(1)", "list"));
    assert!(!is_deeply_mutated("list.pushy(1)", "list"));
}

#[test]
fn box_kinds_follow_mutation() {
    let kinds = reactive_box_kinds("items.push(x); count = 1", &[var("count", 0), var("items", 1)]);
    assert_eq!(kinds, vec![("box", 0), ("deepBox", 1)]);
}

#[test]
fn edits_apply_right_to_left() {
    let edits = vec![(1, 1, ".v".to_string()), (5, 5, ".v".to_string()), (2, 4, "XY".to_string())];
    assert_eq!(apply_edits("a + bc", edits), "a.v XYb.vc");
    let bad = vec![(3, 2, "x".to_string()), (0, 99, "y".to_string())];
    assert_eq!(apply_edits("abc", bad), "abc");
    let same = vec![(1, 1, "1".to_string()), (1, 1, "2".to_string())];
    assert_eq!(apply_edits("ab", same), "a21b");
}

#[test]
fn expressions_rewritten_for_reactivity() {
    let vars = vec![var("count", 0), var("items", 1)];
    let none: Vec<String> = Vec::new();
    assert_eq!(rewrite_expr(" count + 1 ", &vars, &none), "count.v + 1");
    assert_eq!(rewrite_expr("items.map(count => count)", &vars, &none), "items.v.map(count => count)");
    assert_eq!(rewrite_expr("count", &vars, &strings(&["count", "items"])), "count");
    assert_eq!(rewrite_expr("count", &[], &none), "count");
    assert_eq!(rewrite_expr(" = = ", &vars, &none), "= =");
}

#[test]
fn dedent_removes_common_indent() {
    assert_eq!(dedent("    a\n      b\n    c"), "a\n  b\nc");
}

#[test]
fn dedent_keeps_blank_lines_empty() {
    assert_eq!(dedent("  a\n\n  b\n"), "a\n\nb");
}

#[test]
fn dedent_cuts_whitespace_only_lines_too() {
    assert_eq!(dedent("  a\n   \n  b"), "a\n \nb");
}

#[test]
fn dedent_strips_carriage_returns() {
    assert_eq!(dedent("\t\tx = 1\r\n\t\ty = 2\r\n"), "x = 1\ny = 2");
}

#[test]
fn dedent_counts_indent_in_characters() {
    assert_eq!(dedent("\u{3000}x\n\u{3000}\u{3000}y"), "x\n\u{3000}y");
}

#[test]
fn dedent_without_content_lines_cuts_nothing() {
    assert_eq!(dedent(""), "");
    assert_eq!(dedent("  \n  "), "  \n  ");
}

#[test]
fn dedent_short_line_is_trimmed_at_start() {
    // The blank second line is shorter than the common indent.
    assert_eq!(dedent("    f()\n \n    g()"), "f()\n\ng()");
}

#[test]
fn dedent_mixed_width_indent_does_not_split_characters() {
    assert_eq!(dedent("\u{3000}a\n b"), "a\nb");
}
