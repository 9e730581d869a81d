use lunas::script::analysis::{tree_free, tree_refs};
use lunas::script::json::{Json, Member};
use lunas::sfc::for_parser::{for_header, ForKind};

fn obj(members: Vec<(&str, Json)>) -> Json {
    Json::Object(members.into_iter().map(|(k, v)| Member { key: k.to_string(), value: v }).collect())
}

fn num(n: u32) -> Json {
    Json::Number(n.to_string())
}

fn span(lo: u32, hi: u32) -> Json {
    obj(vec![("start", num(lo)), ("end", num(hi))])
}

fn ident(name: &str, lo: u32) -> Json {
    obj(vec![
        ("type", Json::Str("Identifier".to_string())),
        ("span", span(lo, lo + name.len() as u32)),
        ("ctxt", num(0)),
        ("value", Json::Str(name.to_string())),
        ("optional", Json::Bool(false)),
    ])
}

fn module(stmt: Json) -> Json {
    obj(vec![("type", Json::Str("Module".to_string())), ("body", Json::Array(vec![stmt]))])
}

#[test]
fn for_header_reads_the_tree() {
    let src = "for(x of y){}";
    let stmt = obj(vec![
        ("type", Json::Str("ForOfStatement".to_string())),
        ("span", span(1, 14)),
        ("left", ident("x", 5)),
        ("right", ident("y", 10)),
    ]);
    let p = for_header(src, 1, &module(stmt)).expect("header");
    assert_eq!(p.kind, ForKind::Of);
    assert_eq!(p.binding, "x");
    assert_eq!(p.iterable, "y");
}

#[test]
fn for_header_needs_the_whole_text() {
    let src = "for(x of y){}";
    let stmt = obj(vec![
        ("type", Json::Str("ForOfStatement".to_string())),
        ("span", span(1, 12)),
        ("left", ident("x", 5)),
        ("right", ident("y", 10)),
    ]);
    assert!(for_header(src, 1, &module(stmt)).is_none());
}

#[test]
fn tree_walks_report_identifiers() {
    // `(a + b)` as swc serializes it.
    let expr = obj(vec![
        ("type", Json::Str("BinaryExpression".to_string())),
        ("span", span(2, 7)),
        ("operator", Json::Str("+".to_string())),
        ("left", ident("a", 2)),
        ("right", ident("b", 6)),
    ]);
    let stmt = obj(vec![
        ("type", Json::Str("ExpressionStatement".to_string())),
        ("span", span(1, 9)),
        ("expression", expr),
    ]);
    let m = module(stmt);
    assert_eq!(tree_refs(&m), vec!["a".to_string(), "b".to_string()]);
    assert_eq!(tree_free(&m), vec!["a".to_string(), "b".to_string()]);
}
