use lunas::script::ast::parse_to_ast_json;
use lunas::script::json::Json;

fn member<'a>(j: &'a Json, key: &str) -> &'a Json {
    match j {
        Json::Object(ms) => &ms.iter().find(|m| m.key == key).expect("member").value,
        other => panic!("expected object, got {:?}", other),
    }
}

fn item(j: &Json, i: usize) -> &Json {
    match j {
        Json::Array(v) => &v[i],
        other => panic!("expected array, got {:?}", other),
    }
}

fn text(j: &Json) -> &str {
    match j {
        Json::Str(s) => s.as_str(),
        other => panic!("expected string, got {:?}", other),
    }
}

#[test]
fn parses_simple_js() {
    let ast = parse_to_ast_json("let count = 0;").expect("parse ok");
    assert_eq!(text(member(&ast, "type")), "Module");
    assert!(matches!(member(&ast, "body"), Json::Array(_)));
    assert_eq!(text(member(item(member(&ast, "body"), 0), "type")), "VariableDeclaration");
}

#[test]
fn empty_input_is_ok() {
    let ast = parse_to_ast_json("").expect("parse ok");
    assert_eq!(text(member(&ast, "type")), "Module");
    match member(&ast, "body") {
        Json::Array(v) => assert_eq!(v.len(), 0),
        other => panic!("expected array, got {:?}", other),
    }
}

#[test]
fn captures_function_and_import() {
    let ast = parse_to_ast_json("import x from 'y';\nfunction f(){}").expect("ok");
    assert_eq!(text(member(item(member(&ast, "body"), 0), "type")), "ImportDeclaration");
    assert_eq!(text(member(item(member(&ast, "body"), 1), "type")), "FunctionDeclaration");
}

#[test]
fn parses_typescript_natively_without_stripping() {
    let ast = parse_to_ast_json("let count: number = 0\ninterface A { x: number }").expect("ok");
    assert_eq!(text(member(&ast, "type")), "Module");
    assert_eq!(text(member(item(member(&ast, "body"), 0), "type")), "VariableDeclaration");
}

#[test]
fn invalid_js_is_error() {
    assert!(parse_to_ast_json("let = = =").is_err());
}

fn number(j: &Json) -> u64 {
    match j {
        Json::Number(n) => n.parse().expect("integer"),
        other => panic!("expected number, got {:?}", other),
    }
}

#[test]
fn statements_carry_span_bounds() {
    let ast = parse_to_ast_json("let a = 1;\nlet b = 22;").expect("ok");
    let body = member(&ast, "body");
    let first = member(item(body, 0), "span");
    let second = member(item(body, 1), "span");
    assert_eq!(number(member(first, "hi")) - number(member(first, "lo")), 10);
    assert_eq!(number(member(second, "hi")) - number(member(second, "lo")), 11);
    assert_eq!(number(member(second, "lo")) - number(member(first, "lo")), 11);
    match &ast {
        Json::Object(ms) => assert_eq!(ms.len(), 2),
        _ => panic!("expected object"),
    }
}
