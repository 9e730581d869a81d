use lunas::sfc::for_parser::{parse_for, ForKind, ParsedFor};


#[test]
fn for_object_entries_1() {
    let pf = parse_for("const [index, value] of Object.entries(data)").expect("expected Some");
    let exp = ParsedFor { kind: ForKind::Of, binding: "[index, value]".into(), iterable: "Object.entries(data)".into() };
    assert_eq!(pf, exp);
}

#[test]
fn for_object_entries_2() {
    let pf = parse_for("var { k , v } of Object.entries( myMap )").expect("expected Some");
    let exp = ParsedFor { kind: ForKind::Of, binding: "{ k , v }".into(), iterable: "Object.entries( myMap )".into() };
    assert_eq!(pf, exp);
}

#[test]
fn for_method_entries_1() {
    let pf = parse_for("const [idx, val] of myData.entries()").expect("expected Some");
    let exp = ParsedFor { kind: ForKind::Of, binding: "[idx, val]".into(), iterable: "myData.entries()".into() };
    assert_eq!(pf, exp);
}

#[test]
fn for_method_entries_2() {
    let pf = parse_for("let [ k, v ] of another_obj.get_items().entries()").expect("expected Some");
    let exp = ParsedFor { kind: ForKind::Of, binding: "[ k, v ]".into(), iterable: "another_obj.get_items().entries()".into() };
    assert_eq!(pf, exp);
}

#[test]
fn for_method_entries_3() {
    let pf = parse_for("[i, b] of bools.entries()").expect("expected Some");
    let exp = ParsedFor { kind: ForKind::Of, binding: "[i, b]".into(), iterable: "bools.entries()".into() };
    assert_eq!(pf, exp);
}

#[test]
fn for_plain_of_1() {
    let pf = parse_for("let value of dataArr").expect("expected Some");
    let exp = ParsedFor { kind: ForKind::Of, binding: "value".into(), iterable: "dataArr".into() };
    assert_eq!(pf, exp);
}

#[test]
fn for_plain_of_2() {
    let pf = parse_for("item of getItems()").expect("expected Some");
    let exp = ParsedFor { kind: ForKind::Of, binding: "item".into(), iterable: "getItems()".into() };
    assert_eq!(pf, exp);
}

#[test]
fn for_plain_of_3() {
    let pf = parse_for("val of obj.prop").expect("expected Some");
    let exp = ParsedFor { kind: ForKind::Of, binding: "val".into(), iterable: "obj.prop".into() };
    assert_eq!(pf, exp);
}
// `Object.entries(ident)` keeps the `.entries()` call (a bare ident
// arg is not unwrapped), matching `object_entries_1`.

#[test]
fn for_whitespace_1() {
    let pf = parse_for(" [ i , v ] of Object.entries(  sampleData ) ").expect("expected Some");
    let exp = ParsedFor { kind: ForKind::Of, binding: "[ i , v ]".into(), iterable: "Object.entries(  sampleData )".into() };
    assert_eq!(pf, exp);
}

#[test]
fn for_whitespace_2() {
    let pf = parse_for("const\t[ index , value ]\rof\t myArr.entries( \n ) ").expect("expected Some");
    let exp = ParsedFor { kind: ForKind::Of, binding: "[ index , value ]".into(), iterable: "myArr.entries( \n )".into() };
    assert_eq!(pf, exp);
}

#[test]
fn for_whitespace_3() {
    let pf = parse_for(" let \t item \n of \t data ").expect("expected Some");
    let exp = ParsedFor { kind: ForKind::Of, binding: "item".into(), iterable: "data".into() };
    assert_eq!(pf, exp);
}

#[test]
fn for_whitespace_4() {
    let pf = parse_for(" key\tin\tobject ").expect("expected Some");
    let exp = ParsedFor { kind: ForKind::In, binding: "key".into(), iterable: "object".into() };
    assert_eq!(pf, exp);
}

#[test]
fn for_fn_rhs_1() {
    let pf = parse_for("item of filteredItems()").expect("expected Some");
    let exp = ParsedFor { kind: ForKind::Of, binding: "item".into(), iterable: "filteredItems()".into() };
    assert_eq!(pf, exp);
}

#[test]
fn for_edge_1() {
    let pf = parse_for("let [ k, v ] of (getObj()).items.entries()").expect("expected Some");
    let exp = ParsedFor { kind: ForKind::Of, binding: "[ k, v ]".into(), iterable: "(getObj()).items".into() };
    assert_eq!(pf, exp);
}

#[test]
fn for_edge_2() {
    let pf = parse_for("const [idx, val] of Object.entries(await getData().then(r => r.json()))").expect("expected Some");
    let exp = ParsedFor { kind: ForKind::Of, binding: "[idx, val]".into(), iterable: "await getData().then(r => r.json())".into() };
    assert_eq!(pf, exp);
}

#[test]
fn for_edge_3() {
    let pf = parse_for("[i6] of [...Array(counts[5]).keys()]").expect("expected Some");
    let exp = ParsedFor { kind: ForKind::Of, binding: "[i6]".into(), iterable: "[...Array(counts[5]).keys()]".into() };
    assert_eq!(pf, exp);
}

#[test]
fn for_edge_4() {
    let pf = parse_for("i of [...Array(bools.length).keys()]").expect("expected Some");
    let exp = ParsedFor { kind: ForKind::Of, binding: "i".into(), iterable: "[...Array(bools.length).keys()]".into() };
    assert_eq!(pf, exp);
}

#[test]
fn for_no_decl_array() {
    let pf = parse_for("[a,b,c] of d").expect("expected Some");
    let exp = ParsedFor { kind: ForKind::Of, binding: "[a,b,c]".into(), iterable: "d".into() };
    assert_eq!(pf, exp);
}

#[test]
fn for_no_decl_object() {
    let pf = parse_for("const {i, v} of nonEntries()").expect("expected Some");
    let exp = ParsedFor { kind: ForKind::Of, binding: "{i, v}".into(), iterable: "nonEntries()".into() };
    assert_eq!(pf, exp);
}

#[test]
fn for_trailing_comma() {
    let pf = parse_for("const [a,] of d").expect("expected Some");
    let exp = ParsedFor { kind: ForKind::Of, binding: "[a,]".into(), iterable: "d".into() };
    assert_eq!(pf, exp);
}

#[test]
fn for_for_in_destructuring() {
    let pf = parse_for("const [i, v] in data.entries()").expect("expected Some");
    let exp = ParsedFor { kind: ForKind::In, binding: "[i, v]".into(), iterable: "data.entries()".into() };
    assert_eq!(pf, exp);
}

#[test]
fn for_plain_in() {
    let pf = parse_for("key in obj").expect("expected Some");
    let exp = ParsedFor { kind: ForKind::In, binding: "key".into(), iterable: "obj".into() };
    assert_eq!(pf, exp);
}

#[test]
fn for_of_keyword_literal() {
    let pf = parse_for("x of [1, 2, 3]").expect("expected Some");
    let exp = ParsedFor { kind: ForKind::Of, binding: "x".into(), iterable: "[1, 2, 3]".into() };
    assert_eq!(pf, exp);
}

#[test]
fn for_invalid_1() {
    assert!(parse_for("for foo bar").is_none());
}

#[test]
fn for_invalid_2() {
    assert!(parse_for("let [a] of").is_none());
}

#[test]
fn for_invalid_extra_tokens() {
    assert!(parse_for("let a in obj extra").is_none());
}

#[test]
fn for_invalid_4() {
    assert!(parse_for("let [a,b c] of data").is_none());
}

#[test]
fn for_invalid_6() {
    assert!(parse_for("x of y z").is_none());
}

#[test]
fn for_invalid_7() {
    assert!(parse_for("in obj").is_none());
}

#[test]
fn for_invalid_8() {
    assert!(parse_for("let x y z of arr").is_none());
}

#[test]
fn for_invalid_empty() {
    assert!(parse_for("").is_none());
}

#[test]
fn for_invalid_13() {
    assert!(parse_for("val of obj.").is_none());
}

#[test]
fn for_invalid_14() {
    assert!(parse_for("val of obj.()").is_none());
}

#[test]
fn for_invalid_plain_for() {
    assert!(parse_for("let i = 0; i < 10; i++").is_none());
}

#[test]
fn for_two_loops_are_not_a_header() {
    assert!(parse_for("x of y){} for(a of b").is_none());
    assert!(parse_for("x of y){}; (0").is_none());
}
