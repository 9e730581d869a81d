use lunas::html::dom::{Element, Node};
use lunas::html::parser::parse_html;
use lunas::span::TextRange;

fn within(inner: TextRange, outer: TextRange) -> bool {
    outer.start().raw() <= inner.start().raw() && inner.end().raw() <= outer.end().raw()
}

/// Soundness for one element subtree: in-bounds and on char boundaries.
fn check_element_sound(el: &Element, file: TextRange, source: &str) {
    assert!(within(el.range, file), "element out of file bounds");
    assert!(el.range.slice(source).is_some(), "element range off char boundary");
    for attr in &el.attributes {
        assert!(within(attr.range, file), "attr out of file bounds");
        assert!(attr.range.slice(source).is_some(), "attr range off char boundary");
    }
    for child in &el.children {
        assert!(within(child.range(), file), "child out of file bounds");
        if let Node::Element(c) = child {
            check_element_sound(c, file, source);
        }
    }
}

/// Parent-child containment for one element subtree (well-formed input only).
fn check_element_containment(el: &Element, file: TextRange) {
    assert!(within(el.range, file), "element out of file bounds");
    assert!(within(el.open_tag_range, el.range), "open tag not within element");
    for attr in &el.attributes {
        assert!(within(attr.range, el.open_tag_range), "attr not within open tag");
    }
    for child in &el.children {
        assert!(within(child.range(), el.range), "child escapes parent");
        if let Node::Element(c) = child {
            check_element_containment(c, file);
        }
    }
}

/// Parses `input` and checks the always-true soundness invariant.
fn assert_sound(input: &str) {
    let dom = parse_html(input).dom;
    let file = TextRange::at(0, input.len() as u32);
    for node in &dom.children {
        assert!(within(node.range(), file), "top node out of bounds");
        assert!(
            node.range().slice(input).is_some(),
            "node range not on a char boundary: {:?}",
            node.range()
        );
        if let Node::Element(e) = node {
            check_element_sound(e, file, input);
        }
    }
}

struct Lcg(u64);

impl Lcg {
    fn next(&mut self) -> u64 {
        self.0 = self.0.wrapping_mul(6364136223846793005).wrapping_add(1442695040888963407);
        self.0
    }
}

#[test]
fn adversarial_recovery_corpus_is_sound() {
    let cases = [
        "<a><b></a></b>",
        "<div><br></br></div>",
        "<script>a<b</script></script>",
        "<style>.x{}</style extra>",
        "<!--><div>",
        "<a b=\"</a>\">text</a>",
        "<a b='c\"d'></a>",
        "<a ::x=\"1\" :y=\"2\" @z=\"3\">",
        "<textarea><div></textarea>",
        "<title></title></title>",
        "<a\n\tb=1\n\tc=2\n>",
        "<a b=\"\u{1F600}\" c=\"あ\">",
        "<><!--<-->",
        "<a/></a>",
        "<img src=x/>text",
        "<p>a</p><p>b</p><p>c",
        "</div></div></div>",
        "<DIV CLASS=X></div>",
        "<a =b =c>",
        "<a b= c= d=>",
        "<!DOCTYPE html><html><head></head><body><p>x</p></body></html>",
    ];
    for c in cases {
        assert_sound(c);
    }
}

#[test]
fn pseudo_random_structural_fuzz_is_sound() {
    let fragments: &[&str] = &[
        "<div>",
        "</div>",
        "<span>",
        "</span>",
        "<br>",
        "<img ",
        "src=x",
        "/>",
        ">",
        "<script>",
        "</script>",
        "<style>",
        "</style>",
        "<!--",
        "-->",
        "<!DOCTYPE html>",
        "\"q\"",
        "'s'",
        ":if=",
        "@click=",
        "::v=",
        "=",
        " ",
        "\n",
        "\t",
        "text",
        "あ",
        "\u{1F600}",
        "<",
        ">",
        "</",
        "<a",
        "<Comp ",
        "\0",
    ];
    let mut rng = Lcg(0x0bad_c0de_dead_10cc);
    for _ in 0..6000 {
        let parts = (rng.next() % 14) as usize;
        let mut s = String::new();
        for _ in 0..parts {
            s.push_str(fragments[(rng.next() as usize) % fragments.len()]);
        }
        assert_sound(&s);
    }
}

#[test]
fn random_byte_soup_never_panics() {
    let mut rng = Lcg(0xabcd_1234_5678_ef01);
    for _ in 0..4000 {
        let len = (rng.next() % 60) as usize;
        let mut s = String::with_capacity(len);
        for _ in 0..len {
            let b = (0x20 + (rng.next() % 0x5f)) as u8;
            s.push(b as char);
        }
        assert_sound(&s);
    }
}

#[test]
fn balanced_random_nesting_has_no_diagnostics() {
    let tags = ["div", "span", "p", "section", "ul", "li", "b", "em"];
    let mut rng = Lcg(0x5555_aaaa_5555_aaaa);
    for _ in 0..800 {
        let depth = 1 + (rng.next() % 8) as usize;
        let mut open = String::new();
        let mut close = String::new();
        for _ in 0..depth {
            let t = tags[(rng.next() as usize) % tags.len()];
            open.push_str(&format!("<{t}>"));
            close.insert_str(0, &format!("</{t}>"));
        }
        let src = format!("{open}text{close}");
        let r = parse_html(&src);
        assert!(r.diagnostics.is_empty(), "unexpected diagnostics on {src:?}: {:?}", r.diagnostics);
        assert_sound(&src);
        let file = TextRange::at(0, src.len() as u32);
        for node in &r.dom.children {
            if let Node::Element(e) = node {
                check_element_containment(e, file);
            }
        }
    }
}

#[test]
fn containment_holds_on_malformed_input() {
    // Children and open tags nest for any input; attributes nest whenever
    // every open tag is closed.
    let cases = [
        "<a><b></a></b>",
        "<p>a<p>b<div>c</p>d",
        "<ul><li>x<li>y</ul>z</li>",
        "<x y=1 z='2'>t</y></x>",
    ];
    for src in cases {
        let r = parse_html(src);
        let file = TextRange::at(0, src.len() as u32);
        for node in &r.dom.children {
            if let Node::Element(e) = node {
                check_element_containment(e, file);
            }
        }
    }
}

#[test]
fn unterminated_open_tag_ends_at_its_name() {
    let r = parse_html("<a b=\"x\"");
    match &r.dom.children[0] {
        Node::Element(e) => {
            assert_eq!(e.open_tag_range, TextRange::at(0, 2));
            assert_eq!(e.attributes[0].range, TextRange::at(3, 8));
            assert!(within(e.open_tag_range, e.range));
        }
        other => panic!("expected element, got {:?}", other),
    }
}
