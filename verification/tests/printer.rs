use xmlparse::{parse, pretty_print, tokenize, Attributes, Node};

fn s(x: &str) -> String {
    x.to_string()
}

fn print(xml: &str, level: usize) -> String {
    pretty_print(&parse(&tokenize(xml).unwrap()).unwrap(), level)
}

#[test]
fn prints_nested_document() {
    let out = print("<root><b z='1' a='x&y'/><c>  hi & 'you'  </c><d><e/></d></root>", 0);
    assert_eq!(
        out,
        "<root>\n  <b a=\"x&amp;y\" z=\"1\" />\n  <c>hi &amp; &apos;you&apos;</c>\n  <d>\n    <e />\n  </d>\n</root>\n"
    );
}

#[test]
fn prints_leaves_and_skips_blank_text() {
    let out = print("  \n<!--c--><![CDATA[<d>]]><?xml v?>  text  ", 1);
    assert_eq!(out, "  <!--c-->\n  <![CDATA[<d>]]>\n  <?xml v?>\n  text\n");
}

#[test]
fn element_with_several_texts_is_broken_over_lines() {
    let out = print("<a>x<!--y-->z</a>", 0);
    assert_eq!(out, "<a>\n  x\n  <!--y-->\n  z\n</a>\n");
}

#[test]
fn lone_blank_text_child_prints_empty_inline() {
    let out = print("<a>   </a>", 0);
    assert_eq!(out, "<a></a>\n");
}

#[test]
fn attribute_order_does_not_depend_on_insertion_order() {
    let mut a = Attributes::new();
    a.insert(s("b"), s("2"));
    a.insert(s("a"), s("1"));
    a.insert(s("é"), s("3"));
    a.insert(s("B"), s("0"));
    let mut b = Attributes::new();
    b.insert(s("é"), s("3"));
    b.insert(s("B"), s("0"));
    b.insert(s("a"), s("1"));
    b.insert(s("b"), s("2"));
    let na = vec![Node::Element { tag: s("t"), attributes: a, children: vec![] }];
    let nb = vec![Node::Element { tag: s("t"), attributes: b, children: vec![] }];
    assert_eq!(pretty_print(&na, 0), "<t B=\"0\" a=\"1\" b=\"2\" é=\"3\" />\n");
    assert_eq!(pretty_print(&na, 0), pretty_print(&nb, 0));
}

#[test]
fn empty_forest_prints_nothing() {
    assert_eq!(pretty_print(&[], 3), "");
}
