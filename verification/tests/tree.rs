use xmlparse::{parse, tokenize, Node};

fn s(x: &str) -> String {
    x.to_string()
}

fn doc(xml: &str) -> Vec<Node> {
    parse(&tokenize(xml).unwrap()).unwrap()
}

fn tag_of(n: &Node) -> String {
    match n {
        Node::Element { tag, .. } => tag.clone(),
        _ => s("<not an element>"),
    }
}

#[test]
fn find_by_tag_in_document_order() {
    let nodes = doc("<a id='1'><b><a id='2'/></b><a id='3'>x</a></a>");
    let found = nodes[0].find_by_tag("a");
    let ids: Vec<String> = found
        .iter()
        .map(|n| match n {
            Node::Element { attributes, .. } => attributes.get("id").unwrap().clone(),
            _ => s("?"),
        })
        .collect();
    assert_eq!(ids, vec![s("1"), s("2"), s("3")]);
}

#[test]
fn find_by_tag_on_leaves_and_misses() {
    assert!(Node::Text(s("a")).find_by_tag("a").is_empty());
    let nodes = doc("<a><b/></a>");
    assert!(nodes[0].find_by_tag("c").is_empty());
    assert_eq!(nodes[0].find_by_tag("b").len(), 1);
}

#[test]
fn law_found_nodes_carry_the_tag() {
    let nodes = doc("<x><y/><x><z><x/></z></x></x>");
    let found = nodes[0].find_by_tag("x");
    assert_eq!(found.len(), 3);
    assert!(std::ptr::eq(found[0], &nodes[0]));
    for n in found {
        assert_eq!(tag_of(n), s("x"));
    }
}

#[test]
fn text_content_joins_text_and_cdata() {
    let nodes = doc("<a>one <b>two</b><!--no--><![CDATA[ three]]><?pi no?></a>");
    assert_eq!(nodes[0].text_content(), s("one two three"));
    assert_eq!(Node::Comment(s("c")).text_content(), s(""));
    assert_eq!(Node::CData(s("d")).text_content(), s("d"));
}

#[test]
fn clone_is_equal() {
    let nodes = doc("<a k='v'><b>t</b><!--c--></a>");
    let copy = nodes[0].clone();
    assert_eq!(copy, nodes[0]);
}
