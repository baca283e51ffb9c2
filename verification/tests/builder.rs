use xmlparse::{parse, tokenize, Attributes, Node, Token, TokenKind, XmlError};

fn s(x: &str) -> String {
    x.to_string()
}

fn tok(kind: TokenKind, line: usize, column: usize) -> Token {
    Token { kind, line, column }
}

fn attrs(pairs: &[(&str, &str)]) -> Attributes {
    let mut a = Attributes::new();
    for (k, v) in pairs {
        a.insert(s(k), s(v));
    }
    a
}

fn elem(tag: &str, pairs: &[(&str, &str)], children: Vec<Node>) -> Node {
    Node::Element { tag: s(tag), attributes: attrs(pairs), children }
}

#[test]
fn nests_elements_and_leaves() {
    let toks = tokenize("<a x='1'><b/>t<!--c--><![CDATA[d]]><?p q?></a>").unwrap();
    let nodes = parse(&toks).unwrap();
    assert_eq!(
        nodes,
        vec![elem(
            "a",
            &[("x", "1")],
            vec![
                elem("b", &[], vec![]),
                Node::Text(s("t")),
                Node::Comment(s("c")),
                Node::CData(s("d")),
                Node::ProcessingInstruction { target: s("p"), content: s("q") },
            ]
        )]
    );
}

#[test]
fn later_attribute_value_wins() {
    let nodes = parse(&tokenize("<a k='1' k='2'/>").unwrap()).unwrap();
    match &nodes[0] {
        Node::Element { attributes, .. } => {
            assert_eq!(attributes.get("k"), Some(&s("2")));
            assert_eq!(attributes.len(), 1);
        }
        _ => panic!("expected an element"),
    }
}

#[test]
fn unclosed_elements_are_left_out() {
    let nodes = parse(&tokenize("top<a><b/>").unwrap()).unwrap();
    assert_eq!(nodes, vec![Node::Text(s("top"))]);
}

#[test]
fn close_without_open_is_mismatched() {
    let e = parse(&tokenize("x\n  </b>").unwrap()).unwrap_err();
    assert_eq!(e, XmlError::MismatchedTag { line: 2, col: 3, expected: s("None"), found: s("b") });
}

#[test]
fn close_of_other_tag_is_mismatched() {
    let e = parse(&tokenize("<a><b></a></b>").unwrap()).unwrap_err();
    assert_eq!(e, XmlError::MismatchedTag { line: 1, col: 7, expected: s("b"), found: s("a") });
}

#[test]
fn stray_tokens_are_ignored() {
    let toks = vec![
        tok(TokenKind::TagEnd, 1, 1),
        tok(TokenKind::Attribute(s("k"), s("v")), 1, 1),
        tok(TokenKind::SelfClosingEnd, 1, 1),
        tok(TokenKind::Text(s("x")), 1, 2),
    ];
    assert_eq!(parse(&toks).unwrap(), vec![Node::Text(s("x"))]);
}

#[test]
fn open_tag_without_end_token_still_opens() {
    let toks = vec![
        tok(TokenKind::TagOpen(s("a")), 1, 1),
        tok(TokenKind::Text(s("x")), 1, 2),
        tok(TokenKind::TagClose(s("a")), 1, 3),
    ];
    assert_eq!(parse(&toks).unwrap(), vec![elem("a", &[], vec![Node::Text(s("x"))])]);
}

#[test]
fn empty_token_list() {
    assert_eq!(parse(&[]).unwrap(), vec![]);
}

#[test]
fn law_build_error_is_at_a_closing_tag() {
    let toks = tokenize("<r>\n<i>\n</j>").unwrap();
    let e = parse(&toks).unwrap_err();
    match e {
        XmlError::MismatchedTag { line, col, ref found, .. } => {
            assert!(toks
                .iter()
                .any(|t| t.kind == TokenKind::TagClose(found.clone()) && t.line == line && t.column == col));
        }
        _ => panic!("expected a mismatched tag"),
    }
}
