use xmlparse::text::escape_attr;
use xmlparse::{parse, pretty_print, tokenize, Attributes, Node, Token, TokenKind, XmlError};

fn s(x: &str) -> String {
    x.to_string()
}

fn is_follower(k: &TokenKind) -> bool {
    matches!(k, TokenKind::Attribute(..) | TokenKind::TagEnd | TokenKind::SelfClosingEnd)
}

fn is_leader(k: &TokenKind) -> bool {
    matches!(k, TokenKind::TagOpen(_) | TokenKind::Attribute(..))
}

#[test]
fn law_tokens_grouped_and_ordered() {
    let input = "<a x='1' y=\"2\">t\n<b/><c\n z='3'>u</c><!--k-->\n</a>";
    let toks = tokenize(input).unwrap();
    for i in 0..toks.len() {
        if is_follower(&toks[i].kind) {
            assert!(i > 0 && is_leader(&toks[i - 1].kind));
            assert_eq!((toks[i - 1].line, toks[i - 1].column), (toks[i].line, toks[i].column));
        }
        if i > 0 {
            assert!((toks[i - 1].line, toks[i - 1].column) <= (toks[i].line, toks[i].column));
        }
    }
}

#[test]
fn law_lex_error_at_opening_lt() {
    let e = tokenize("ok\n  x <p a=\"1\" b=  \n ").unwrap_err();
    assert_eq!(e, XmlError::Syntax { line: 2, col: 5, message: s("Expected quote") });
    let e = tokenize("<a>\n\t<?pi").unwrap_err();
    assert_eq!(e, XmlError::Syntax { line: 2, col: 2, message: s("Unclosed PI") });
}

#[test]
fn law_parse_ignores_positions() {
    let a = tokenize("<r><i k='v'>x</i></r>").unwrap();
    let b: Vec<Token> = a.iter().map(|t| Token { kind: t.kind.clone(), line: 9, column: 9 }).collect();
    assert_eq!(parse(&a), parse(&b));
}

#[test]
fn law_parse_fails_at_first_mismatch() {
    let toks = tokenize("<a><b></c></d>").unwrap();
    assert_eq!(
        parse(&toks).unwrap_err(),
        XmlError::MismatchedTag { line: 1, col: 7, expected: s("b"), found: s("c") }
    );
}

fn walk(n: &Node, out: &mut Vec<String>) {
    match n {
        Node::Element { tag, children, .. } => {
            out.push(format!("open {}", tag));
            for c in children {
                walk(c, out);
            }
        }
        Node::Text(t) => out.push(format!("text {}", t)),
        Node::Comment(c) => out.push(format!("comment {}", c)),
        Node::CData(c) => out.push(format!("cdata {}", c)),
        Node::ProcessingInstruction { target, content } => out.push(format!("pi {} {}", target, content)),
    }
}

#[test]
fn law_parse_keeps_token_order() {
    let toks = tokenize("<a>1<b k='v'/><c>2<!--3--></c><![CDATA[4]]></a><?p q?>").unwrap();
    let nodes = parse(&toks).unwrap();
    let mut from_tree = Vec::new();
    for n in &nodes {
        walk(n, &mut from_tree);
    }
    let from_tokens: Vec<String> = toks
        .iter()
        .filter_map(|t| match &t.kind {
            TokenKind::TagOpen(x) => Some(format!("open {}", x)),
            TokenKind::Text(x) => Some(format!("text {}", x)),
            TokenKind::Comment(x) => Some(format!("comment {}", x)),
            TokenKind::CData(x) => Some(format!("cdata {}", x)),
            TokenKind::ProcessingInstruction(a, b) => Some(format!("pi {} {}", a, b)),
            _ => None,
        })
        .collect();
    assert_eq!(from_tree, from_tokens);
}

fn sample() -> Vec<Node> {
    parse(&tokenize("<r a='1'><x>hi</x><y><z/></y><!--c--></r><?p q?>").unwrap()).unwrap()
}

#[test]
fn law_print_of_parts_concatenates() {
    let nodes = sample();
    let (a, b) = nodes.split_at(1);
    assert_eq!(pretty_print(&nodes, 2), pretty_print(a, 2) + &pretty_print(b, 2));
}

#[test]
fn law_print_lines_end_in_breaks() {
    let out = pretty_print(&sample(), 0);
    assert!(out.ends_with('\n'));
    let blank = vec![Node::Text(s("  \n ")), Node::Text(s(""))];
    assert_eq!(pretty_print(&blank, 1), "");
}

#[test]
fn law_print_indent_adds_two_spaces() {
    let nodes = sample();
    let shallow = pretty_print(&nodes, 0);
    let deep = pretty_print(&nodes, 1);
    let shifted: String = shallow.split_inclusive('\n').map(|l| format!("  {}", l)).collect();
    assert_eq!(deep, shifted);
}

fn unescape(x: &str) -> String {
    x.replace("&lt;", "<")
        .replace("&gt;", ">")
        .replace("&quot;", "\"")
        .replace("&apos;", "'")
        .replace("&amp;", "&")
}

#[test]
fn law_unescape_undoes_escape() {
    for x in ["", "a&b", "&amp;lt;", "<'\">&", "plain"] {
        assert_eq!(unescape(&escape_attr(x)), x);
    }
}

#[test]
fn law_get_after_insert_on_attributes() {
    let mut a = Attributes::new();
    a.insert(s("x"), s("1"));
    let before_y = a.get("y").cloned();
    a.insert(s("z"), s("2"));
    assert_eq!(a.get("z"), Some(&s("2")));
    assert_eq!(a.get("y").cloned(), before_y);
    assert_eq!(a.get("x"), Some(&s("1")));
}

fn strip(ns: Vec<Node>) -> Vec<Node> {
    ns.into_iter()
        .filter(|n| !matches!(n, Node::Text(t) if t.trim().is_empty()))
        .map(|n| match n {
            Node::Element { tag, attributes, children } => {
                Node::Element { tag, attributes, children: strip(children) }
            }
            other => other,
        })
        .collect()
}

#[test]
fn law_print_round_trip_on_elements() {
    let mut a = Attributes::new();
    a.insert(s("id"), s("x 1"));
    a.insert(s("b2"), s("two"));
    let tree = vec![
        Node::Element {
            tag: s("root"),
            attributes: a,
            children: vec![
                Node::Element { tag: s("leaf"), attributes: Attributes::new(), children: vec![] },
                Node::Element {
                    tag: s("mid"),
                    attributes: Attributes::new(),
                    children: vec![Node::Element {
                        tag: s("deep9"),
                        attributes: Attributes::new(),
                        children: vec![],
                    }],
                },
            ],
        },
        Node::Element { tag: s("second"), attributes: Attributes::new(), children: vec![] },
    ];
    let printed = pretty_print(&tree, 0);
    let back = parse(&tokenize(&printed).unwrap()).unwrap();
    assert_eq!(strip(back), tree);
}

#[test]
fn law_every_amp_starts_an_entity() {
    let out = escape_attr("a&b<c>&&\"'");
    let entities = ["&amp;", "&lt;", "&gt;", "&quot;", "&apos;"];
    for (i, c) in out.char_indices() {
        if c == '&' {
            assert!(entities.iter().any(|e| out[i..].starts_with(e)));
        }
    }
}

#[test]
fn law_lex_fails_only_for_its_causes() {
    assert!(tokenize("<a b='<!--'>x</a><c/>").is_ok());
    assert!(tokenize("<a b= x>").is_ok());
    assert_eq!(
        tokenize("<a>\n<![CDATA[open").unwrap_err(),
        XmlError::Syntax { line: 2, col: 1, message: s("Unclosed CDATA") }
    );
}

#[test]
fn law_text_token_starts_its_run() {
    let input = "<a>\n  hi there\n</a>tail";
    let toks = tokenize(input).unwrap();
    let lines: Vec<&str> = input.split('\n').collect();
    for t in &toks {
        if let TokenKind::Text(x) = &t.kind {
            let line = lines[t.line - 1];
            let rest: String = line.chars().skip(t.column - 1).collect();
            let first = x.split('\n').next().unwrap();
            assert!(rest.starts_with(first));
        }
    }
    assert_eq!(toks[2].kind, TokenKind::Text(s("\n  hi there\n")));
    assert_eq!((toks[2].line, toks[2].column), (1, 4));
    assert_eq!(toks[4].kind, TokenKind::Text(s("tail")));
    assert_eq!((toks[4].line, toks[4].column), (3, 5));
}

#[test]
fn law_keys_increase_after_inserts() {
    let mut a = Attributes::new();
    for (k, v) in [("q", "1"), ("b", "2"), ("é", "3"), ("B", "4"), ("q", "5"), ("bb", "6")] {
        a.insert(s(k), s(v));
    }
    assert_eq!(a.len(), 5);
    for i in 0..a.len() {
        let (k, v) = a.entry(i);
        assert_eq!(a.get(k), Some(v));
        if i > 0 {
            assert!(a.entry(i - 1).0 < k);
        }
    }
    assert_eq!(a.get("q"), Some(&s("5")));
}
