use xmlparse::{stream_tokens, tokenize, Token, TokenKind, XmlError};

fn tok(kind: TokenKind, line: usize, column: usize) -> Token {
    Token { kind, line, column }
}

fn s(x: &str) -> String {
    x.to_string()
}

#[test]
fn text_and_tags_with_positions() {
    let toks = tokenize("hi <a>x</a>").unwrap();
    assert_eq!(
        toks,
        vec![
            tok(TokenKind::Text(s("hi ")), 1, 1),
            tok(TokenKind::TagOpen(s("a")), 1, 4),
            tok(TokenKind::TagEnd, 1, 4),
            tok(TokenKind::Text(s("x")), 1, 7),
            tok(TokenKind::TagClose(s("a")), 1, 8),
        ]
    );
}

#[test]
fn positions_follow_line_breaks() {
    let toks = tokenize("\n  <b/>\n<c>").unwrap();
    assert_eq!(
        toks,
        vec![
            tok(TokenKind::Text(s("\n  ")), 1, 1),
            tok(TokenKind::TagOpen(s("b")), 2, 3),
            tok(TokenKind::SelfClosingEnd, 2, 3),
            tok(TokenKind::Text(s("\n")), 2, 7),
            tok(TokenKind::TagOpen(s("c")), 3, 1),
            tok(TokenKind::TagEnd, 3, 1),
        ]
    );
}

#[test]
fn attributes_with_spaces_and_quotes() {
    let toks = tokenize("<p a = \"1\" b='two' c>").unwrap();
    assert_eq!(
        toks,
        vec![
            tok(TokenKind::TagOpen(s("p")), 1, 1),
            tok(TokenKind::Attribute(s("a"), s("1")), 1, 1),
            tok(TokenKind::Attribute(s("b"), s("two")), 1, 1),
            tok(TokenKind::TagEnd, 1, 1),
        ]
    );
}

#[test]
fn unquoted_value_uses_first_character_as_quote() {
    let toks = tokenize("<p a=xyx>").unwrap();
    assert_eq!(
        toks,
        vec![
            tok(TokenKind::TagOpen(s("p")), 1, 1),
            tok(TokenKind::Attribute(s("a"), s("y")), 1, 1),
            tok(TokenKind::TagEnd, 1, 1),
        ]
    );
}

#[test]
fn unterminated_value_runs_to_end() {
    let toks = tokenize("<p a=\"open").unwrap();
    assert_eq!(
        toks,
        vec![
            tok(TokenKind::TagOpen(s("p")), 1, 1),
            tok(TokenKind::Attribute(s("a"), s("open")), 1, 1),
        ]
    );
}

#[test]
fn empty_attribute_name_before_equals() {
    let toks = tokenize("<p =\"v\"/>").unwrap();
    assert_eq!(
        toks,
        vec![
            tok(TokenKind::TagOpen(s("p")), 1, 1),
            tok(TokenKind::Attribute(s(""), s("v")), 1, 1),
            tok(TokenKind::SelfClosingEnd, 1, 1),
        ]
    );
}

#[test]
fn slash_without_gt_ends_tag_silently() {
    let toks = tokenize("<a/ b>").unwrap();
    assert_eq!(
        toks,
        vec![tok(TokenKind::TagOpen(s("a")), 1, 1), tok(TokenKind::Text(s(" b>")), 1, 4)]
    );
}

#[test]
fn comment_cdata_and_pi() {
    let toks = tokenize("<!-- c --><![CDATA[<x>]]><?xml   version=\"1.0\"  ?>").unwrap();
    assert_eq!(
        toks,
        vec![
            tok(TokenKind::Comment(s(" c ")), 1, 1),
            tok(TokenKind::CData(s("<x>")), 1, 11),
            tok(TokenKind::ProcessingInstruction(s("xml"), s("version=\"1.0\"")), 1, 26),
        ]
    );
}

#[test]
fn pi_without_content() {
    let toks = tokenize("<?go?>").unwrap();
    assert_eq!(toks, vec![tok(TokenKind::ProcessingInstruction(s("go"), s("")), 1, 1)]);
}

#[test]
fn closing_tag_is_trimmed() {
    let toks = tokenize("</  a \n>").unwrap();
    assert_eq!(toks, vec![tok(TokenKind::TagClose(s("a")), 1, 1)]);
}

#[test]
fn unterminated_closing_tag_gives_nothing() {
    let toks = tokenize("x</a").unwrap();
    assert_eq!(toks, vec![tok(TokenKind::Text(s("x")), 1, 1)]);
}

#[test]
fn lone_lt_gives_empty_open_tag() {
    let toks = tokenize("<").unwrap();
    assert_eq!(toks, vec![tok(TokenKind::TagOpen(s("")), 1, 1)]);
}

#[test]
fn doctype_reads_as_open_tag() {
    let toks = tokenize("<!DOCTYPE html>").unwrap();
    assert_eq!(
        toks,
        vec![tok(TokenKind::TagOpen(s("!DOCTYPE")), 1, 1), tok(TokenKind::TagEnd, 1, 1)]
    );
}

#[test]
fn empty_input() {
    assert_eq!(tokenize("").unwrap(), vec![]);
}

#[test]
fn non_ascii_text_counts_characters() {
    let toks = tokenize("é<a>").unwrap();
    assert_eq!(
        toks,
        vec![
            tok(TokenKind::Text(s("é")), 1, 1),
            tok(TokenKind::TagOpen(s("a")), 1, 2),
            tok(TokenKind::TagEnd, 1, 2),
        ]
    );
}

#[test]
fn error_unclosed_comment() {
    let e = tokenize("a\n <!-- never").unwrap_err();
    assert_eq!(e, XmlError::Syntax { line: 2, col: 2, message: s("Unclosed comment") });
}

#[test]
fn error_comment_needs_separate_close() {
    let e = tokenize("<!-->").unwrap_err();
    assert_eq!(e, XmlError::Syntax { line: 1, col: 1, message: s("Unclosed comment") });
}

#[test]
fn error_unclosed_cdata() {
    let e = tokenize("<![CDATA[ x ]>").unwrap_err();
    assert_eq!(e, XmlError::Syntax { line: 1, col: 1, message: s("Unclosed CDATA") });
}

#[test]
fn error_unclosed_pi() {
    let e = tokenize("<r><?pi x").unwrap_err();
    assert_eq!(e, XmlError::Syntax { line: 1, col: 4, message: s("Unclosed PI") });
}

#[test]
fn error_expected_quote() {
    let e = tokenize("\n\n   <a b =  ").unwrap_err();
    assert_eq!(e, XmlError::Syntax { line: 3, col: 4, message: s("Expected quote") });
}

#[test]
fn stream_tokens_hands_out_every_token_in_order() {
    let input = "<a k='v'>t</a><!--c-->";
    let mut seen: Vec<Token> = Vec::new();
    stream_tokens(input, |t| seen.push(t)).unwrap();
    assert_eq!(seen, tokenize(input).unwrap());
}

#[test]
fn stream_tokens_reports_error_without_calls() {
    let mut calls = 0;
    let r = stream_tokens("<a><![CDATA[", |_t| calls += 1);
    assert_eq!(r, Err(XmlError::Syntax { line: 1, col: 4, message: s("Unclosed CDATA") }));
    assert_eq!(calls, 0);
}

#[test]
fn law_plain_text_is_one_token() {
    let toks = tokenize("just text,\nno markup").unwrap();
    assert_eq!(toks, vec![tok(TokenKind::Text(s("just text,\nno markup")), 1, 1)]);
}

#[test]
fn law_text_tokens_hold_no_lt() {
    let toks = tokenize("a<b>c<!--d-->e<![CDATA[f]]>g").unwrap();
    for t in &toks {
        if let TokenKind::Text(x) = &t.kind {
            assert!(!x.is_empty());
            assert!(!x.contains('<'));
        }
    }
    assert_eq!(toks.iter().filter(|t| matches!(t.kind, TokenKind::Text(_))).count(), 4);
}

