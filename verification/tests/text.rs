use xmlparse::text::{escape_attr, is_whitespace, trimmed};
use xmlparse::XmlError;

fn s(x: &str) -> String {
    x.to_string()
}

#[test]
fn escape_replaces_each_special_character() {
    assert_eq!(escape_attr("a<b>&\"c'"), "a&lt;b&gt;&amp;&quot;c&apos;");
    assert_eq!(escape_attr(""), "");
}

#[test]
fn law_escape_leaves_no_markup() {
    let out = escape_attr("<a href='x' title=\"y\">&</a>");
    assert!(!out.contains('<') && !out.contains('>') && !out.contains('"') && !out.contains('\''));
    assert_eq!(escape_attr("plain text é"), "plain text é");
}

#[test]
fn whitespace_matches_std_for_every_char() {
    for u in 0u32..=0x10FFFF {
        if let Some(c) = char::from_u32(u) {
            assert_eq!(is_whitespace(c), c.is_whitespace(), "U+{:04X}", u);
        }
    }
}

#[test]
fn trimmed_matches_std_trim() {
    for x in ["", "  ", " a ", "\u{3000}b\u{85}", "\tc d\n", "e"] {
        assert_eq!(trimmed(x), x.trim());
    }
}

#[test]
fn display_string_of_syntax_error() {
    let e = XmlError::Syntax { line: 12, col: 7, message: s("Unclosed comment") };
    assert_eq!(e.display_string(), "Syntax Error at 12:7: Unclosed comment");
}

#[test]
fn display_string_of_mismatched_tag() {
    let e = XmlError::MismatchedTag { line: 3, col: 105, expected: s("a"), found: s("b") };
    assert_eq!(e.display_string(), "Tag Error at 3:105: Expected </a>, found </b>");
    let z = XmlError::MismatchedTag { line: 0, col: 0, expected: s("None"), found: s("") };
    assert_eq!(z.display_string(), "Tag Error at 0:0: Expected </None>, found </>");
}
