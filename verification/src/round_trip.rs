//! Printing, then tokenizing and parsing, gives the tree back: for trees of
//! elements only, with plain names and values, up to the white-space text
//! that the printer's line breaks and indentation turn into.
use vstd::prelude::*;
use crate::printer::{indent, attr_text, pretty_node, pretty_forest, lone_text};
use crate::text::{is_special, escape, is_white_space, is_markup_char, law_escape, trim, trim_start};
use crate::tree::{Node, NodeModel, node_model, forest_model};
use crate::attributes::entries_map;
use crate::builder::{FrameModel, gather_attrs, attach, build_from, build};
use crate::syntax::{KindModel, TokenModel, ErrorModel};
use crate::scan::{line_at, col_at, Stop, stops, starts_at, lemma_scan_to_first};
use crate::lexer::{
    tok, lex, lex_attrs, lex_step, lex_from, lemma_lex_step_advances, law_comment_token,
    law_cdata_token, law_text_token,
};

verus! {

/// An ASCII letter or digit.
pub open spec fn is_name_char(c: char) -> bool {
    ('a' <= c && c <= 'z') || ('A' <= c && c <= 'Z') || ('0' <= c && c <= '9')
}

/// A non-empty run of ASCII letters and digits.
pub open spec fn is_name(s: Seq<char>) -> bool {
    s.len() > 0 && forall|i: int| 0 <= i < s.len() ==> is_name_char(#[trigger] s[i])
}

/// Text with none of `& < > " '`.
pub open spec fn is_plain_value(s: Seq<char>) -> bool {
    forall|i: int| 0 <= i < s.len() ==> !is_special(#[trigger] s[i])
}

/// Attribute entries whose names are names and whose values are plain.
pub open spec fn simple_entries(e: Seq<(Seq<char>, Seq<char>)>) -> bool {
    forall|i: int| 0 <= i < e.len() ==> is_name(#[trigger] e[i].0) && is_plain_value(e[i].1)
}

/// An element whose tag is a name, whose attributes are simple, and whose
/// children are such elements too.
pub open spec fn simple_node(n: Node) -> bool
    decreases n, 0nat,
{
    match n {
        Node::Element { tag, attributes, children } => is_name(tag@) && simple_entries(
            attributes.entries_view(),
        ) && simple_forest(children@),
        _ => false,
    }
}

/// `simple_node` of every node.
pub open spec fn simple_forest(ns: Seq<Node>) -> bool
    decreases ns, 1nat,
{
    ns.len() == 0 || (simple_forest(ns.drop_last()) && simple_node(ns.last()))
}

/// A line break and the indentation of `level`.
pub open spec fn gap(level: nat) -> Seq<char> {
    seq!['\n'] + indent(level)
}

/// The printed opening tag.
pub open spec fn open_text(tag: Seq<char>, e: Seq<(Seq<char>, Seq<char>)>, closed: bool) -> Seq<
    char,
> {
    "<"@ + tag + attr_text(e) + (if closed {
        " />"@
    } else {
        ">"@
    })
}

/// The printed closing tag.
pub open spec fn close_text(tag: Seq<char>) -> Seq<char> {
    "</"@ + tag + ">"@
}

/// The printed form of an element, from its `<` to its last `>`.
pub open spec fn body(n: Node, level: nat) -> Seq<char>
    decreases n, 0nat,
{
    match n {
        Node::Element { tag, attributes, children } => if children.len() == 0 {
            open_text(tag@, attributes.entries_view(), true)
        } else {
            open_text(tag@, attributes.entries_view(), false) + lines(children@, level + 1) + gap(
                level,
            ) + close_text(tag@)
        },
        _ => Seq::empty(),
    }
}

/// Each element's gap, then its body, one after another.
pub open spec fn lines(ns: Seq<Node>, level: nat) -> Seq<char>
    decreases ns, 1nat,
{
    if ns.len() == 0 {
        Seq::empty()
    } else {
        lines(ns.drop_last(), level) + gap(level) + body(ns.last(), level)
    }
}

proof fn lemma_literal_splits()
    ensures
        " />\n"@ == " />"@ + seq!['\n'],
        ">\n"@ == ">"@ + seq!['\n'],
{
    reveal_strlit(" />\n");
    reveal_strlit(" />");
    reveal_strlit(">\n");
    reveal_strlit(">");
    assert(" />\n"@ =~= " />"@ + seq!['\n']);
    assert(">\n"@ =~= ">"@ + seq!['\n']);
}

proof fn lemma_regroup_leaf(
    nl: Seq<char>,
    ind: Seq<char>,
    lt: Seq<char>,
    tag: Seq<char>,
    a: Seq<char>,
    end: Seq<char>,
)
    ensures
        nl + (ind + lt + tag + a + (end + nl)) == (nl + ind) + (lt + tag + a + end) + nl,
{
    assert(nl + (ind + lt + tag + a + (end + nl)) =~= (nl + ind) + (lt + tag + a + end) + nl);
}

proof fn lemma_regroup_nested(
    nl: Seq<char>,
    ind: Seq<char>,
    lt: Seq<char>,
    tag: Seq<char>,
    a: Seq<char>,
    gt: Seq<char>,
    f: Seq<char>,
    inner: Seq<char>,
    lts: Seq<char>,
)
    requires
        nl + f == inner + nl,
    ensures
        nl + (ind + lt + tag + a + (gt + nl) + f + ind + lts + tag + (gt + nl)) == (nl + ind) + (
        lt + tag + a + gt) + inner + (nl + ind) + (lts + tag + gt) + nl,
{
    assert(nl + (ind + lt + tag + a + (gt + nl) + f + ind + lts + tag + (gt + nl)) =~= (nl + ind)
        + (lt + tag + a + gt) + (nl + f) + ind + (lts + tag + gt) + nl);
    assert((nl + ind) + (lt + tag + a + gt) + (nl + f) + ind + (lts + tag + gt) + nl =~= (nl + ind)
        + (lt + tag + a + gt) + (inner + nl) + ind + (lts + tag + gt) + nl);
    assert((nl + ind) + (lt + tag + a + gt) + (inner + nl) + ind + (lts + tag + gt) + nl =~= (nl
        + ind) + (lt + tag + a + gt) + inner + (nl + ind) + (lts + tag + gt) + nl);
}

proof fn lemma_print_node_lines(n: Node, level: nat)
    requires
        simple_node(n),
    ensures
        seq!['\n'] + pretty_node(n, level) == gap(level) + body(n, level) + seq!['\n'],
    decreases n, 0nat,
{
    lemma_literal_splits();
    let nl = seq!['\n'];
    if let Node::Element { tag, attributes, children } = n {
        let ind = indent(level);
        let a = attr_text(attributes.entries_view());
        if children.len() == 0 {
            lemma_regroup_leaf(nl, ind, "<"@, tag@, a, " />"@);
        } else {
            assert(simple_forest(children@.drop_last()) && simple_node(children@.last()));
            if children.len() == 1 {
                assert(children@[0] == children@.last());
            }
            assert(lone_text(children@) is None);
            lemma_print_forest_lines(children@, level + 1);
            lemma_regroup_nested(
                nl,
                ind,
                "<"@,
                tag@,
                a,
                ">"@,
                pretty_forest(children@, level + 1),
                lines(children@, level + 1),
                "</"@,
            );
        }
    }
}

proof fn lemma_print_forest_lines(ns: Seq<Node>, level: nat)
    requires
        simple_forest(ns),
    ensures
        seq!['\n'] + pretty_forest(ns, level) == lines(ns, level) + seq!['\n'],
    decreases ns, 1nat,
{
    let nl = seq!['\n'];
    if ns.len() == 0 {
        assert(nl + Seq::<char>::empty() =~= Seq::<char>::empty() + nl);
    } else {
        lemma_print_forest_lines(ns.drop_last(), level);
        lemma_print_node_lines(ns.last(), level);
        let x = pretty_forest(ns.drop_last(), level);
        let y = pretty_node(ns.last(), level);
        assert(nl + (x + y) =~= (nl + x) + y);
        assert((lines(ns.drop_last(), level) + nl) + y =~= lines(ns.drop_last(), level) + (nl
            + y));
        assert(lines(ns.drop_last(), level) + (gap(level) + body(ns.last(), level) + nl)
            =~= lines(ns, level) + nl);
    }
}

/// The kinds of the tokens, in order.
pub open spec fn kinds(ts: Seq<TokenModel>) -> Seq<KindModel> {
    ts.map_values(|t: TokenModel| t.kind)
}

/// The kinds of a lexing result.
pub open spec fn kind_res(r: Result<Seq<TokenModel>, ErrorModel>) -> Result<Seq<KindModel>, ErrorModel> {
    match r {
        Ok(ts) => Ok(kinds(ts)),
        Err(e) => Err(e),
    }
}

/// `pre` in front of the kinds of `r`.
pub open spec fn kprefixed(pre: Seq<KindModel>, r: Result<Seq<KindModel>, ErrorModel>) -> Result<
    Seq<KindModel>,
    ErrorModel,
> {
    match r {
        Ok(ks) => Ok(pre + ks),
        Err(e) => Err(e),
    }
}

/// The attribute tokens of entries `e`, at line `ln`, column `cl`.
pub open spec fn attr_toks(e: Seq<(Seq<char>, Seq<char>)>, ln: int, cl: int) -> Seq<TokenModel>
    decreases e.len(),
{
    if e.len() == 0 {
        Seq::empty()
    } else {
        seq![tok(KindModel::Attribute(e[0].0, e[0].1), ln, cl)] + attr_toks(e.drop_first(), ln, cl)
    }
}

/// The kind that ends an opening tag.
pub open spec fn end_kind(closed: bool) -> KindModel {
    if closed {
        KindModel::SelfClosingEnd
    } else {
        KindModel::TagEnd
    }
}

/// What ends a printed opening tag.
pub open spec fn end_text(closed: bool) -> Seq<char> {
    if closed {
        " />"@
    } else {
        ">"@
    }
}

/// One printed attribute.
pub open spec fn attr_piece(k: Seq<char>, v: Seq<char>) -> Seq<char> {
    " "@ + k + "=\""@ + escape(v) + "\""@
}

/// The kinds of the tokens of a printed element.
pub open spec fn body_kinds(n: Node, level: nat) -> Seq<KindModel>
    decreases n, 0nat,
{
    match n {
        Node::Element { tag, attributes, children } => {
            let open = seq![KindModel::TagOpen(tag@)] + kinds(
                attr_toks(attributes.entries_view(), 0, 0),
            );
            if children.len() == 0 {
                open + seq![KindModel::SelfClosingEnd]
            } else {
                open + seq![KindModel::TagEnd] + lines_kinds(children@, level + 1) + seq![
                    KindModel::Text(gap(level)),
                    KindModel::TagClose(tag@),
                ]
            }
        },
        _ => Seq::empty(),
    }
}

/// The kinds of the tokens of printed lines.
pub open spec fn lines_kinds(ns: Seq<Node>, level: nat) -> Seq<KindModel>
    decreases ns, 1nat,
{
    if ns.len() == 0 {
        Seq::empty()
    } else {
        lines_kinds(ns.drop_last(), level) + seq![KindModel::Text(gap(level))] + body_kinds(
            ns.last(),
            level,
        )
    }
}

proof fn lemma_kinds_concat(a: Seq<TokenModel>, b: Seq<TokenModel>)
    ensures
        kinds(a + b) == kinds(a) + kinds(b),
{
    assert(kinds(a + b) =~= kinds(a) + kinds(b));
}

proof fn lemma_attr_kinds_pos(e: Seq<(Seq<char>, Seq<char>)>, ln: int, cl: int)
    ensures
        kinds(attr_toks(e, ln, cl)) == kinds(attr_toks(e, 0, 0)),
        attr_toks(e, ln, cl).len() == e.len(),
    decreases e.len(),
{
    if e.len() > 0 {
        lemma_attr_kinds_pos(e.drop_first(), ln, cl);
        let t = seq![tok(KindModel::Attribute(e[0].0, e[0].1), ln, cl)];
        let t0 = seq![tok(KindModel::Attribute(e[0].0, e[0].1), 0, 0)];
        lemma_kinds_concat(t, attr_toks(e.drop_first(), ln, cl));
        lemma_kinds_concat(t0, attr_toks(e.drop_first(), 0, 0));
        assert(kinds(t) =~= kinds(t0));
    }
}

proof fn lemma_step_kinds(s: Seq<char>, p: int, ts: Seq<TokenModel>, q: int)
    requires
        0 <= p < s.len(),
        lex_step(s, p) == Ok::<(Seq<TokenModel>, int), ErrorModel>((ts, q)),
    ensures
        kind_res(lex_from(s, p)) == kprefixed(kinds(ts), kind_res(lex_from(s, q))),
{
    lemma_lex_step_advances(s, p);
    if let Ok(rest) = lex_from(s, q) {
        lemma_kinds_concat(ts, rest);
    }
}

proof fn lemma_kprefixed_assoc(a: Seq<KindModel>, b: Seq<KindModel>, r: Result<Seq<KindModel>, ErrorModel>)
    ensures
        kprefixed(a, kprefixed(b, r)) == kprefixed(a + b, r),
{
    if let Ok(x) = r {
        assert(a + (b + x) =~= (a + b) + x);
    }
}

/// `s` holds `x` from position `p` on.
pub open spec fn holds_at(s: Seq<char>, p: int, x: Seq<char>) -> bool {
    0 <= p && p + x.len() <= s.len() && s.subrange(p, p + x.len()) == x
}

proof fn lemma_holds_split(s: Seq<char>, p: int, a: Seq<char>, b: Seq<char>)
    requires
        holds_at(s, p, a + b),
    ensures
        holds_at(s, p, a),
        holds_at(s, p + a.len(), b),
{
    let w = s.subrange(p, p + (a + b).len());
    assert forall|i: int| 0 <= i < a.len() implies s.subrange(p, p + a.len())[i] == a[i] by {
        assert(w[i] == s[p + i]);
        assert((a + b)[i] == a[i]);
    }
    assert(s.subrange(p, p + a.len()) =~= a);
    assert forall|i: int| 0 <= i < b.len() implies s.subrange(
        p + a.len(),
        p + a.len() + b.len(),
    )[i] == b[i] by {
        assert(w[a.len() + i] == s[p + a.len() + i]);
        assert((a + b)[a.len() + i] == b[i]);
    }
    assert(s.subrange(p + a.len(), p + a.len() + b.len()) =~= b);
}

proof fn lemma_holds_char(s: Seq<char>, p: int, x: Seq<char>, i: int)
    requires
        holds_at(s, p, x),
        0 <= i < x.len(),
    ensures
        s[p + i] == x[i],
{
    assert(s.subrange(p, p + x.len())[i] == s[p + i]);
}

proof fn lemma_name_char_plain(c: char)
    requires
        is_name_char(c),
    ensures
        !is_white_space(c),
        c != '=' && c != '>' && c != '/' && c != '<' && c != '!' && c != '?' && c != '"',
{
}

proof fn lemma_attr_front(e: Seq<(Seq<char>, Seq<char>)>)
    requires
        e.len() > 0,
    ensures
        attr_text(e) == attr_piece(e[0].0, e[0].1) + attr_text(e.drop_first()),
    decreases e.len(),
{
    if e.len() == 1 {
        assert(e.drop_last() =~= Seq::<(Seq<char>, Seq<char>)>::empty());
        assert(e.drop_first() =~= Seq::<(Seq<char>, Seq<char>)>::empty());
        assert(attr_text(e) =~= attr_piece(e[0].0, e[0].1) + attr_text(e.drop_first()));
    } else {
        lemma_attr_front(e.drop_last());
        assert(e.drop_last().drop_first() =~= e.drop_first().drop_last());
        assert(e.drop_first().last() == e.last());
        assert(attr_text(e) =~= attr_piece(e[0].0, e[0].1) + attr_text(e.drop_first()));
    }
}

proof fn lemma_plain_escape(v: Seq<char>)
    requires
        is_plain_value(v),
    ensures
        escape(v) == v,
{
    law_escape(v);
    assert forall|i: int| 0 <= i < v.len() implies v[i] != '&' && !is_markup_char(#[trigger] v[i])
    by {
        assert(!is_special(v[i]));
    }
}

proof fn lemma_lex_attr_list(
    s: Seq<char>,
    p: int,
    e: Seq<(Seq<char>, Seq<char>)>,
    closed: bool,
    ln: int,
    cl: int,
)
    requires
        simple_entries(e),
        holds_at(s, p, attr_text(e) + end_text(closed)),
    ensures
        lex_attrs(s, p, ln, cl) == Ok::<(Seq<TokenModel>, int), ErrorModel>(
            (
                attr_toks(e, ln, cl) + seq![tok(end_kind(closed), ln, cl)],
                p + (attr_text(e) + end_text(closed)).len(),
            ),
        ),
    decreases e.len(),
{
    reveal_strlit(" />");
    reveal_strlit(">");
    reveal_strlit(" ");
    reveal_strlit("=\"");
    reveal_strlit("\"");
    let x = attr_text(e) + end_text(closed);
    if e.len() == 0 {
        assert(attr_text(e) == Seq::<char>::empty());
        assert(x =~= end_text(closed));
        lemma_holds_char(s, p, x, 0);
        if closed {
            lemma_holds_char(s, p, x, 1);
            lemma_holds_char(s, p, x, 2);
            lemma_scan_to_first(s, p, p + 1, Stop::NonSpace);
        } else {
            lemma_scan_to_first(s, p, p, Stop::NonSpace);
        }
        assert(attr_toks(e, ln, cl) =~= Seq::<TokenModel>::empty());
        assert(Seq::<TokenModel>::empty() + seq![tok(end_kind(closed), ln, cl)] =~= seq![
            tok(end_kind(closed), ln, cl),
        ]);
    } else {
        let k = e[0].0;
        let v = e[0].1;
        assert(is_name(k) && is_plain_value(v));
        lemma_plain_escape(v);
        lemma_attr_front(e);
        let piece = attr_piece(k, v);
        let rest = e.drop_first();
        assert(simple_entries(rest)) by {
            assert forall|i: int| 0 <= i < rest.len() implies is_name(#[trigger] rest[i].0)
                && is_plain_value(rest[i].1) by {
                assert(rest[i] == e[i + 1]);
            }
        }
        let y = attr_text(rest) + end_text(closed);
        assert(x =~= piece + y);
        lemma_holds_split(s, p, piece, y);
        let flat = seq![' '] + k + seq!['=', '"'] + v + seq!['"'];
        assert(piece =~= flat);
        let a = p + 1;
        let b = a + k.len();
        let d = b + 2;
        let f = d + v.len();
        assert forall|i: int| 0 <= i < k.len() implies s[a + i] == k[i] by {
            lemma_holds_char(s, p, flat, 1 + i);
        }
        assert forall|i: int| 0 <= i < v.len() implies s[d + i] == v[i] by {
            lemma_holds_char(s, p, flat, 1 + k.len() + 2 + i);
        }
        lemma_holds_char(s, p, flat, 0);
        lemma_holds_char(s, p, flat, 1 + k.len() as int);
        lemma_holds_char(s, p, flat, 2 + k.len() as int);
        lemma_holds_char(s, p, flat, 3 + k.len() as int + v.len() as int);
        lemma_holds_char(s, p, flat, 1);
        lemma_name_char_plain(k[0]);
        lemma_scan_to_first(s, p, a, Stop::NonSpace);
        assert forall|j: int| a <= j < b implies !stops(Stop::KeyEnd, #[trigger] s[j]) by {
            assert(s[j] == k[j - a]);
            lemma_name_char_plain(k[j - a]);
        }
        lemma_scan_to_first(s, a, b, Stop::KeyEnd);
        lemma_scan_to_first(s, b, b, Stop::NonSpace);
        lemma_scan_to_first(s, b + 1, b + 1, Stop::NonSpace);
        assert forall|j: int| d <= j < f implies !stops(Stop::Char('"'), #[trigger] s[j]) by {
            assert(s[j] == v[j - d]);
            assert(!is_special(v[j - d]));
        }
        lemma_scan_to_first(s, d, f, Stop::Char('"'));
        assert(s.subrange(a, b) =~= k);
        assert(s.subrange(d, f) =~= v);
        lemma_lex_attr_list(s, p + piece.len(), rest, closed, ln, cl);
        assert(f + 1 == p + piece.len());
        let t = tok(KindModel::Attribute(k, v), ln, cl);
        assert(seq![t] + (attr_toks(rest, ln, cl) + seq![tok(end_kind(closed), ln, cl)])
            =~= attr_toks(e, ln, cl) + seq![tok(end_kind(closed), ln, cl)]);
    }
}

proof fn lemma_not_special_start(s: Seq<char>, p: int)
    requires
        0 <= p,
        p + 1 < s.len(),
        s[p + 1] != '!',
        s[p + 1] != '?',
    ensures
        !starts_at(s, p, "<!--"@),
        !starts_at(s, p, "<![CDATA["@),
        !starts_at(s, p, "<?"@),
{
    reveal_strlit("<!--");
    reveal_strlit("<![CDATA[");
    reveal_strlit("<?");
    if starts_at(s, p, "<!--"@) {
        assert(s.subrange(p, p + 4)[1] == s[p + 1]);
    }
    if starts_at(s, p, "<![CDATA["@) {
        assert(s.subrange(p, p + 9)[1] == s[p + 1]);
    }
    if starts_at(s, p, "<?"@) {
        assert(s.subrange(p, p + 2)[1] == s[p + 1]);
    }
}

proof fn lemma_lex_open(s: Seq<char>, p: int, tag: Seq<char>, e: Seq<(Seq<char>, Seq<char>)>, closed: bool)
    requires
        is_name(tag),
        simple_entries(e),
        holds_at(s, p, open_text(tag, e, closed)),
    ensures
        lex_step(s, p) == Ok::<(Seq<TokenModel>, int), ErrorModel>(
            (
                seq![tok(KindModel::TagOpen(tag), line_at(s, p), col_at(s, p))] + (attr_toks(
                    e,
                    line_at(s, p),
                    col_at(s, p),
                ) + seq![tok(end_kind(closed), line_at(s, p), col_at(s, p))]),
                p + open_text(tag, e, closed).len(),
            ),
        ),
{
    reveal_strlit("<");
    reveal_strlit("</");
    reveal_strlit(" />");
    reveal_strlit(">");
    reveal_strlit(" ");
    let o = open_text(tag, e, closed);
    let rest = attr_text(e) + end_text(closed);
    assert(o =~= seq!['<'] + tag + rest);
    lemma_holds_split(s, p, seq!['<'] + tag, rest);
    lemma_holds_char(s, p, o, 0);
    lemma_holds_char(s, p, o, 1);
    lemma_name_char_plain(tag[0]);
    lemma_not_special_start(s, p);
    if starts_at(s, p, "</"@) {
        assert(s.subrange(p, p + 2)[1] == s[p + 1]);
    }
    let n = p + 1 + tag.len();
    assert forall|j: int| p + 1 <= j < n implies !stops(Stop::NameEnd, #[trigger] s[j]) by {
        lemma_holds_char(s, p, o, j - p);
        lemma_name_char_plain(tag[j - p - 1]);
    }
    lemma_holds_char(s, p, o, 1 + tag.len() as int);
    if e.len() > 0 {
        lemma_attr_front(e);
        assert(rest[0] == ' ');
    } else {
        assert(rest =~= end_text(closed));
    }
    lemma_scan_to_first(s, p + 1, n, Stop::NameEnd);
    assert(s.subrange(p + 1, n) =~= tag) by {
        assert forall|j: int| 0 <= j < tag.len() implies s.subrange(p + 1, n)[j] == tag[j] by {
            lemma_holds_char(s, p, o, 1 + j);
        }
    }
    lemma_lex_attr_list(s, n, e, closed, line_at(s, p), col_at(s, p));
}

proof fn lemma_lex_close(s: Seq<char>, p: int, tag: Seq<char>)
    requires
        is_name(tag),
        holds_at(s, p, close_text(tag)),
    ensures
        lex_step(s, p) == Ok::<(Seq<TokenModel>, int), ErrorModel>(
            (
                seq![tok(KindModel::TagClose(tag), line_at(s, p), col_at(s, p))],
                p + close_text(tag).len(),
            ),
        ),
{
    reveal_strlit("</");
    reveal_strlit(">");
    let c = close_text(tag);
    assert(c =~= seq!['<', '/'] + tag + seq!['>']);
    lemma_holds_char(s, p, c, 0);
    lemma_holds_char(s, p, c, 1);
    lemma_not_special_start(s, p);
    assert(s.subrange(p, p + 2) =~= "</"@);
    let t = p + 2 + tag.len();
    assert forall|j: int| p + 2 <= j < t implies !stops(Stop::Char('>'), #[trigger] s[j]) by {
        lemma_holds_char(s, p, c, j - p);
        lemma_name_char_plain(tag[j - p - 2]);
    }
    lemma_holds_char(s, p, c, 2 + tag.len() as int);
    lemma_scan_to_first(s, p + 2, t, Stop::Char('>'));
    assert(s.subrange(p + 2, t) =~= tag) by {
        assert forall|j: int| 0 <= j < tag.len() implies s.subrange(p + 2, t)[j] == tag[j] by {
            lemma_holds_char(s, p, c, 2 + j);
        }
    }
    lemma_name_trim(tag);
}

proof fn lemma_name_trim(t: Seq<char>)
    requires
        is_name(t),
    ensures
        trim(t) == t,
{
    lemma_name_char_plain(t[0]);
    lemma_name_char_plain(t[t.len() - 1]);
    assert(trim_start(t) == t);
    assert(t.last() == t[t.len() - 1]);
}

proof fn lemma_lex_gap(s: Seq<char>, p: int, level: nat)
    requires
        holds_at(s, p, gap(level)),
        p + gap(level).len() < s.len(),
        s[p + gap(level).len()] == '<',
    ensures
        lex_step(s, p) == Ok::<(Seq<TokenModel>, int), ErrorModel>(
            (
                seq![tok(KindModel::Text(gap(level)), line_at(s, p), col_at(s, p))],
                p + gap(level).len(),
            ),
        ),
{
    let g = gap(level);
    lemma_holds_char(s, p, g, 0);
    assert forall|j: int| p <= j < p + g.len() implies !stops(Stop::Lt, #[trigger] s[j]) by {
        lemma_holds_char(s, p, g, j - p);
    }
    lemma_scan_to_first(s, p, p + g.len(), Stop::Lt);
}

proof fn lemma_body_starts(n: Node, level: nat)
    requires
        simple_node(n),
    ensures
        body(n, level).len() > 0,
        body(n, level)[0] == '<',
{
    reveal_strlit("<");
    if let Node::Element { tag, attributes, children } = n {
        let closed = children.len() == 0;
        let o = open_text(tag@, attributes.entries_view(), closed);
        assert(o[0] == '<');
        if !closed {
            let b = o + lines(children@, level + 1) + gap(level) + close_text(tag@);
            assert(b[0] == o[0]);
        }
    }
}

proof fn lemma_kinds_open(tag: Seq<char>, e: Seq<(Seq<char>, Seq<char>)>, closed: bool, ln: int, cl: int)
    ensures
        kinds(seq![tok(KindModel::TagOpen(tag), ln, cl)] + (attr_toks(e, ln, cl) + seq![
            tok(end_kind(closed), ln, cl),
        ])) == seq![KindModel::TagOpen(tag)] + kinds(attr_toks(e, 0, 0)) + seq![end_kind(closed)],
{
    lemma_attr_kinds_pos(e, ln, cl);
    let a = attr_toks(e, ln, cl);
    let t = seq![tok(KindModel::TagOpen(tag), ln, cl)];
    let z = seq![tok(end_kind(closed), ln, cl)];
    lemma_kinds_concat(a, z);
    lemma_kinds_concat(t, a + z);
    assert(kinds(t) =~= seq![KindModel::TagOpen(tag)]);
    assert(kinds(z) =~= seq![end_kind(closed)]);
    assert(seq![KindModel::TagOpen(tag)] + (kinds(a) + seq![end_kind(closed)]) =~= seq![
        KindModel::TagOpen(tag),
    ] + kinds(attr_toks(e, 0, 0)) + seq![end_kind(closed)]);
}

proof fn lemma_lex_body(s: Seq<char>, p: int, n: Node, level: nat)
    requires
        simple_node(n),
        holds_at(s, p, body(n, level)),
        p + body(n, level).len() < s.len(),
        s[p + body(n, level).len()] == '\n',
    ensures
        kind_res(lex_from(s, p)) == kprefixed(
            body_kinds(n, level),
            kind_res(lex_from(s, p + body(n, level).len())),
        ),
    decreases n, 0nat,
{
    if let Node::Element { tag, attributes, children } = n {
        let e = attributes.entries_view();
        let closed = children.len() == 0;
        let o = open_text(tag@, e, closed);
        let ln = line_at(s, p);
        let cl = col_at(s, p);
        if closed {
            lemma_lex_open(s, p, tag@, e, closed);
            lemma_kinds_open(tag@, e, closed, ln, cl);
            lemma_step_kinds(
                s,
                p,
                seq![tok(KindModel::TagOpen(tag@), ln, cl)] + (attr_toks(e, ln, cl) + seq![
                    tok(end_kind(closed), ln, cl),
                ]),
                p + o.len(),
            );
        } else {
            let ls = lines(children@, level + 1);
            let g = gap(level);
            let c = close_text(tag@);
            assert(simple_forest(children@));
            lemma_holds_split(s, p, o + ls + g, c);
            lemma_holds_split(s, p, o + ls, g);
            lemma_holds_split(s, p, o, ls);
            let q1 = p + o.len();
            let q2 = q1 + ls.len();
            let q3 = q2 + g.len();
            let q4 = q3 + c.len();
            lemma_lex_open(s, p, tag@, e, closed);
            lemma_kinds_open(tag@, e, closed, ln, cl);
            lemma_step_kinds(
                s,
                p,
                seq![tok(KindModel::TagOpen(tag@), ln, cl)] + (attr_toks(e, ln, cl) + seq![
                    tok(end_kind(closed), ln, cl),
                ]),
                q1,
            );
            lemma_holds_char(s, q2, g, 0);
            lemma_lex_lines(s, q1, children@, level + 1);
            reveal_strlit("</");
            reveal_strlit(">");
            assert(c =~= seq!['<', '/'] + tag@ + seq!['>']);
            lemma_holds_char(s, q3, c, 0);
            lemma_lex_gap(s, q2, level);
            lemma_step_kinds(
                s,
                q2,
                seq![tok(KindModel::Text(g), line_at(s, q2), col_at(s, q2))],
                q3,
            );
            lemma_lex_close(s, q3, tag@);
            lemma_step_kinds(
                s,
                q3,
                seq![tok(KindModel::TagClose(tag@), line_at(s, q3), col_at(s, q3))],
                q4,
            );
            let ko = seq![KindModel::TagOpen(tag@)] + kinds(attr_toks(e, 0, 0)) + seq![
                KindModel::TagEnd,
            ];
            let kl = lines_kinds(children@, level + 1);
            let kg = kinds(seq![tok(KindModel::Text(g), line_at(s, q2), col_at(s, q2))]);
            let kc = kinds(seq![tok(KindModel::TagClose(tag@), line_at(s, q3), col_at(s, q3))]);
            assert(kg =~= seq![KindModel::Text(g)]);
            assert(kc =~= seq![KindModel::TagClose(tag@)]);
            let r4 = kind_res(lex_from(s, q4));
            lemma_kprefixed_assoc(kg, kc, r4);
            lemma_kprefixed_assoc(kl, kg + kc, r4);
            lemma_kprefixed_assoc(ko, kl + (kg + kc), r4);
            assert(ko + (kl + (kg + kc)) =~= body_kinds(n, level));
        }
    }
}

proof fn lemma_lex_lines(s: Seq<char>, p: int, ns: Seq<Node>, level: nat)
    requires
        simple_forest(ns),
        holds_at(s, p, lines(ns, level)),
        p + lines(ns, level).len() < s.len(),
        s[p + lines(ns, level).len()] == '\n',
    ensures
        kind_res(lex_from(s, p)) == kprefixed(
            lines_kinds(ns, level),
            kind_res(lex_from(s, p + lines(ns, level).len())),
        ),
    decreases ns, 1nat,
{
    if ns.len() == 0 {
        if let Ok(x) = kind_res(lex_from(s, p)) {
            assert(Seq::<KindModel>::empty() + x =~= x);
        }
    } else {
        let dl = ns.drop_last();
        let last = ns.last();
        let a = lines(dl, level);
        let g = gap(level);
        let b = body(last, level);
        lemma_holds_split(s, p, a + g, b);
        lemma_holds_split(s, p, a, g);
        let q1 = p + a.len();
        let q2 = q1 + g.len();
        let q3 = q2 + b.len();
        lemma_holds_char(s, q1, g, 0);
        lemma_lex_lines(s, p, dl, level);
        lemma_body_starts(last, level);
        lemma_holds_char(s, q2, b, 0);
        lemma_lex_gap(s, q1, level);
        lemma_step_kinds(s, q1, seq![tok(KindModel::Text(g), line_at(s, q1), col_at(s, q1))], q2);
        let kg = kinds(seq![tok(KindModel::Text(g), line_at(s, q1), col_at(s, q1))]);
        assert(kg =~= seq![KindModel::Text(g)]);
        lemma_lex_body(s, q2, last, level);
        let r3 = kind_res(lex_from(s, q3));
        lemma_kprefixed_assoc(kg, body_kinds(last, level), r3);
        lemma_kprefixed_assoc(lines_kinds(dl, level), kg + body_kinds(last, level), r3);
        assert(lines_kinds(dl, level) + (kg + body_kinds(last, level)) =~= lines_kinds(ns, level));
    }
}

proof fn lemma_simple_all(ns: Seq<Node>)
    ensures
        simple_forest(ns) <==> forall|i: int| 0 <= i < ns.len() ==> simple_node(#[trigger] ns[i]),
    decreases ns.len(),
{
    if ns.len() > 0 {
        lemma_simple_all(ns.drop_last());
        if forall|i: int| 0 <= i < ns.len() ==> simple_node(#[trigger] ns[i]) {
            assert forall|i: int| 0 <= i < ns.drop_last().len() implies simple_node(
                #[trigger] ns.drop_last()[i],
            ) by {
                assert(ns.drop_last()[i] == ns[i]);
            }
            assert(simple_node(ns[ns.len() - 1]));
        }
        if simple_forest(ns) {
            assert forall|i: int| 0 <= i < ns.len() implies simple_node(#[trigger] ns[i]) by {
                if i < ns.len() - 1 {
                    assert(ns.drop_last()[i] == ns[i]);
                }
            }
        }
    }
}

proof fn lemma_lines_front(ns: Seq<Node>, level: nat)
    requires
        ns.len() > 0,
    ensures
        lines(ns, level) == gap(level) + body(ns[0], level) + lines(ns.drop_first(), level),
    decreases ns.len(),
{
    if ns.len() == 1 {
        assert(ns.drop_last() =~= Seq::<Node>::empty());
        assert(ns.drop_first() =~= Seq::<Node>::empty());
        assert(lines(ns, level) =~= gap(level) + body(ns[0], level) + lines(
            ns.drop_first(),
            level,
        ));
    } else {
        lemma_lines_front(ns.drop_last(), level);
        assert(ns.drop_last().drop_first() =~= ns.drop_first().drop_last());
        assert(ns.drop_first().last() == ns.last());
        assert(lines(ns, level) =~= gap(level) + body(ns[0], level) + lines(
            ns.drop_first(),
            level,
        ));
    }
}

/// The kinds of the tokens of a printed list of elements at the top level.
pub open spec fn doc_kinds(ns: Seq<Node>) -> Seq<KindModel> {
    if ns.len() == 0 {
        Seq::empty()
    } else {
        body_kinds(ns[0], 0) + lines_kinds(ns.drop_first(), 0) + seq![
            KindModel::Text(seq!['\n']),
        ]
    }
}

proof fn lemma_lex_doc(ns: Seq<Node>)
    requires
        simple_forest(ns),
    ensures
        kind_res(lex(pretty_forest(ns, 0))) == Ok::<Seq<KindModel>, ErrorModel>(doc_kinds(ns)),
{
    let s = pretty_forest(ns, 0);
    let nl = seq!['\n'];
    lemma_print_forest_lines(ns, 0);
    lemma_simple_all(ns);
    if ns.len() == 0 {
        assert(s.len() == 0);
        assert(kinds(Seq::<TokenModel>::empty()) =~= Seq::<KindModel>::empty());
    } else {
        lemma_lines_front(ns, 0);
        let rest = ns.drop_first();
        assert(simple_forest(rest)) by {
            lemma_simple_all(rest);
            assert forall|i: int| 0 <= i < rest.len() implies simple_node(#[trigger] rest[i]) by {
                assert(rest[i] == ns[i + 1]);
            }
        }
        assert(simple_node(ns[0]));
        let b = body(ns[0], 0);
        let l = lines(rest, 0);
        assert(gap(0) =~= nl);
        assert((nl + s).drop_first() =~= s);
        assert((nl + b + l + nl).drop_first() =~= b + l + nl);
        assert(s =~= b + l + nl);
        assert(s.subrange(0, s.len() as int) =~= s);
        lemma_holds_split(s, 0, b + l, nl);
        lemma_holds_split(s, 0, b, l);
        let q1 = b.len() as int;
        let q2 = q1 + l.len();
        assert(s[q2] == '\n');
        if l.len() > 0 {
            lemma_lines_front(rest, 0);
            assert(l[0] == '\n');
            lemma_holds_char(s, q1, l, 0);
        }
        lemma_lex_body(s, 0, ns[0], 0);
        lemma_lex_lines(s, q1, rest, 0);
        assert forall|j: int| q2 <= j < s.len() implies !stops(Stop::Lt, #[trigger] s[j]) by {}
        lemma_scan_to_first(s, q2, s.len() as int, Stop::Lt);
        assert(s.subrange(q2, s.len() as int) =~= nl);
        let tn = seq![tok(KindModel::Text(nl), line_at(s, q2), col_at(s, q2))];
        assert(lex_from(s, s.len() as int) == Ok::<Seq<TokenModel>, ErrorModel>(Seq::empty()));
        lemma_step_kinds(s, q2, tn, s.len() as int);
        assert(kinds(tn) + kinds(Seq::<TokenModel>::empty()) =~= seq![KindModel::Text(nl)]);
        let kb = body_kinds(ns[0], 0);
        let kl = lines_kinds(rest, 0);
        let r = kind_res(lex_from(s, s.len() as int));
        lemma_kprefixed_assoc(kl, seq![KindModel::Text(nl)], Ok(Seq::empty()));
        lemma_kprefixed_assoc(kb, kl + seq![KindModel::Text(nl)], Ok(Seq::empty()));
        assert(kb + (kl + seq![KindModel::Text(nl)]) + Seq::<KindModel>::empty() =~= doc_kinds(
            ns,
        ));
    }
}

/// The element that the tree builder makes of a printed element: its
/// children with the printer's line breaks and indentation as text between them.
pub open spec fn built_node(n: Node, level: nat) -> NodeModel
    decreases n, 0nat,
{
    match n {
        Node::Element { tag, attributes, children } => NodeModel::Element {
            tag: tag@,
            attributes: entries_map(attributes.entries_view()),
            children: if children.len() == 0 {
                Seq::empty()
            } else {
                built_lines(children@, level + 1).push(NodeModel::Text(gap(level)))
            },
        },
        _ => NodeModel::Text(Seq::empty()),
    }
}

/// What the tree builder makes of printed lines.
pub open spec fn built_lines(ns: Seq<Node>, level: nat) -> Seq<NodeModel>
    decreases ns, 1nat,
{
    if ns.len() == 0 {
        Seq::empty()
    } else {
        built_lines(ns.drop_last(), level).push(NodeModel::Text(gap(level))).push(
            built_node(ns.last(), level),
        )
    }
}

/// `attach` of each of `ms` in turn.
pub open spec fn attach_all(st: Seq<FrameModel>, rt: Seq<NodeModel>, ms: Seq<NodeModel>) -> (
    Seq<FrameModel>,
    Seq<NodeModel>,
)
    decreases ms.len(),
{
    if ms.len() == 0 {
        (st, rt)
    } else {
        let a = attach_all(st, rt, ms.drop_last());
        attach(a.0, a.1, ms.last())
    }
}

/// The kinds of `toks` from `i` on begin with `ks`.
pub open spec fn kinds_at(toks: Seq<TokenModel>, i: int, ks: Seq<KindModel>) -> bool {
    0 <= i && i + ks.len() <= toks.len() && forall|j: int|
        0 <= j < ks.len() ==> #[trigger] toks[i + j].kind == ks[j]
}

proof fn lemma_kinds_at_split(toks: Seq<TokenModel>, i: int, a: Seq<KindModel>, b: Seq<KindModel>)
    requires
        kinds_at(toks, i, a + b),
    ensures
        kinds_at(toks, i, a),
        kinds_at(toks, i + a.len(), b),
{
    assert forall|j: int| 0 <= j < a.len() implies #[trigger] toks[i + j].kind == a[j] by {
        assert(toks[i + j].kind == (a + b)[j]);
    }
    assert forall|j: int| 0 <= j < b.len() implies #[trigger] toks[i + a.len() + j].kind == b[j] by {
        assert(toks[i + (a.len() + j)].kind == (a + b)[a.len() + j]);
    }
}

proof fn lemma_attr_kinds_front(e: Seq<(Seq<char>, Seq<char>)>)
    ensures
        kinds(attr_toks(e, 0, 0)).len() == e.len(),
        e.len() > 0 ==> kinds(attr_toks(e, 0, 0)) == seq![KindModel::Attribute(e[0].0, e[0].1)]
            + kinds(attr_toks(e.drop_first(), 0, 0)),
{
    lemma_attr_kinds_pos(e, 0, 0);
    if e.len() > 0 {
        let t = seq![tok(KindModel::Attribute(e[0].0, e[0].1), 0, 0)];
        lemma_kinds_concat(t, attr_toks(e.drop_first(), 0, 0));
        assert(kinds(t) =~= seq![KindModel::Attribute(e[0].0, e[0].1)]);
    }
}

proof fn lemma_gather(
    toks: Seq<TokenModel>,
    j: int,
    pre: Seq<(Seq<char>, Seq<char>)>,
    e: Seq<(Seq<char>, Seq<char>)>,
    closed: bool,
)
    requires
        kinds_at(toks, j, kinds(attr_toks(e, 0, 0)) + seq![end_kind(closed)]),
    ensures
        gather_attrs(toks, j, entries_map(pre)) == (entries_map(pre + e), j + e.len() + 1, closed),
    decreases e.len(),
{
    lemma_attr_kinds_front(e);
    let ks = kinds(attr_toks(e, 0, 0)) + seq![end_kind(closed)];
    if e.len() == 0 {
        assert(toks[j + 0].kind == ks[0]);
        assert(pre + e =~= pre);
    } else {
        assert(toks[j + 0].kind == ks[0]);
        let x = e[0];
        let rest = e.drop_first();
        assert(pre.push(x).drop_last() =~= pre);
        assert(entries_map(pre.push(x)) == entries_map(pre).insert(x.0, x.1));
        assert(ks =~= seq![KindModel::Attribute(x.0, x.1)] + (kinds(attr_toks(rest, 0, 0))
            + seq![end_kind(closed)]));
        lemma_kinds_at_split(
            toks,
            j,
            seq![KindModel::Attribute(x.0, x.1)],
            kinds(attr_toks(rest, 0, 0)) + seq![end_kind(closed)],
        );
        lemma_gather(toks, j + 1, pre.push(x), rest, closed);
        assert(pre.push(x) + rest =~= pre + e);
    }
}

proof fn lemma_attach_all_pushed(st: Seq<FrameModel>, rt: Seq<NodeModel>, f: FrameModel, ms: Seq<NodeModel>)
    ensures
        attach_all(st.push(f), rt, ms) == (
            st.push(FrameModel { tag: f.tag, attrs: f.attrs, children: f.children + ms }),
            rt,
        ),
    decreases ms.len(),
{
    if ms.len() == 0 {
        assert(f.children + ms =~= f.children);
    } else {
        lemma_attach_all_pushed(st, rt, f, ms.drop_last());
        let g = FrameModel { tag: f.tag, attrs: f.attrs, children: f.children + ms.drop_last() };
        assert(st.push(g).drop_last() =~= st);
        assert((f.children + ms.drop_last()).push(ms.last()) =~= f.children + ms);
    }
}

proof fn lemma_attach_all_root(rt: Seq<NodeModel>, ms: Seq<NodeModel>)
    ensures
        attach_all(Seq::empty(), rt, ms) == (Seq::<FrameModel>::empty(), rt + ms),
    decreases ms.len(),
{
    if ms.len() == 0 {
        assert(rt + ms =~= rt);
    } else {
        lemma_attach_all_root(rt, ms.drop_last());
        assert((rt + ms.drop_last()).push(ms.last()) =~= rt + ms);
    }
}

proof fn lemma_build_body(
    toks: Seq<TokenModel>,
    i: int,
    st: Seq<FrameModel>,
    rt: Seq<NodeModel>,
    n: Node,
    level: nat,
)
    requires
        simple_node(n),
        kinds_at(toks, i, body_kinds(n, level)),
    ensures
        build_from(toks, i, st, rt) == build_from(
            toks,
            i + body_kinds(n, level).len(),
            attach(st, rt, built_node(n, level)).0,
            attach(st, rt, built_node(n, level)).1,
        ),
    decreases n, 2nat,
{
    if let Node::Element { tag, attributes, children } = n {
        if children.len() == 0 {
            lemma_build_leaf(toks, i, st, rt, n, level);
        } else {
            lemma_build_nested(toks, i, st, rt, n, level);
        }
    }
}

proof fn lemma_build_open(
    toks: Seq<TokenModel>,
    i: int,
    tag: Seq<char>,
    e: Seq<(Seq<char>, Seq<char>)>,
    closed: bool,
)
    requires
        kinds_at(toks, i, seq![KindModel::TagOpen(tag)] + (kinds(attr_toks(e, 0, 0)) + seq![
            end_kind(closed),
        ])),
    ensures
        i < toks.len(),
        toks[i].kind == KindModel::TagOpen(tag),
        gather_attrs(toks, i + 1, Map::empty()) == (entries_map(e), i + 1 + e.len() + 1, closed),
{
    let head = seq![KindModel::TagOpen(tag)];
    let ka = kinds(attr_toks(e, 0, 0));
    lemma_attr_kinds_front(e);
    lemma_kinds_at_split(toks, i, head, ka + seq![end_kind(closed)]);
    assert(toks[i + 0].kind == head[0]);
    let empty = Seq::<(Seq<char>, Seq<char>)>::empty();
    assert(entries_map(empty) == Map::<Seq<char>, Seq<char>>::empty());
    assert(empty + e =~= e);
    lemma_gather(toks, i + 1, empty, e, closed);
}

proof fn lemma_build_leaf(
    toks: Seq<TokenModel>,
    i: int,
    st: Seq<FrameModel>,
    rt: Seq<NodeModel>,
    n: Node,
    level: nat,
)
    requires
        simple_node(n),
        n matches Node::Element { children, .. } && children.len() == 0,
        kinds_at(toks, i, body_kinds(n, level)),
    ensures
        build_from(toks, i, st, rt) == build_from(
            toks,
            i + body_kinds(n, level).len(),
            attach(st, rt, built_node(n, level)).0,
            attach(st, rt, built_node(n, level)).1,
        ),
{
    if let Node::Element { tag, attributes, children } = n {
        let e = attributes.entries_view();
        let ka = kinds(attr_toks(e, 0, 0));
        lemma_attr_kinds_front(e);
        let bk = body_kinds(n, level);
        assert(bk =~= seq![KindModel::TagOpen(tag@)] + (ka + seq![end_kind(true)]));
        lemma_build_open(toks, i, tag@, e, true);
        let m = NodeModel::Element { tag: tag@, attributes: entries_map(e), children: Seq::empty() };
        assert(built_node(n, level) == m);
        assert(build_from(toks, i, st, rt) == build_from(
            toks,
            i + 1 + e.len() + 1,
            attach(st, rt, m).0,
            attach(st, rt, m).1,
        ));
    }
}

proof fn lemma_build_nested(
    toks: Seq<TokenModel>,
    i: int,
    st: Seq<FrameModel>,
    rt: Seq<NodeModel>,
    n: Node,
    level: nat,
)
    requires
        simple_node(n),
        n matches Node::Element { children, .. } && children.len() > 0,
        kinds_at(toks, i, body_kinds(n, level)),
    ensures
        build_from(toks, i, st, rt) == build_from(
            toks,
            i + body_kinds(n, level).len(),
            attach(st, rt, built_node(n, level)).0,
            attach(st, rt, built_node(n, level)).1,
        ),
    decreases n, 1nat,
{
    if let Node::Element { tag, attributes, children } = n {
        let e = attributes.entries_view();
        let ka = kinds(attr_toks(e, 0, 0));
        lemma_attr_kinds_front(e);
        let open = seq![KindModel::TagOpen(tag@)] + (ka + seq![end_kind(false)]);
        let kl = lines_kinds(children@, level + 1);
        let tail = seq![KindModel::Text(gap(level)), KindModel::TagClose(tag@)];
        let bk = body_kinds(n, level);
        assert(bk =~= open + kl + tail);
        lemma_kinds_at_split(toks, i, open + kl, tail);
        lemma_kinds_at_split(toks, i, open, kl);
        lemma_build_open(toks, i, tag@, e, false);
        let j = i + 1 + e.len() + 1;
        assert(open.len() == 1 + e.len() + 1);
        let f0 = FrameModel { tag: tag@, attrs: entries_map(e), children: Seq::empty() };
        assert(build_from(toks, i, st, rt) == build_from(toks, j, st.push(f0), rt));
        assert(simple_forest(children@));
        lemma_build_lines(toks, j, st.push(f0), rt, children@, level + 1);
        let ms = built_lines(children@, level + 1);
        lemma_attach_all_pushed(st, rt, f0, ms);
        assert(f0.children + ms =~= ms);
        let f1 = FrameModel { tag: tag@, attrs: entries_map(e), children: ms };
        let j2 = j + kl.len();
        assert(build_from(toks, j, st.push(f0), rt) == build_from(toks, j2, st.push(f1), rt));
        assert(toks[j2 + 0].kind == tail[0]);
        assert(toks[j2 + 1].kind == tail[1]);
        let t = NodeModel::Text(gap(level));
        let f2 = FrameModel { tag: tag@, attrs: entries_map(e), children: ms.push(t) };
        assert(st.push(f1).drop_last() =~= st);
        assert(st.push(f1).last() == f1);
        assert(attach(st.push(f1), rt, t) == (st.push(f2), rt));
        assert(build_from(toks, j2, st.push(f1), rt) == build_from(toks, j2 + 1, st.push(f2), rt));
        assert(st.push(f2).drop_last() =~= st);
        assert(st.push(f2).last() == f2);
        let m = NodeModel::Element { tag: tag@, attributes: entries_map(e), children: ms.push(t) };
        assert(build_from(toks, j2 + 1, st.push(f2), rt) == build_from(
            toks,
            j2 + 2,
            attach(st, rt, m).0,
            attach(st, rt, m).1,
        ));
        assert(built_node(n, level) == m);
        assert(j2 + 2 == i + bk.len());
    }
}

proof fn lemma_build_lines(
    toks: Seq<TokenModel>,
    i: int,
    st: Seq<FrameModel>,
    rt: Seq<NodeModel>,
    ns: Seq<Node>,
    level: nat,
)
    requires
        simple_forest(ns),
        kinds_at(toks, i, lines_kinds(ns, level)),
    ensures
        build_from(toks, i, st, rt) == build_from(
            toks,
            i + lines_kinds(ns, level).len(),
            attach_all(st, rt, built_lines(ns, level)).0,
            attach_all(st, rt, built_lines(ns, level)).1,
        ),
    decreases ns, 3nat,
{
    if ns.len() > 0 {
        let dl = ns.drop_last();
        let last = ns.last();
        let kd = lines_kinds(dl, level);
        let kg = seq![KindModel::Text(gap(level))];
        let kb = body_kinds(last, level);
        assert(lines_kinds(ns, level) == kd + kg + kb);
        lemma_kinds_at_split(toks, i, kd + kg, kb);
        lemma_kinds_at_split(toks, i, kd, kg);
        lemma_build_lines(toks, i, st, rt, dl, level);
        let i1 = i + kd.len();
        assert(toks[i1 + 0].kind == kg[0]);
        let a = attach_all(st, rt, built_lines(dl, level));
        let t = NodeModel::Text(gap(level));
        let a2 = attach(a.0, a.1, t);
        assert(toks[i1].kind == KindModel::Text(gap(level)));
        assert(build_from(toks, i1, a.0, a.1) == build_from(toks, i1 + 1, a2.0, a2.1));
        lemma_build_body(toks, i1 + 1, a2.0, a2.1, last, level);
        let bl = built_lines(dl, level).push(t);
        assert(bl.drop_last() =~= built_lines(dl, level));
        assert(attach_all(st, rt, bl) == a2);
        assert(built_lines(ns, level).drop_last() =~= bl);
        assert(built_lines(ns, level).last() == built_node(last, level));
        assert(attach_all(st, rt, built_lines(ns, level)) == attach(
            a2.0,
            a2.1,
            built_node(last, level),
        ));
        assert(lines_kinds(ns, level).len() == kd.len() + 1 + kb.len());
    } else {
        assert(lines_kinds(ns, level).len() == 0);
        assert(built_lines(ns, level).len() == 0);
        assert(attach_all(st, rt, built_lines(ns, level)) == (st, rt));
    }
}

/// Whether `m` is text that is all white space.
pub open spec fn blank_model(m: NodeModel) -> bool {
    m matches NodeModel::Text(t) && trim(t).len() == 0
}

/// The node with the text that is all white space left out, at any depth.
pub open spec fn strip_node(m: NodeModel) -> NodeModel
    decreases m, 0nat,
{
    match m {
        NodeModel::Element { tag, attributes, children } => NodeModel::Element {
            tag,
            attributes,
            children: strip_forest(children),
        },
        _ => m,
    }
}

/// The nodes with the text that is all white space left out, at any depth.
pub open spec fn strip_forest(ms: Seq<NodeModel>) -> Seq<NodeModel>
    decreases ms, 1nat,
{
    if ms.len() == 0 {
        Seq::empty()
    } else if blank_model(ms.last()) {
        strip_forest(ms.drop_last())
    } else {
        strip_forest(ms.drop_last()).push(strip_node(ms.last()))
    }
}

proof fn lemma_gap_blank(level: nat)
    ensures
        trim(gap(level)).len() == 0,
        trim(seq!['\n']).len() == 0,
{
    lemma_all_space_trim(gap(level));
    lemma_all_space_trim(seq!['\n']);
}

proof fn lemma_all_space_trim(s: Seq<char>)
    requires
        forall|i: int| 0 <= i < s.len() ==> (#[trigger] s[i] == '\n' || s[i] == ' '),
    ensures
        trim_start(s).len() == 0,
        trim(s).len() == 0,
    decreases s.len(),
{
    if s.len() > 0 {
        assert(is_white_space(s[0])) by {
            assert(s[0] == '\n' || s[0] == ' ');
        }
        assert forall|i: int| 0 <= i < s.drop_first().len() implies (#[trigger] s.drop_first()[i]
            == '\n' || s.drop_first()[i] == ' ') by {
            assert(s.drop_first()[i] == s[i + 1]);
        }
        lemma_all_space_trim(s.drop_first());
    }
}

proof fn lemma_strip_built_node(n: Node, level: nat)
    requires
        simple_node(n),
    ensures
        strip_node(built_node(n, level)) == node_model(n),
    decreases n, 0nat,
{
    if let Node::Element { tag, attributes, children } = n {
        if children.len() == 0 {
            assert(forest_model(children@) == Seq::<NodeModel>::empty());
            assert(strip_forest(Seq::<NodeModel>::empty()) == Seq::<NodeModel>::empty());
        } else {
            lemma_strip_built_lines(children@, level + 1);
            lemma_gap_blank(level);
            let ms = built_lines(children@, level + 1).push(NodeModel::Text(gap(level)));
            assert(ms.drop_last() =~= built_lines(children@, level + 1));
        }
    }
}

proof fn lemma_strip_built_lines(ns: Seq<Node>, level: nat)
    requires
        simple_forest(ns),
    ensures
        strip_forest(built_lines(ns, level)) == forest_model(ns),
    decreases ns, 1nat,
{
    if ns.len() > 0 {
        lemma_strip_built_lines(ns.drop_last(), level);
        lemma_strip_built_node(ns.last(), level);
        lemma_gap_blank(level);
        let x = built_lines(ns.drop_last(), level).push(NodeModel::Text(gap(level)));
        let b = built_node(ns.last(), level);
        assert(built_lines(ns, level).drop_last() =~= x);
        assert(built_lines(ns, level).last() == b);
        assert(x.drop_last() =~= built_lines(ns.drop_last(), level));
        assert(x.last() == NodeModel::Text(gap(level)));
        assert(blank_model(x.last()));
        assert(strip_forest(x) == strip_forest(built_lines(ns.drop_last(), level)));
        assert(simple_node(ns.last()));
        assert(b is Element);
        assert(!blank_model(b));
        assert(strip_forest(built_lines(ns, level)) == strip_forest(x).push(strip_node(b)));
    }
}

proof fn lemma_strip_concat(a: Seq<NodeModel>, b: Seq<NodeModel>)
    ensures
        strip_forest(a + b) == strip_forest(a) + strip_forest(b),
    decreases b.len(),
{
    if b.len() == 0 {
        assert(a + b =~= a);
        assert(strip_forest(a) + Seq::<NodeModel>::empty() =~= strip_forest(a));
    } else {
        lemma_strip_concat(a, b.drop_last());
        assert((a + b).drop_last() =~= a + b.drop_last());
        assert((a + b).last() == b.last());
        assert(strip_forest(a) + strip_forest(b.drop_last()).push(strip_node(b.last()))
            =~= (strip_forest(a) + strip_forest(b.drop_last())).push(strip_node(b.last())));
    }
}

proof fn lemma_forest_model_concat(a: Seq<Node>, b: Seq<Node>)
    ensures
        forest_model(a + b) == forest_model(a) + forest_model(b),
    decreases b.len(),
{
    if b.len() == 0 {
        assert(a + b =~= a);
        assert(forest_model(a) + Seq::<NodeModel>::empty() =~= forest_model(a));
    } else {
        lemma_forest_model_concat(a, b.drop_last());
        assert((a + b).drop_last() =~= a + b.drop_last());
        assert((a + b).last() == b.last());
        assert(forest_model(a) + forest_model(b.drop_last()).push(node_model(b.last()))
            =~= (forest_model(a) + forest_model(b.drop_last())).push(node_model(b.last())));
    }
}

/// Printing a list of elements at indentation 0, then lexing and building
/// the result, gives the elements back, up to the text that is all white
/// space (the printer's line breaks and indentation): when every node, at
/// any depth, is an element whose tag and attribute names are non-empty
/// ASCII letters and digits and whose attribute values hold none of
/// `& < > " '`.
pub proof fn law_print_round_trip(ns: Seq<Node>)
    requires
        simple_forest(ns),
    ensures
        lex(pretty_forest(ns, 0)) is Ok,
        build(lex(pretty_forest(ns, 0))->Ok_0) is Ok,
        strip_forest(build(lex(pretty_forest(ns, 0))->Ok_0)->Ok_0) == forest_model(ns),
{
    lemma_lex_doc(ns);
    let toks = lex(pretty_forest(ns, 0))->Ok_0;
    let ks = doc_kinds(ns);
    assert(kinds(toks) == ks);
    assert(kinds_at(toks, 0, ks)) by {
        assert forall|j: int| 0 <= j < ks.len() implies #[trigger] toks[0 + j].kind == ks[j] by {
            assert(kinds(toks)[j] == toks[j].kind);
        }
    }
    let e = Seq::<FrameModel>::empty();
    let r = Seq::<NodeModel>::empty();
    if ns.len() == 0 {
        assert(toks.len() == 0);
        assert(forest_model(ns) == Seq::<NodeModel>::empty());
    } else {
        lemma_simple_all(ns);
        let rest = ns.drop_first();
        assert(simple_forest(rest)) by {
            lemma_simple_all(rest);
            assert forall|i: int| 0 <= i < rest.len() implies simple_node(#[trigger] rest[i]) by {
                assert(rest[i] == ns[i + 1]);
            }
        }
        let n0 = ns[0];
        assert(simple_node(n0));
        let kb = body_kinds(n0, 0);
        let kl = lines_kinds(rest, 0);
        let kn = seq![KindModel::Text(seq!['\n'])];
        lemma_kinds_at_split(toks, 0, kb + kl, kn);
        lemma_kinds_at_split(toks, 0, kb, kl);
        lemma_build_body(toks, 0, e, r, n0, 0);
        let b0 = built_node(n0, 0);
        assert(attach(e, r, b0) == (e, seq![b0]));
        lemma_build_lines(toks, kb.len() as int, e, seq![b0], rest, 0);
        let ms = built_lines(rest, 0);
        lemma_attach_all_root(seq![b0], ms);
        let i2: int = kb.len() as int + kl.len() as int;
        assert(toks[i2 + 0].kind == kn[0]);
        let root = (seq![b0] + ms).push(NodeModel::Text(seq!['\n']));
        assert(build_from(toks, i2 + 1, e, root) == Ok::<Seq<NodeModel>, ErrorModel>(root));
        lemma_gap_blank(0);
        assert(root.drop_last() =~= seq![b0] + ms);
        lemma_strip_concat(seq![b0], ms);
        lemma_strip_built_node(n0, 0);
        lemma_strip_built_lines(rest, 0);
        assert(seq![b0].drop_last() =~= Seq::<NodeModel>::empty());
        assert(b0 is Element);
        assert(!blank_model(b0));
        assert(strip_forest(Seq::<NodeModel>::empty()) == Seq::<NodeModel>::empty());
        assert(strip_forest(seq![b0]) == strip_forest(Seq::<NodeModel>::empty()).push(strip_node(b0)));
        assert(strip_forest(seq![b0]) =~= seq![strip_node(b0)]);
        lemma_forest_model_concat(seq![n0], rest);
        assert(seq![n0] + rest =~= ns);
        assert(seq![n0].drop_last() =~= Seq::<Node>::empty());
        assert(forest_model(Seq::<Node>::empty()) == Seq::<NodeModel>::empty());
        assert(forest_model(seq![n0]) == forest_model(Seq::<Node>::empty()).push(node_model(n0)));
        assert(forest_model(seq![n0]) =~= seq![node_model(n0)]);
    }
}

/// Lexing text that is a construct from `0` to `e`, then a line break.
proof fn lemma_one_construct_then_break(s: Seq<char>, e: int, t: TokenModel)
    requires
        0 < e,
        s.len() == e + 1,
        s[e] == '\n',
        lex_step(s, 0) == Ok::<(Seq<TokenModel>, int), ErrorModel>((seq![t], e)),
    ensures
        lex(s) matches Ok(ts) && ts.len() == 2 && ts[0] == t && ts[1].kind == KindModel::Text(
            seq!['\n'],
        ),
{
    law_text_token(s, e);
    let r = lex_step(s, e);
    let q = r->Ok_0.1;
    assert(q == s.len());
    assert(s.subrange(e, q) =~= seq!['\n']);
    assert(lex_from(s, q) == Ok::<Seq<TokenModel>, ErrorModel>(Seq::empty()));
    let tt = r->Ok_0.0;
    assert(lex_from(s, e) == Ok::<Seq<TokenModel>, ErrorModel>(tt + Seq::<TokenModel>::empty()));
    assert(lex_from(s, 0) == Ok::<Seq<TokenModel>, ErrorModel>(
        seq![t] + (tt + Seq::<TokenModel>::empty()),
    ));
}

/// A comment printed at the top level lexes back to the same comment (and
/// the line break after it), provided its text does not close it early: no
/// `-->` starts inside the text followed by `-->`.
pub proof fn law_print_comment_lexes_back(c: String)
    requires
        forall|j: int| 0 <= j < c@.len() ==> !#[trigger] starts_at(c@ + "-->"@, j, "-->"@),
    ensures
        lex(pretty_node(Node::Comment(c), 0)) matches Ok(ts) && ts.len() == 2 && ts[0].kind
            == KindModel::Comment(c@) && ts[1].kind == KindModel::Text(seq!['\n']),
{
    reveal_strlit("<!--");
    reveal_strlit("-->");
    reveal_strlit("-->\n");
    let x = c@;
    let s = pretty_node(Node::Comment(c), 0);
    let e: int = 4 + x.len() as int;
    assert(s =~= "<!--"@ + x + "-->\n"@);
    assert(s.subrange(0, 4) =~= "<!--"@);
    assert(s.subrange(e, e + 3) =~= "-->"@);
    assert forall|j: int| 4 <= j < e implies !#[trigger] starts_at(s, j, "-->"@) by {
        assert(s.subrange(j, j + 3) =~= (x + "-->"@).subrange(j - 4, j - 1));
        assert(!starts_at(x + "-->"@, j - 4, "-->"@));
    }
    law_comment_token(s, 0, e);
    assert(s.subrange(4, e) =~= x);
    lemma_one_construct_then_break(s, e + 3, tok(KindModel::Comment(x), line_at(s, 0), col_at(s, 0)));
}

/// A CDATA section printed at the top level lexes back to the same section
/// (and the line break after it), provided its text does not close it
/// early: no `]]>` starts inside the text followed by `]]>`.
pub proof fn law_print_cdata_lexes_back(c: String)
    requires
        forall|j: int| 0 <= j < c@.len() ==> !#[trigger] starts_at(c@ + "]]>"@, j, "]]>"@),
    ensures
        lex(pretty_node(Node::CData(c), 0)) matches Ok(ts) && ts.len() == 2 && ts[0].kind
            == KindModel::CData(c@) && ts[1].kind == KindModel::Text(seq!['\n']),
{
    reveal_strlit("<![CDATA[");
    reveal_strlit("]]>");
    reveal_strlit("]]>\n");
    let x = c@;
    let s = pretty_node(Node::CData(c), 0);
    let e: int = 9 + x.len() as int;
    assert(s =~= "<![CDATA["@ + x + "]]>\n"@);
    assert(s.subrange(0, 9) =~= "<![CDATA["@);
    assert(s.subrange(e, e + 3) =~= "]]>"@);
    assert forall|j: int| 9 <= j < e implies !#[trigger] starts_at(s, j, "]]>"@) by {
        assert(s.subrange(j, j + 3) =~= (x + "]]>"@).subrange(j - 9, j - 6));
        assert(!starts_at(x + "]]>"@, j - 9, "]]>"@));
    }
    law_cdata_token(s, 0, e);
    assert(s.subrange(9, e) =~= x);
    lemma_one_construct_then_break(s, e + 3, tok(KindModel::CData(x), line_at(s, 0), col_at(s, 0)));
}

} // verus!
