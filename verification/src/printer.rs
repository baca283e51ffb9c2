//! The pretty printer: one construct per line, two spaces of indentation
//! per level, attributes in name order.
use vstd::prelude::*;
use crate::attributes::Attributes;
use crate::text::{
    escape, trim, chars_of, push_char, push_str, push_chars, push_escaped, trim_bounds,
};
use crate::tree::Node;
use crate::scan::{Stop, stops, scan_to, lemma_scan_to, lemma_scan_to_first};
use crate::text::{is_white_space, trim_start, trim_end, escape_char, trimmed_piece, trimmed_at, lemma_trim_is_trimmed_piece, unescape_by_replace, is_markup_char, law_escape, law_escape_replace_round_trip};

verus! {

/// Two spaces per level.
pub open spec fn indent(level: nat) -> Seq<char> {
    Seq::new(2 * level, |_i: int| ' ')
}

/// ` name="value"` for each entry, in order, with the values escaped.
pub open spec fn attr_text(e: Seq<(Seq<char>, Seq<char>)>) -> Seq<char>
    decreases e.len(),
{
    if e.len() == 0 {
        Seq::empty()
    } else {
        attr_text(e.drop_last()) + " "@ + e.last().0 + "=\""@ + escape(e.last().1) + "\""@
    }
}

/// The text of the only child, when there is one child and it is text.
pub open spec fn lone_text(children: Seq<Node>) -> Option<Seq<char>> {
    if children.len() == 1 {
        match children[0] {
            Node::Text(t) => Some(t@),
            _ => None,
        }
    } else {
        None
    }
}

/// The printed form of a node at indentation `level`: an element without
/// children as `<tag attrs />`, an element whose only child is text on one
/// line with the trimmed, escaped text, any other element as its opening
/// tag, its children one level deeper and its closing tag; text trimmed
/// and escaped (nothing when it is all white space); comments, CDATA and
/// processing instructions as written.
pub open spec fn pretty_node(n: Node, level: nat) -> Seq<char>
    decreases n, 0nat,
{
    let ind = indent(level);
    match n {
        Node::Element { tag, attributes, children } => {
            let a = attr_text(attributes.entries_view());
            if children.len() == 0 {
                ind + "<"@ + tag@ + a + " />\n"@
            } else if lone_text(children@) is Some {
                ind + "<"@ + tag@ + a + ">"@ + escape(trim(lone_text(children@)->0)) + "</"@
                    + tag@ + ">\n"@
            } else {
                ind + "<"@ + tag@ + a + ">\n"@ + pretty_forest(children@, level + 1) + ind
                    + "</"@ + tag@ + ">\n"@
            }
        },
        Node::Text(t) => {
            if trim(t@).len() == 0 {
                Seq::empty()
            } else {
                ind + escape(trim(t@)) + "\n"@
            }
        },
        Node::Comment(c) => ind + "<!--"@ + c@ + "-->\n"@,
        Node::CData(c) => ind + "<![CDATA["@ + c@ + "]]>\n"@,
        Node::ProcessingInstruction { target, content } => ind + "<?"@ + target@ + " "@ + content@
            + "?>\n"@,
    }
}

/// The printed forms of the nodes, one after another.
pub open spec fn pretty_forest(ns: Seq<Node>, level: nat) -> Seq<char>
    decreases ns, 1nat,
{
    if ns.len() == 0 {
        Seq::empty()
    } else {
        pretty_forest(ns.drop_last(), level) + pretty_node(ns.last(), level)
    }
}

/// How many levels deeper than its own the printing of `n` goes.
pub open spec fn print_depth(n: Node) -> nat
    decreases n, 0nat,
{
    match n {
        Node::Element { children, .. } => if children.len() == 0 || lone_text(children@) is Some {
            0
        } else {
            1 + print_depth_all(children@)
        },
        _ => 0,
    }
}

/// The greatest `print_depth` among the nodes.
pub open spec fn print_depth_all(ns: Seq<Node>) -> nat
    decreases ns, 1nat,
{
    if ns.len() == 0 {
        0
    } else {
        let a = print_depth_all(ns.drop_last());
        let b = print_depth(ns.last());
        if a >= b {
            a
        } else {
            b
        }
    }
}

proof fn lemma_print_depth_all(ns: Seq<Node>, i: int)
    requires
        0 <= i < ns.len(),
    ensures
        print_depth(ns[i]) <= print_depth_all(ns),
    decreases ns.len(),
{
    if i < ns.len() - 1 {
        lemma_print_depth_all(ns.drop_last(), i);
        assert(ns.drop_last()[i] == ns[i]);
    }
}

/// Appends ` name="value"` for each attribute, in name order.
fn push_attributes(out: &mut String, attributes: &Attributes)
    ensures
        final(out)@ == old(out)@ + attr_text(attributes.entries_view()),
{
    let n = attributes.len();
    let mut i: usize = 0;
    while i < n
        invariant
            i <= n,
            n == attributes.entries_view().len(),
            out@ == old(out)@ + attr_text(attributes.entries_view().take(i as int)),
        decreases n - i,
    {
        let (k, v) = attributes.entry(i);
        let ghost before = out@;
        push_str(out, " ");
        push_str(out, k.as_str());
        push_str(out, "=\"");
        let vv = chars_of(v.as_str());
        push_escaped(out, &vv, 0, vv.len());
        push_str(out, "\"");
        proof {
            let e = attributes.entries_view();
            assert(vv@.subrange(0, vv.len() as int) =~= vv@);
            assert(e.take(i + 1).drop_last() =~= e.take(i as int));
            assert(e.take(i + 1).last() == e[i as int]);
            assert(out@ =~= old(out)@ + attr_text(e.take(i + 1)));
        }
        i += 1;
    }
    assert(attributes.entries_view().take(n as int) =~= attributes.entries_view());
}

/// The printed form of `nodes`, one construct per line, starting at
/// indentation `indent_level` (two spaces per level): elements without
/// children as `<tag attrs />`, elements whose only child is text on one
/// line, other elements with their children one level deeper; attributes
/// in name order with escaped values; text trimmed and escaped, and left out
/// when it is all white space.
#[verifier::loop_isolation(false)]
#[verifier::rlimit(40)]
pub fn pretty_print(nodes: &[Node], indent_level: usize) -> (r: String)
    requires
        indent_level + print_depth_all(nodes@) <= isize::MAX / 2,
    ensures
        r@ == pretty_forest(nodes@, indent_level as nat),
    decreases nodes@,
{
    let ghost level = indent_level as nat;
    let mut out = String::new();
    let mut ind = String::new();
    let mut k: usize = 0;
    while k < indent_level
        invariant
            k <= indent_level,
            ind@ == indent(k as nat),
        decreases indent_level - k,
    {
        push_char(&mut ind, ' ');
        push_char(&mut ind, ' ');
        k += 1;
        assert(ind@ =~= indent(k as nat));
    }
    let mut i: usize = 0;
    while i < nodes.len()
        invariant
            i <= nodes.len(),
            ind@ == indent(level),
            out@ == pretty_forest(nodes@.take(i as int), level),
        decreases nodes.len() - i,
    {
        let ghost before = out@;
        let node = &nodes[i];
        match node {
            Node::Element { tag, attributes, children } => {
                let lone: Option<&String> = if children.len() == 1 {
                    match &children[0] {
                        Node::Text(t) => Some(t),
                        _ => None,
                    }
                } else {
                    None
                };
                assert(lone_text(children@) == (match lone {
                    Some(t) => Some(t@),
                    None => None::<Seq<char>>,
                }));
                push_str(&mut out, ind.as_str());
                push_str(&mut out, "<");
                push_str(&mut out, tag.as_str());
                push_attributes(&mut out, attributes);
                if children.len() == 0 {
                    push_str(&mut out, " />\n");
                } else if let Some(t) = lone {
                    push_str(&mut out, ">");
                    let v = chars_of(t.as_str());
                    let (a, b) = trim_bounds(&v, 0, v.len());
                    assert(v@.subrange(0, v.len() as int) =~= v@);
                    push_escaped(&mut out, &v, a, b);
                    push_str(&mut out, "</");
                    push_str(&mut out, tag.as_str());
                    push_str(&mut out, ">\n");
                } else {
                    push_str(&mut out, ">\n");
                    proof {
                        lemma_print_depth_all(nodes@, i as int);
                        assert(decreases_to!(nodes@ => nodes@[i as int]));
                        assert(decreases_to!(nodes@[i as int] => children@));
                    }
                    let inner = pretty_print(children.as_slice(), indent_level + 1);
                    push_str(&mut out, inner.as_str());
                    push_str(&mut out, ind.as_str());
                    push_str(&mut out, "</");
                    push_str(&mut out, tag.as_str());
                    push_str(&mut out, ">\n");
                }
            },
            Node::Text(t) => {
                let v = chars_of(t.as_str());
                let (a, b) = trim_bounds(&v, 0, v.len());
                assert(v@.subrange(0, v.len() as int) =~= v@);
                if a < b {
                    push_str(&mut out, ind.as_str());
                    push_escaped(&mut out, &v, a, b);
                    push_str(&mut out, "\n");
                }
            },
            Node::Comment(c) => {
                push_str(&mut out, ind.as_str());
                push_str(&mut out, "<!--");
                push_str(&mut out, c.as_str());
                push_str(&mut out, "-->\n");
            },
            Node::CData(c) => {
                push_str(&mut out, ind.as_str());
                push_str(&mut out, "<![CDATA[");
                push_str(&mut out, c.as_str());
                push_str(&mut out, "]]>\n");
            },
            Node::ProcessingInstruction { target, content } => {
                push_str(&mut out, ind.as_str());
                push_str(&mut out, "<?");
                push_str(&mut out, target.as_str());
                push_str(&mut out, " ");
                push_str(&mut out, content.as_str());
                push_str(&mut out, "?>\n");
            },
        }
        proof {
            assert(nodes@.take(i + 1).drop_last() =~= nodes@.take(i as int));
            assert(nodes@.take(i + 1).last() == nodes@[i as int]);
            assert(out@ =~= before + pretty_node(nodes@[i as int], level));
        }
        i += 1;
    }
    assert(nodes@.take(nodes.len() as int) =~= nodes@);
    out
}

/// Printing a list is printing its parts one after another, and an empty
/// list prints as nothing.
pub proof fn law_print_concat(a: Seq<Node>, b: Seq<Node>, level: nat)
    ensures
        pretty_forest(a + b, level) == pretty_forest(a, level) + pretty_forest(b, level),
        pretty_forest(Seq::empty(), level) == Seq::<char>::empty(),
    decreases b.len(),
{
    if b.len() == 0 {
        assert(a + b =~= a);
        assert(pretty_forest(a, level) + Seq::<char>::empty() =~= pretty_forest(a, level));
    } else {
        law_print_concat(a, b.drop_last(), level);
        assert((a + b).drop_last() =~= a + b.drop_last());
        assert((a + b).last() == b.last());
        assert(pretty_forest(a, level) + pretty_forest(b.drop_last(), level) + pretty_node(
            b.last(),
            level,
        ) =~= pretty_forest(a, level) + (pretty_forest(b.drop_last(), level) + pretty_node(
            b.last(),
            level,
        )));
    }
}

/// Whether `n` is text that is all white space.
pub open spec fn blank_text(n: Node) -> bool {
    n matches Node::Text(t) && trim(t@).len() == 0
}

proof fn lemma_ends_with_break(x: Seq<char>, tail: Seq<char>)
    requires
        tail.len() > 0,
        tail.last() == '\n',
    ensures
        (x + tail).len() > 0,
        (x + tail).last() == '\n',
{
    assert((x + tail)[(x + tail).len() - 1] == tail[tail.len() - 1]);
}

proof fn lemma_node_lines(n: Node, level: nat)
    ensures
        pretty_node(n, level).len() == 0 <==> blank_text(n),
        pretty_node(n, level).len() > 0 ==> pretty_node(n, level).last() == '\n',
{
    reveal_strlit(" />\n");
    reveal_strlit(">\n");
    reveal_strlit("-->\n");
    reveal_strlit("]]>\n");
    reveal_strlit("?>\n");
    reveal_strlit("\n");
    let ind = indent(level);
    match n {
        Node::Element { tag, attributes, children } => {
            let a = attr_text(attributes.entries_view());
            if children.len() == 0 {
                lemma_ends_with_break(ind + "<"@ + tag@ + a, " />\n"@);
            } else if lone_text(children@) is Some {
                lemma_ends_with_break(
                    ind + "<"@ + tag@ + a + ">"@ + escape(trim(lone_text(children@)->0)) + "</"@
                        + tag@,
                    ">\n"@,
                );
            } else {
                lemma_ends_with_break(
                    ind + "<"@ + tag@ + a + ">\n"@ + pretty_forest(children@, level + 1) + ind
                        + "</"@ + tag@,
                    ">\n"@,
                );
            }
        },
        Node::Text(t) => {
            if trim(t@).len() != 0 {
                lemma_ends_with_break(ind + escape(trim(t@)), "\n"@);
            }
        },
        Node::Comment(c) => {
            lemma_ends_with_break(ind + "<!--"@ + c@, "-->\n"@);
        },
        Node::CData(c) => {
            lemma_ends_with_break(ind + "<![CDATA["@ + c@, "]]>\n"@);
        },
        Node::ProcessingInstruction { target, content } => {
            lemma_ends_with_break(ind + "<?"@ + target@ + " "@ + content@, "?>\n"@);
        },
    }
}

/// What `pretty_print` gives is empty or ends in a line break, and it is
/// empty exactly when every node is text that is all white space.
pub proof fn law_print_lines(ns: Seq<Node>, level: nat)
    ensures
        pretty_forest(ns, level).len() == 0 || pretty_forest(ns, level).last() == '\n',
        pretty_forest(ns, level).len() == 0 <==> forall|i: int|
            0 <= i < ns.len() ==> blank_text(#[trigger] ns[i]),
    decreases ns.len(),
{
    if ns.len() > 0 {
        let p = ns.drop_last();
        law_print_lines(p, level);
        lemma_node_lines(ns.last(), level);
        let x = pretty_forest(p, level);
        let y = pretty_node(ns.last(), level);
        if y.len() > 0 {
            lemma_ends_with_break(x, y);
        } else {
            assert(x + y =~= x);
        }
        if forall|i: int| 0 <= i < ns.len() ==> blank_text(#[trigger] ns[i]) {
            assert(blank_text(ns[ns.len() - 1]));
            assert forall|i: int| 0 <= i < p.len() implies blank_text(#[trigger] p[i]) by {
                assert(p[i] == ns[i]);
            }
        }
        if forall|i: int| 0 <= i < p.len() ==> blank_text(#[trigger] p[i]) {
            if blank_text(ns.last()) {
                assert forall|i: int| 0 <= i < ns.len() implies blank_text(#[trigger] ns[i]) by {
                    if i < p.len() {
                        assert(p[i] == ns[i]);
                    }
                }
            }
        } else {
            let j = choose|j: int| 0 <= j < p.len() && !blank_text(#[trigger] p[j]);
            assert(p[j] == ns[j]);
        }
    }
}

/// `s` holds no line break.
pub open spec fn no_nl(s: Seq<char>) -> bool {
    forall|i: int| 0 <= i < s.len() ==> #[trigger] s[i] != '\n'
}

/// `s` is one line: it ends in its only line break.
pub open spec fn one_line(s: Seq<char>) -> bool {
    s.len() > 0 && s.last() == '\n' && no_nl(s.drop_last())
}

/// `s` with two spaces put in front of each of its lines (a line runs up to
/// and including a line break; a last line without one gets them too).
pub open spec fn indent_lines(s: Seq<char>) -> Seq<char>
    decreases s.len(),
{
    if s.len() == 0 {
        Seq::empty()
    } else {
        let k = scan_to(s, 0, Stop::Char('\n'));
        proof {
            lemma_scan_to(s, 0, Stop::Char('\n'));
        }
        if k < s.len() {
            seq![' ', ' '] + s.subrange(0, k + 1) + indent_lines(s.subrange(k + 1, s.len() as int))
        } else {
            seq![' ', ' '] + s
        }
    }
}

/// Whether no string of `n` (tag, attribute names and values, text,
/// comment, CDATA, processing instruction, at any depth) holds a line break.
pub open spec fn plain_node(n: Node) -> bool
    decreases n, 0nat,
{
    match n {
        Node::Element { tag, attributes, children } => no_nl(tag@) && (forall|i: int|
            0 <= i < attributes.entries_view().len() ==> no_nl(
                #[trigger] attributes.entries_view()[i].0,
            ) && no_nl(attributes.entries_view()[i].1)) && plain_forest(children@),
        Node::Text(t) => no_nl(t@),
        Node::Comment(c) => no_nl(c@),
        Node::CData(c) => no_nl(c@),
        Node::ProcessingInstruction { target, content } => no_nl(target@) && no_nl(content@),
    }
}

/// `plain_node` of every node.
pub open spec fn plain_forest(ns: Seq<Node>) -> bool
    decreases ns, 1nat,
{
    ns.len() == 0 || (plain_forest(ns.drop_last()) && plain_node(ns.last()))
}

proof fn lemma_no_nl_concat(a: Seq<char>, b: Seq<char>)
    requires
        no_nl(a),
        no_nl(b),
    ensures
        no_nl(a + b),
{
    assert forall|i: int| 0 <= i < (a + b).len() implies #[trigger] (a + b)[i] != '\n' by {
        if i < a.len() {
            assert((a + b)[i] == a[i]);
        } else {
            assert((a + b)[i] == b[i - a.len()]);
        }
    }
}

proof fn lemma_line(x: Seq<char>, lit: Seq<char>)
    requires
        no_nl(x),
        one_line(lit),
    ensures
        one_line(x + lit),
{
    assert((x + lit).drop_last() =~= x + lit.drop_last());
    lemma_no_nl_concat(x, lit.drop_last());
    assert((x + lit).last() == lit.last());
}

proof fn lemma_indent_one_line(s: Seq<char>)
    requires
        one_line(s),
    ensures
        indent_lines(s) == seq![' ', ' '] + s,
{
    let n = s.len() - 1;
    assert forall|j: int| 0 <= j < n implies !stops(Stop::Char('\n'), #[trigger] s[j]) by {
        assert(s.drop_last()[j] == s[j]);
    }
    lemma_scan_to_first(s, 0, n, Stop::Char('\n'));
    assert(s.subrange(0, n + 1) =~= s);
    let e = s.subrange(n + 1, s.len() as int);
    assert(e =~= Seq::<char>::empty());
    assert(indent_lines(e) == Seq::<char>::empty());
    assert(indent_lines(s) == seq![' ', ' '] + s.subrange(0, n + 1) + indent_lines(e));
    assert(seq![' ', ' '] + s + Seq::<char>::empty() =~= seq![' ', ' '] + s);
}

proof fn lemma_indent_concat(a: Seq<char>, b: Seq<char>)
    requires
        a.len() == 0 || a.last() == '\n',
    ensures
        indent_lines(a + b) == indent_lines(a) + indent_lines(b),
    decreases a.len(),
{
    if a.len() == 0 {
        assert(a + b =~= b);
        assert(Seq::<char>::empty() + indent_lines(b) =~= indent_lines(b));
    } else {
        let k = scan_to(a, 0, Stop::Char('\n'));
        lemma_scan_to(a, 0, Stop::Char('\n'));
        if k == a.len() {
            assert(!stops(Stop::Char('\n'), a[a.len() - 1]));
        }
        let ab = a + b;
        assert forall|j: int| 0 <= j < k implies !stops(Stop::Char('\n'), #[trigger] ab[j]) by {
            assert(ab[j] == a[j]);
        }
        assert(ab[k] == a[k]);
        lemma_scan_to_first(ab, 0, k, Stop::Char('\n'));
        let ra = a.subrange(k + 1, a.len() as int);
        assert(ab.subrange(0, k + 1) =~= a.subrange(0, k + 1));
        assert(ab.subrange(k + 1, ab.len() as int) =~= ra + b);
        if ra.len() > 0 {
            assert(ra.last() == a.last());
        }
        lemma_indent_concat(ra, b);
        assert(seq![' ', ' '] + a.subrange(0, k + 1) + (indent_lines(ra) + indent_lines(b))
            =~= seq![' ', ' '] + a.subrange(0, k + 1) + indent_lines(ra) + indent_lines(b));
    }
}

proof fn lemma_escape_no_nl(s: Seq<char>)
    requires
        no_nl(s),
    ensures
        no_nl(escape(s)),
    decreases s.len(),
{
    if s.len() > 0 {
        assert(no_nl(s.drop_last())) by {
            assert forall|i: int| 0 <= i < s.drop_last().len() implies #[trigger] s.drop_last()[i]
                != '\n' by {
                assert(s.drop_last()[i] == s[i]);
            }
        }
        lemma_escape_no_nl(s.drop_last());
        assert(s.last() == s[s.len() - 1]);
        assert(no_nl(escape_char(s.last())));
        lemma_no_nl_concat(escape(s.drop_last()), escape_char(s.last()));
    }
}

proof fn lemma_trim_no_nl(s: Seq<char>)
    requires
        no_nl(s),
    ensures
        no_nl(trim_start(s)),
        no_nl(trim_end(s)),
    decreases s.len(),
{
    if s.len() > 0 {
        assert(no_nl(s.drop_first())) by {
            assert forall|i: int| 0 <= i < s.drop_first().len() implies #[trigger] s.drop_first()[i]
                != '\n' by {
                assert(s.drop_first()[i] == s[i + 1]);
            }
        }
        assert(no_nl(s.drop_last())) by {
            assert forall|i: int| 0 <= i < s.drop_last().len() implies #[trigger] s.drop_last()[i]
                != '\n' by {
                assert(s.drop_last()[i] == s[i]);
            }
        }
        lemma_trim_no_nl(s.drop_first());
        lemma_trim_no_nl(s.drop_last());
    }
}

proof fn lemma_attr_text_no_nl(e: Seq<(Seq<char>, Seq<char>)>)
    requires
        forall|i: int| 0 <= i < e.len() ==> no_nl(#[trigger] e[i].0) && no_nl(e[i].1),
    ensures
        no_nl(attr_text(e)),
    decreases e.len(),
{
    reveal_strlit(" ");
    reveal_strlit("=\"");
    reveal_strlit("\"");
    if e.len() > 0 {
        let p = e.drop_last();
        assert forall|i: int| 0 <= i < p.len() implies no_nl(#[trigger] p[i].0) && no_nl(p[i].1) by {
            assert(p[i] == e[i]);
        }
        lemma_attr_text_no_nl(p);
        let last = e[e.len() - 1];
        assert(no_nl(e[e.len() - 1].0) && no_nl(e[e.len() - 1].1));
        lemma_escape_no_nl(last.1);
        assert(no_nl(" "@));
        assert(no_nl("=\""@));
        assert(no_nl("\""@));
        lemma_no_nl_concat(attr_text(p), " "@);
        lemma_no_nl_concat(attr_text(p) + " "@, last.0);
        lemma_no_nl_concat(attr_text(p) + " "@ + last.0, "=\""@);
        lemma_no_nl_concat(attr_text(p) + " "@ + last.0 + "=\""@, escape(last.1));
        lemma_no_nl_concat(attr_text(p) + " "@ + last.0 + "=\""@ + escape(last.1), "\""@);
    }
}

proof fn lemma_indent_step(level: nat)
    ensures
        indent(level + 1) == seq![' ', ' '] + indent(level),
        no_nl(indent(level)),
{
    assert(indent(level + 1) =~= seq![' ', ' '] + indent(level));
}

proof fn lemma_literals()
    ensures
        no_nl("<"@),
        no_nl("</"@),
        no_nl(">"@),
        no_nl("<!--"@),
        no_nl("<![CDATA["@),
        no_nl("<?"@),
        no_nl(" "@),
        one_line(" />\n"@),
        one_line(">\n"@),
        one_line("-->\n"@),
        one_line("]]>\n"@),
        one_line("?>\n"@),
        one_line("\n"@),
{
    reveal_strlit("<");
    reveal_strlit("</");
    reveal_strlit(">");
    reveal_strlit("<!--");
    reveal_strlit("<![CDATA[");
    reveal_strlit("<?");
    reveal_strlit(" ");
    reveal_strlit(" />\n");
    reveal_strlit(">\n");
    reveal_strlit("-->\n");
    reveal_strlit("]]>\n");
    reveal_strlit("?>\n");
    reveal_strlit("\n");
    assert(" />\n"@.drop_last() =~= seq![' ', '/', '>']);
    assert(">\n"@.drop_last() =~= seq!['>']);
    assert("-->\n"@.drop_last() =~= seq!['-', '-', '>']);
    assert("]]>\n"@.drop_last() =~= seq![']', ']', '>']);
    assert("?>\n"@.drop_last() =~= seq!['?', '>']);
    assert("\n"@.drop_last() =~= Seq::<char>::empty());
}

/// Indents a one-line piece `head + lit` one level deeper.
proof fn lemma_indent_piece(ind: Seq<char>, mid: Seq<char>, lit: Seq<char>)
    requires
        no_nl(ind),
        no_nl(mid),
        one_line(lit),
    ensures
        one_line(ind + mid + lit),
        indent_lines(ind + mid + lit) == seq![' ', ' '] + ind + mid + lit,
{
    lemma_no_nl_concat(ind, mid);
    lemma_line(ind + mid, lit);
    lemma_indent_one_line(ind + mid + lit);
    assert(seq![' ', ' '] + (ind + mid + lit) =~= seq![' ', ' '] + ind + mid + lit);
}

proof fn lemma_shift4(
    two: Seq<char>,
    ind: Seq<char>,
    x1: Seq<char>,
    x2: Seq<char>,
    x3: Seq<char>,
    x4: Seq<char>,
)
    ensures
        (two + ind) + x1 + x2 + x3 + x4 == two + (ind + x1 + x2 + x3 + x4),
{
    assert((two + ind) + x1 + x2 + x3 + x4 =~= two + (ind + x1 + x2 + x3 + x4));
}

proof fn lemma_shift8(
    two: Seq<char>,
    ind: Seq<char>,
    x1: Seq<char>,
    x2: Seq<char>,
    x3: Seq<char>,
    x4: Seq<char>,
    x5: Seq<char>,
    x6: Seq<char>,
    x7: Seq<char>,
    x8: Seq<char>,
)
    ensures
        (two + ind) + x1 + x2 + x3 + x4 + x5 + x6 + x7 + x8 == two + (ind + x1 + x2 + x3 + x4 + x5
            + x6 + x7 + x8),
{
    assert((two + ind) + x1 + x2 + x3 + x4 + x5 + x6 + x7 + x8 =~= two + (ind + x1 + x2 + x3 + x4
        + x5 + x6 + x7 + x8));
}

proof fn lemma_split_nested(
    ind: Seq<char>,
    a1: Seq<char>,
    a2: Seq<char>,
    a3: Seq<char>,
    a4: Seq<char>,
    f: Seq<char>,
    b1: Seq<char>,
    b2: Seq<char>,
    b3: Seq<char>,
)
    ensures
        ind + a1 + a2 + a3 + a4 + f + ind + b1 + b2 + b3 == (ind + a1 + a2 + a3 + a4) + (f + (ind
            + b1 + b2 + b3)),
{
    assert(ind + a1 + a2 + a3 + a4 + f + ind + b1 + b2 + b3 =~= (ind + a1 + a2 + a3 + a4) + (f + (
    ind + b1 + b2 + b3)));
}

proof fn lemma_nested_shifted(
    two: Seq<char>,
    ind: Seq<char>,
    a1: Seq<char>,
    a2: Seq<char>,
    a3: Seq<char>,
    a4: Seq<char>,
    g: Seq<char>,
    b1: Seq<char>,
    b2: Seq<char>,
    b3: Seq<char>,
)
    ensures
        (two + ind) + a1 + a2 + a3 + a4 + g + (two + ind) + b1 + b2 + b3 == (two + (ind + a1 + a2
            + a3 + a4)) + (g + (two + (ind + b1 + b2 + b3))),
{
    assert((two + ind) + a1 + a2 + a3 + a4 + g + (two + ind) + b1 + b2 + b3 =~= (two + (ind + a1
        + a2 + a3 + a4)) + (g + (two + (ind + b1 + b2 + b3))));
}

proof fn lemma_indent_element_empty(n: Node, level: nat)
    requires
        plain_node(n),
        n matches Node::Element { children, .. } && children.len() == 0,
    ensures
        pretty_node(n, level + 1) == indent_lines(pretty_node(n, level)),
{
    lemma_literals();
    lemma_indent_step(level);
    let ind = indent(level);
    let two = seq![' ', ' '];
    if let Node::Element { tag, attributes, children } = n {
        let a = attr_text(attributes.entries_view());
        lemma_attr_text_no_nl(attributes.entries_view());
        lemma_no_nl_concat(ind, "<"@);
        lemma_no_nl_concat(ind + "<"@, tag@);
        lemma_no_nl_concat(ind + "<"@ + tag@, a);
        lemma_line(ind + "<"@ + tag@ + a, " />\n"@);
        lemma_indent_one_line(ind + "<"@ + tag@ + a + " />\n"@);
        lemma_shift4(two, ind, "<"@, tag@, a, " />\n"@);
    }
}

proof fn lemma_indent_element_text(n: Node, level: nat)
    requires
        plain_node(n),
        n matches Node::Element { children, .. } && children.len() != 0 && lone_text(
            children@,
        ) is Some,
    ensures
        pretty_node(n, level + 1) == indent_lines(pretty_node(n, level)),
{
    lemma_literals();
    lemma_indent_step(level);
    let ind = indent(level);
    let two = seq![' ', ' '];
    if let Node::Element { tag, attributes, children } = n {
        let a = attr_text(attributes.entries_view());
        let t = lone_text(children@)->0;
        lemma_attr_text_no_nl(attributes.entries_view());
        if let Node::Text(x) = children@[0] {
            assert(plain_forest(children@.drop_last()) && plain_node(children@.last()));
            assert(children@.last() == children@[0]);
            lemma_trim_no_nl(x@);
            lemma_trim_no_nl(trim_start(x@));
            lemma_escape_no_nl(trim(t));
        }
        let e = escape(trim(t));
        lemma_no_nl_concat(ind, "<"@);
        lemma_no_nl_concat(ind + "<"@, tag@);
        lemma_no_nl_concat(ind + "<"@ + tag@, a);
        lemma_no_nl_concat(ind + "<"@ + tag@ + a, ">"@);
        lemma_no_nl_concat(ind + "<"@ + tag@ + a + ">"@, e);
        lemma_no_nl_concat(ind + "<"@ + tag@ + a + ">"@ + e, "</"@);
        lemma_no_nl_concat(ind + "<"@ + tag@ + a + ">"@ + e + "</"@, tag@);
        lemma_line(ind + "<"@ + tag@ + a + ">"@ + e + "</"@ + tag@, ">\n"@);
        lemma_indent_one_line(ind + "<"@ + tag@ + a + ">"@ + e + "</"@ + tag@ + ">\n"@);
        lemma_shift8(two, ind, "<"@, tag@, a, ">"@, e, "</"@, tag@, ">\n"@);
    }
}

#[verifier::rlimit(40)]
proof fn lemma_indent_leaf(n: Node, level: nat)
    requires
        plain_node(n),
        !(n is Element),
    ensures
        pretty_node(n, level + 1) == indent_lines(pretty_node(n, level)),
{
    lemma_literals();
    lemma_indent_step(level);
    let ind = indent(level);
    let two = seq![' ', ' '];
    match n {
        Node::Text(t) => {
            if trim(t@).len() != 0 {
                lemma_trim_no_nl(t@);
                lemma_trim_no_nl(trim_start(t@));
                lemma_escape_no_nl(trim(t@));
                lemma_indent_piece(ind, escape(trim(t@)), "\n"@);
                assert(pretty_node(n, level + 1) =~= two + ind + escape(trim(t@)) + "\n"@);
            }
        },
        Node::Comment(c) => {
            lemma_no_nl_concat("<!--"@, c@);
            lemma_indent_piece(ind, "<!--"@ + c@, "-->\n"@);
            assert(pretty_node(n, level) =~= ind + ("<!--"@ + c@) + "-->\n"@);
            assert(pretty_node(n, level + 1) =~= two + ind + ("<!--"@ + c@) + "-->\n"@);
        },
        Node::CData(c) => {
            lemma_no_nl_concat("<![CDATA["@, c@);
            lemma_indent_piece(ind, "<![CDATA["@ + c@, "]]>\n"@);
            assert(pretty_node(n, level) =~= ind + ("<![CDATA["@ + c@) + "]]>\n"@);
            assert(pretty_node(n, level + 1) =~= two + ind + ("<![CDATA["@ + c@) + "]]>\n"@);
        },
        Node::ProcessingInstruction { target, content } => {
            let mid = "<?"@ + target@ + " "@ + content@;
            lemma_no_nl_concat("<?"@, target@);
            lemma_no_nl_concat("<?"@ + target@, " "@);
            lemma_no_nl_concat("<?"@ + target@ + " "@, content@);
            lemma_indent_piece(ind, mid, "?>\n"@);
            assert(pretty_node(n, level) =~= ind + mid + "?>\n"@);
            assert(pretty_node(n, level + 1) =~= two + ind + mid + "?>\n"@);
        },
        _ => {},
    }
}

proof fn lemma_indent_node(n: Node, level: nat)
    requires
        plain_node(n),
    ensures
        pretty_node(n, level + 1) == indent_lines(pretty_node(n, level)),
    decreases n, 2nat,
{
    if let Node::Element { tag, attributes, children } = n {
        if children.len() == 0 {
            lemma_indent_element_empty(n, level);
        } else if lone_text(children@) is Some {
            lemma_indent_element_text(n, level);
        } else {
            lemma_indent_nested(n, level);
        }
    } else {
        lemma_indent_leaf(n, level);
    }
}

proof fn lemma_indent_nested(n: Node, level: nat)
    requires
        plain_node(n),
        n matches Node::Element { children, .. } && children.len() != 0 && lone_text(
            children@,
        ) is None,
    ensures
        pretty_node(n, level + 1) == indent_lines(pretty_node(n, level)),
    decreases n, 1nat,
{
    if let Node::Element { tag, attributes, children } = n {
        lemma_literals();
        lemma_indent_step(level);
        let ind = indent(level);
        let two = seq![' ', ' '];
        let a = attr_text(attributes.entries_view());
        lemma_attr_text_no_nl(attributes.entries_view());
        lemma_indent_forest(children@, level + 1);
        let f = pretty_forest(children@, level + 1);
        let first = ind + "<"@ + tag@ + a + ">\n"@;
        let last = ind + "</"@ + tag@ + ">\n"@;
        lemma_no_nl_concat(ind, "<"@);
        lemma_no_nl_concat(ind + "<"@, tag@);
        lemma_no_nl_concat(ind + "<"@ + tag@, a);
        lemma_line(ind + "<"@ + tag@ + a, ">\n"@);
        lemma_indent_one_line(first);
        lemma_no_nl_concat(ind, "</"@);
        lemma_no_nl_concat(ind + "</"@, tag@);
        lemma_line(ind + "</"@ + tag@, ">\n"@);
        lemma_indent_one_line(last);
        law_print_lines(children@, level + 1);
        lemma_indent_concat(first, f + last);
        lemma_indent_concat(f, last);
        lemma_split_nested(ind, "<"@, tag@, a, ">\n"@, f, "</"@, tag@, ">\n"@);
        lemma_nested_shifted(
            two,
            ind,
            "<"@,
            tag@,
            a,
            ">\n"@,
            pretty_forest(children@, level + 2),
            "</"@,
            tag@,
            ">\n"@,
        );
    }
}

proof fn lemma_indent_forest(ns: Seq<Node>, level: nat)
    requires
        plain_forest(ns),
    ensures
        pretty_forest(ns, level + 1) == indent_lines(pretty_forest(ns, level)),
    decreases ns, 3nat,
{
    if ns.len() > 0 {
        lemma_indent_forest(ns.drop_last(), level);
        lemma_indent_node(ns.last(), level);
        law_print_lines(ns.drop_last(), level);
        lemma_indent_concat(pretty_forest(ns.drop_last(), level), pretty_node(ns.last(), level));
    }
}

/// One more level of indentation puts two more spaces in front of every
/// printed line, when no string in the nodes holds a line break.
pub proof fn law_print_indent(ns: Seq<Node>, level: nat)
    requires
        plain_forest(ns),
    ensures
        pretty_forest(ns, level + 1) == indent_lines(pretty_forest(ns, level)),
{
    lemma_indent_forest(ns, level);
}

/// `x` is how the printer writes the text `t`: unescaped (each entity
/// replaced by its character), it is `t` without the white space at its two
/// ends, and it holds no `<`, `>`, `"` or `'` of its own.
pub open spec fn printed_text(t: Seq<char>, x: Seq<char>) -> bool {
    &&& trimmed_piece(t, unescape_by_replace(x))
    &&& forall|i: int| 0 <= i < x.len() ==> !is_markup_char(#[trigger] x[i])
}

proof fn lemma_printed_text(t: Seq<char>)
    ensures
        printed_text(t, escape(trim(t))),
        trim(t).len() == 0 <==> forall|j: int| 0 <= j < t.len() ==> is_white_space(#[trigger] t[j]),
{
    lemma_trim_is_trimmed_piece(t);
    law_escape_replace_round_trip(trim(t));
    law_escape(trim(t));
    let a = choose|a: int| trimmed_at(t, trim(t), a);
    if trim(t).len() > 0 {
        assert(t[a] == t.subrange(a, a + trim(t).len())[0]);
    } else {
        assert forall|j: int| 0 <= j < t.len() implies is_white_space(#[trigger] t[j]) by {
            if j < a {
            } else {
            }
        }
    }
}

/// Text prints as one line at its indentation holding the text without the
/// white space at its ends, escaped (see `printed_text`); text that is all
/// white space prints as nothing. An element whose only child is text prints
/// that text in the same way between its tags on one line.
pub proof fn law_print_text(t: String, level: nat, tag: String, attributes: Attributes, children: Vec<Node>)
    ensures
        (forall|j: int| 0 <= j < t@.len() ==> is_white_space(#[trigger] t@[j])) ==> pretty_node(
            Node::Text(t),
            level,
        ) == Seq::<char>::empty(),
        !(forall|j: int| 0 <= j < t@.len() ==> is_white_space(#[trigger] t@[j])) ==> {
            let out = pretty_node(Node::Text(t), level);
            let x = out.subrange(2 * level as int, out.len() - 1);
            &&& out == indent(level) + x + "\n"@
            &&& printed_text(t@, x)
        },
        children@ == seq![Node::Text(t)] ==> {
            let out = pretty_node(Node::Element { tag, attributes, children }, level);
            let head = indent(level) + "<"@ + tag@ + attr_text(attributes.entries_view()) + ">"@;
            let tail = "</"@ + tag@ + ">\n"@;
            let x = out.subrange(head.len() as int, out.len() - tail.len());
            &&& out == head + x + tail
            &&& printed_text(t@, x)
        },
{
    lemma_printed_text(t@);
    let x = escape(trim(t@));
    let out = pretty_node(Node::Text(t), level);
    if trim(t@).len() > 0 {
        reveal_strlit("\n");
        assert(out == indent(level) + x + "\n"@);
        assert(indent(level).len() == 2 * level);
        assert(out.subrange(2 * level as int, out.len() - 1) =~= x);
    }
    if children@ == seq![Node::Text(t)] {
        let e = Node::Element { tag, attributes, children };
        assert(lone_text(children@) == Some(t@));
        let out2 = pretty_node(e, level);
        let head = indent(level) + "<"@ + tag@ + attr_text(attributes.entries_view()) + ">"@;
        let tail = "</"@ + tag@ + ">\n"@;
        assert(out2 =~= head + x + tail);
        assert(out2.subrange(head.len() as int, out2.len() - tail.len()) =~= x);
    }
}

} // verus!
