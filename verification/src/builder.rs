//! The tree builder: from tokens to a forest of nodes, matching each
//! closing tag against the innermost open element.
use vstd::prelude::*;
use crate::attributes::Attributes;
use crate::syntax::{KindModel, TokenModel, ErrorModel, Token, TokenKind, XmlError, tokens_model};
use crate::text::{str_eq, string_from};
use crate::tree::{Node, NodeModel, node_model, forest_model};

verus! {

/// An element that is open: its tag, its attributes and the children read so far.
pub struct FrameModel {
    pub tag: Seq<char>,
    pub attrs: Map<Seq<char>, Seq<char>>,
    pub children: Seq<NodeModel>,
}

/// The attributes that follow an opening tag from token `i` on, added to
/// `attrs` in order (a later value for a name replaces an earlier one), with
/// the index after them and whether the tag closed itself. The run ends
/// after a `TagEnd` or a `SelfClosingEnd`, or before any other token.
pub open spec fn gather_attrs(
    toks: Seq<TokenModel>,
    i: int,
    attrs: Map<Seq<char>, Seq<char>>,
) -> (Map<Seq<char>, Seq<char>>, int, bool)
    decreases toks.len() - i,
{
    if i < 0 || i >= toks.len() {
        (attrs, i, false)
    } else {
        match toks[i].kind {
            KindModel::Attribute(k, v) => gather_attrs(toks, i + 1, attrs.insert(k, v)),
            KindModel::TagEnd => (attrs, i + 1, false),
            KindModel::SelfClosingEnd => (attrs, i + 1, true),
            _ => (attrs, i, false),
        }
    }
}

/// The attribute run ends at or after its start.
pub proof fn lemma_gather_attrs_bounds(
    toks: Seq<TokenModel>,
    i: int,
    attrs: Map<Seq<char>, Seq<char>>,
)
    requires
        0 <= i,
    ensures
        i <= gather_attrs(toks, i, attrs).1,
        i <= toks.len() ==> gather_attrs(toks, i, attrs).1 <= toks.len(),
    decreases toks.len() - i,
{
    if i < toks.len() {
        if let KindModel::Attribute(k, v) = toks[i].kind {
            lemma_gather_attrs_bounds(toks, i + 1, attrs.insert(k, v));
        }
    }
}

/// Adds `n` as the last child of the innermost open element, or as the last
/// root node when no element is open.
pub open spec fn attach(stack: Seq<FrameModel>, root: Seq<NodeModel>, n: NodeModel) -> (
    Seq<FrameModel>,
    Seq<NodeModel>,
) {
    if stack.len() == 0 {
        (stack, root.push(n))
    } else {
        let top = stack.last();
        (
            stack.drop_last().push(
                FrameModel { tag: top.tag, attrs: top.attrs, children: top.children.push(n) },
            ),
            root,
        )
    }
}

/// The forest built from the tokens from `i` on, given the open elements
/// `stack` and the finished root nodes `root`, or the first mismatched
/// closing tag. Elements still open at the end are left out.
pub open spec fn build_from(
    toks: Seq<TokenModel>,
    i: int,
    stack: Seq<FrameModel>,
    root: Seq<NodeModel>,
) -> Result<Seq<NodeModel>, ErrorModel>
    decreases toks.len() - i,
{
    if i < 0 || i >= toks.len() {
        Ok(root)
    } else {
        let t = toks[i];
        match t.kind {
            KindModel::TagOpen(tag) => {
                let g = gather_attrs(toks, i + 1, Map::empty());
                proof {
                    lemma_gather_attrs_bounds(toks, i + 1, Map::empty());
                }
                if g.2 {
                    let a = attach(
                        stack,
                        root,
                        NodeModel::Element { tag, attributes: g.0, children: Seq::empty() },
                    );
                    build_from(toks, g.1, a.0, a.1)
                } else {
                    build_from(
                        toks,
                        g.1,
                        stack.push(FrameModel { tag, attrs: g.0, children: Seq::empty() }),
                        root,
                    )
                }
            },
            KindModel::TagClose(tag) => {
                if stack.len() == 0 {
                    Err(
                        ErrorModel::MismatchedTag {
                            line: t.line,
                            col: t.column,
                            expected: "None"@,
                            found: tag,
                        },
                    )
                } else if stack.last().tag != tag {
                    Err(
                        ErrorModel::MismatchedTag {
                            line: t.line,
                            col: t.column,
                            expected: stack.last().tag,
                            found: tag,
                        },
                    )
                } else {
                    let f = stack.last();
                    let a = attach(
                        stack.drop_last(),
                        root,
                        NodeModel::Element { tag: f.tag, attributes: f.attrs, children: f.children },
                    );
                    build_from(toks, i + 1, a.0, a.1)
                }
            },
            KindModel::Text(x) => {
                let a = attach(stack, root, NodeModel::Text(x));
                build_from(toks, i + 1, a.0, a.1)
            },
            KindModel::Comment(x) => {
                let a = attach(stack, root, NodeModel::Comment(x));
                build_from(toks, i + 1, a.0, a.1)
            },
            KindModel::CData(x) => {
                let a = attach(stack, root, NodeModel::CData(x));
                build_from(toks, i + 1, a.0, a.1)
            },
            KindModel::ProcessingInstruction(x, y) => {
                let a = attach(
                    stack,
                    root,
                    NodeModel::ProcessingInstruction { target: x, content: y },
                );
                build_from(toks, i + 1, a.0, a.1)
            },
            _ => build_from(toks, i + 1, stack, root),
        }
    }
}

/// The forest built from `toks`, or the first mismatched closing tag.
pub open spec fn build(toks: Seq<TokenModel>) -> Result<Seq<NodeModel>, ErrorModel> {
    build_from(toks, 0, Seq::empty(), Seq::empty())
}

/// The model of an open element held by the builder.
pub open spec fn frame_model(f: (String, Attributes, Vec<Node>)) -> FrameModel {
    FrameModel { tag: f.0@, attrs: f.1@, children: forest_model(f.2@) }
}

/// The models of the open elements held by the builder.
pub open spec fn stack_model(s: Seq<(String, Attributes, Vec<Node>)>) -> Seq<FrameModel> {
    s.map_values(|f: (String, Attributes, Vec<Node>)| frame_model(f))
}

/// Pushing a node adds its model at the end of the models.
proof fn lemma_forest_model_push(v: Seq<Node>, n: Node)
    ensures
        forest_model(v.push(n)) == forest_model(v).push(node_model(n)),
{
    assert(v.push(n).drop_last() =~= v);
}

/// Adds `node` as the last child of the innermost open element, or as the
/// last root node when no element is open.
fn push_node(stack: &mut Vec<(String, Attributes, Vec<Node>)>, root: &mut Vec<Node>, node: Node)
    ensures
        (stack_model(final(stack)@), forest_model(final(root)@)) == attach(
            stack_model(old(stack)@),
            forest_model(old(root)@),
            node_model(node),
        ),
{
    let ghost n = node;
    if stack.len() > 0 {
        let mut top = stack.pop().unwrap();
        let ghost prev = top.2@;
        top.2.push(node);
        proof {
            lemma_forest_model_push(prev, n);
        }
        stack.push(top);
        assert(stack_model(stack@) =~= stack_model(old(stack)@).drop_last().push(frame_model(top)));
    } else {
        root.push(node);
        proof {
            lemma_forest_model_push(old(root)@, n);
        }
        assert(stack_model(stack@) =~= stack_model(old(stack)@));
    }
}

/// The forest that `tokens` describe: each opening tag with the attributes
/// that follow it (a later value for a name replaces an earlier one) starts
/// an element, closed by `/>` or by the matching closing tag; text, comments,
/// CDATA and processing instructions become leaves; every node goes into the
/// innermost open element, or to the top level. A closing tag that does not
/// match the innermost open element (or that comes with none open) is an
/// error at that token's position; elements never closed are left out.
pub fn parse(tokens: &[Token]) -> (r: Result<Vec<Node>, XmlError>)
    ensures
        match r {
            Ok(ns) => build(tokens_model(tokens@)) == Ok::<Seq<NodeModel>, ErrorModel>(
                forest_model(ns@),
            ),
            Err(e) => build(tokens_model(tokens@)) == Err::<Seq<NodeModel>, ErrorModel>(e@),
        },
{
    let ghost toks = tokens_model(tokens@);
    let mut stack: Vec<(String, Attributes, Vec<Node>)> = Vec::new();
    let mut root_nodes: Vec<Node> = Vec::new();
    assert(stack_model(stack@) =~= Seq::<FrameModel>::empty());
    assert(forest_model(root_nodes@) =~= Seq::<NodeModel>::empty());
    let mut i: usize = 0;
    while i < tokens.len()
        invariant
            i <= tokens.len(),
            toks == tokens_model(tokens@),
            build(toks) == build_from(toks, i as int, stack_model(stack@), forest_model(root_nodes@)),
        decreases tokens.len() - i,
    {
        let tok = &tokens[i];
        assert(toks[i as int] == tok@);
        match &tok.kind {
            TokenKind::TagOpen(tag) => {
                let mut attrs = Attributes::new();
                let mut self_closing = false;
                let mut j = i + 1;
                proof {
                    lemma_gather_attrs_bounds(toks, i + 1, Map::empty());
                }
                loop
                    invariant_except_break
                        i < j <= tokens.len(),
                        toks == tokens_model(tokens@),
                        !self_closing,
                        gather_attrs(toks, i + 1, Map::empty()) == gather_attrs(
                            toks,
                            j as int,
                            attrs@,
                        ),
                    ensures
                        i < j <= tokens.len(),
                        gather_attrs(toks, i + 1, Map::empty()) == (attrs@, j as int, self_closing),
                    decreases tokens.len() - j,
                {
                    if j >= tokens.len() {
                        break;
                    }
                    let next = &tokens[j];
                    assert(toks[j as int] == next@);
                    match &next.kind {
                        TokenKind::Attribute(k, v) => {
                            attrs.insert(k.clone(), v.clone());
                            j += 1;
                        },
                        TokenKind::TagEnd => {
                            j += 1;
                            break;
                        },
                        TokenKind::SelfClosingEnd => {
                            j += 1;
                            self_closing = true;
                            break;
                        },
                        _ => {
                            break;
                        },
                    }
                }
                if self_closing {
                    push_node(
                        &mut stack,
                        &mut root_nodes,
                        Node::Element { tag: tag.clone(), attributes: attrs, children: Vec::new() },
                    );
                    assert(forest_model(Seq::<Node>::empty()) =~= Seq::<NodeModel>::empty());
                } else {
                    let ghost prev = stack@;
                    stack.push((tag.clone(), attrs, Vec::new()));
                    assert(forest_model(Seq::<Node>::empty()) =~= Seq::<NodeModel>::empty());
                    assert(stack_model(stack@) =~= stack_model(prev).push(
                        FrameModel { tag: tag@, attrs: attrs@, children: Seq::empty() },
                    ));
                }
                i = j;
            },
            TokenKind::TagClose(tag) => {
                let ghost prev = stack@;
                match stack.pop() {
                    None => {
                        return Err(
                            XmlError::MismatchedTag {
                                line: tok.line,
                                col: tok.column,
                                expected: string_from("None"),
                                found: tag.clone(),
                            },
                        );
                    },
                    Some(frame) => {
                        assert(stack_model(prev).last() == frame_model(frame));
                        assert(stack_model(stack@) =~= stack_model(prev).drop_last());
                        let (open_tag, attrs, children) = frame;
                        if !str_eq(open_tag.as_str(), tag.as_str()) {
                            return Err(
                                XmlError::MismatchedTag {
                                    line: tok.line,
                                    col: tok.column,
                                    expected: open_tag,
                                    found: tag.clone(),
                                },
                            );
                        }
                        push_node(
                            &mut stack,
                            &mut root_nodes,
                            Node::Element { tag: open_tag, attributes: attrs, children },
                        );
                    },
                }
                i += 1;
            },
            TokenKind::Text(t) => {
                push_node(&mut stack, &mut root_nodes, Node::Text(t.clone()));
                i += 1;
            },
            TokenKind::Comment(c) => {
                push_node(&mut stack, &mut root_nodes, Node::Comment(c.clone()));
                i += 1;
            },
            TokenKind::CData(c) => {
                push_node(&mut stack, &mut root_nodes, Node::CData(c.clone()));
                i += 1;
            },
            TokenKind::ProcessingInstruction(target, content) => {
                push_node(
                    &mut stack,
                    &mut root_nodes,
                    Node::ProcessingInstruction { target: target.clone(), content: content.clone() },
                );
                i += 1;
            },
            _ => {
                i += 1;
            },
        }
    }
    Ok(root_nodes)
}

/// Whether `e` is a mismatched-tag error raised at a closing tag of `toks`:
/// its position is that token's and its `found` is that token's name.
pub open spec fn raised_at_close(toks: Seq<TokenModel>, e: ErrorModel) -> bool {
    match e {
        ErrorModel::MismatchedTag { line, col, found, .. } => exists|i: int|
            0 <= i < toks.len() && #[trigger] toks[i].kind == KindModel::TagClose(found)
                && toks[i].line == line && toks[i].column == col,
        _ => false,
    }
}

proof fn lemma_build_from_errors(
    toks: Seq<TokenModel>,
    i: int,
    stack: Seq<FrameModel>,
    root: Seq<NodeModel>,
)
    requires
        0 <= i,
    ensures
        build_from(toks, i, stack, root) matches Err(e) ==> raised_at_close(toks, e),
    decreases toks.len() - i,
{
    if i < toks.len() {
        let t = toks[i];
        match t.kind {
            KindModel::TagOpen(tag) => {
                let g = gather_attrs(toks, i + 1, Map::empty());
                lemma_gather_attrs_bounds(toks, i + 1, Map::empty());
                if g.2 {
                    let a = attach(
                        stack,
                        root,
                        NodeModel::Element { tag, attributes: g.0, children: Seq::empty() },
                    );
                    lemma_build_from_errors(toks, g.1, a.0, a.1);
                } else {
                    lemma_build_from_errors(
                        toks,
                        g.1,
                        stack.push(FrameModel { tag, attrs: g.0, children: Seq::empty() }),
                        root,
                    );
                }
            },
            KindModel::TagClose(tag) => {
                if stack.len() > 0 && stack.last().tag == tag {
                    let f = stack.last();
                    let a = attach(
                        stack.drop_last(),
                        root,
                        NodeModel::Element { tag: f.tag, attributes: f.attrs, children: f.children },
                    );
                    lemma_build_from_errors(toks, i + 1, a.0, a.1);
                } else {
                    assert(toks[i].kind == KindModel::TagClose(tag));
                }
            },
            KindModel::Text(x) => {
                let a = attach(stack, root, NodeModel::Text(x));
                lemma_build_from_errors(toks, i + 1, a.0, a.1);
            },
            KindModel::Comment(x) => {
                let a = attach(stack, root, NodeModel::Comment(x));
                lemma_build_from_errors(toks, i + 1, a.0, a.1);
            },
            KindModel::CData(x) => {
                let a = attach(stack, root, NodeModel::CData(x));
                lemma_build_from_errors(toks, i + 1, a.0, a.1);
            },
            KindModel::ProcessingInstruction(x, y) => {
                let a = attach(
                    stack,
                    root,
                    NodeModel::ProcessingInstruction { target: x, content: y },
                );
                lemma_build_from_errors(toks, i + 1, a.0, a.1);
            },
            _ => {
                lemma_build_from_errors(toks, i + 1, stack, root);
            },
        }
    }
}

/// The tree builder fails only with a mismatched-tag error, raised at a
/// closing tag of the input: the error carries that token's line, column
/// and name.
pub proof fn law_build_errors(toks: Seq<TokenModel>)
    ensures
        build(toks) matches Err(e) ==> raised_at_close(toks, e),
{
    lemma_build_from_errors(toks, 0, Seq::empty(), Seq::empty());
}

/// Whether the two token lists have the same kinds in the same order
/// (their positions may differ).
pub open spec fn same_kinds(a: Seq<TokenModel>, b: Seq<TokenModel>) -> bool {
    a.len() == b.len() && forall|i: int| 0 <= i < a.len() ==> #[trigger] a[i].kind == b[i].kind
}

proof fn lemma_gather_same_kinds(
    a: Seq<TokenModel>,
    b: Seq<TokenModel>,
    i: int,
    attrs: Map<Seq<char>, Seq<char>>,
)
    requires
        same_kinds(a, b),
    ensures
        gather_attrs(a, i, attrs) == gather_attrs(b, i, attrs),
    decreases a.len() - i,
{
    if 0 <= i < a.len() {
        assert(a[i].kind == b[i].kind);
        if let KindModel::Attribute(k, v) = a[i].kind {
            lemma_gather_same_kinds(a, b, i + 1, attrs.insert(k, v));
        }
    }
}

proof fn lemma_build_from_same_kinds(
    a: Seq<TokenModel>,
    b: Seq<TokenModel>,
    i: int,
    stack: Seq<FrameModel>,
    root: Seq<NodeModel>,
)
    requires
        same_kinds(a, b),
        0 <= i,
    ensures
        build_from(a, i, stack, root) is Ok <==> build_from(b, i, stack, root) is Ok,
        build_from(a, i, stack, root) is Ok ==> build_from(a, i, stack, root) == build_from(
            b,
            i,
            stack,
            root,
        ),
    decreases a.len() - i,
{
    if i < a.len() {
        assert(a[i].kind == b[i].kind);
        match a[i].kind {
            KindModel::TagOpen(tag) => {
                let g = gather_attrs(a, i + 1, Map::empty());
                lemma_gather_same_kinds(a, b, i + 1, Map::empty());
                lemma_gather_attrs_bounds(a, i + 1, Map::empty());
                if g.2 {
                    let x = attach(
                        stack,
                        root,
                        NodeModel::Element { tag, attributes: g.0, children: Seq::empty() },
                    );
                    lemma_build_from_same_kinds(a, b, g.1, x.0, x.1);
                } else {
                    lemma_build_from_same_kinds(
                        a,
                        b,
                        g.1,
                        stack.push(FrameModel { tag, attrs: g.0, children: Seq::empty() }),
                        root,
                    );
                }
            },
            KindModel::TagClose(tag) => {
                if stack.len() > 0 && stack.last().tag == tag {
                    let f = stack.last();
                    let x = attach(
                        stack.drop_last(),
                        root,
                        NodeModel::Element { tag: f.tag, attributes: f.attrs, children: f.children },
                    );
                    lemma_build_from_same_kinds(a, b, i + 1, x.0, x.1);
                }
            },
            KindModel::Text(t) => {
                let x = attach(stack, root, NodeModel::Text(t));
                lemma_build_from_same_kinds(a, b, i + 1, x.0, x.1);
            },
            KindModel::Comment(t) => {
                let x = attach(stack, root, NodeModel::Comment(t));
                lemma_build_from_same_kinds(a, b, i + 1, x.0, x.1);
            },
            KindModel::CData(t) => {
                let x = attach(stack, root, NodeModel::CData(t));
                lemma_build_from_same_kinds(a, b, i + 1, x.0, x.1);
            },
            KindModel::ProcessingInstruction(t, c) => {
                let x = attach(
                    stack,
                    root,
                    NodeModel::ProcessingInstruction { target: t, content: c },
                );
                lemma_build_from_same_kinds(a, b, i + 1, x.0, x.1);
            },
            _ => {
                lemma_build_from_same_kinds(a, b, i + 1, stack, root);
            },
        }
    }
}

/// Token positions matter only to errors: two token lists with the same
/// kinds either both build or both fail, and when they build they build the
/// same forest.
pub proof fn law_build_ignores_positions(a: Seq<TokenModel>, b: Seq<TokenModel>)
    requires
        same_kinds(a, b),
    ensures
        build(a) is Ok <==> build(b) is Ok,
        build(a) is Ok ==> build(a) == build(b),
{
    lemma_build_from_same_kinds(a, b, 0, Seq::empty(), Seq::empty());
}

/// The walk of the tag stack alone, from token `i` on with the open tags
/// `tags`: an opening tag whose attribute run does not end in `/>` pushes
/// its name, a closing tag pops; the first closing tag that meets an empty
/// stack, or a top with another name, is the error.
pub open spec fn first_mismatch(toks: Seq<TokenModel>, i: int, tags: Seq<Seq<char>>) -> Option<
    ErrorModel,
>
    decreases toks.len() - i,
{
    if i < 0 || i >= toks.len() {
        None
    } else {
        let t = toks[i];
        match t.kind {
            KindModel::TagOpen(tag) => {
                let g = gather_attrs(toks, i + 1, Map::empty());
                proof {
                    lemma_gather_attrs_bounds(toks, i + 1, Map::empty());
                }
                if g.2 {
                    first_mismatch(toks, g.1, tags)
                } else {
                    first_mismatch(toks, g.1, tags.push(tag))
                }
            },
            KindModel::TagClose(tag) => {
                if tags.len() == 0 {
                    Some(
                        ErrorModel::MismatchedTag {
                            line: t.line,
                            col: t.column,
                            expected: "None"@,
                            found: tag,
                        },
                    )
                } else if tags.last() != tag {
                    Some(
                        ErrorModel::MismatchedTag {
                            line: t.line,
                            col: t.column,
                            expected: tags.last(),
                            found: tag,
                        },
                    )
                } else {
                    first_mismatch(toks, i + 1, tags.drop_last())
                }
            },
            _ => first_mismatch(toks, i + 1, tags),
        }
    }
}

/// The names of the open elements, innermost last.
pub open spec fn frame_tags(stack: Seq<FrameModel>) -> Seq<Seq<char>> {
    stack.map_values(|f: FrameModel| f.tag)
}

proof fn lemma_attach_tags(stack: Seq<FrameModel>, root: Seq<NodeModel>, n: NodeModel)
    ensures
        frame_tags(attach(stack, root, n).0) == frame_tags(stack),
{
    assert(frame_tags(attach(stack, root, n).0) =~= frame_tags(stack));
}

proof fn lemma_build_from_mismatch(
    toks: Seq<TokenModel>,
    i: int,
    stack: Seq<FrameModel>,
    root: Seq<NodeModel>,
)
    requires
        0 <= i,
    ensures
        build_from(toks, i, stack, root) is Err <==> first_mismatch(toks, i, frame_tags(stack))
            is Some,
        build_from(toks, i, stack, root) matches Err(e) ==> first_mismatch(
            toks,
            i,
            frame_tags(stack),
        ) == Some(e),
    decreases toks.len() - i,
{
    if i < toks.len() {
        let t = toks[i];
        match t.kind {
            KindModel::TagOpen(tag) => {
                let g = gather_attrs(toks, i + 1, Map::empty());
                lemma_gather_attrs_bounds(toks, i + 1, Map::empty());
                if g.2 {
                    let x = attach(
                        stack,
                        root,
                        NodeModel::Element { tag, attributes: g.0, children: Seq::empty() },
                    );
                    lemma_attach_tags(
                        stack,
                        root,
                        NodeModel::Element { tag, attributes: g.0, children: Seq::empty() },
                    );
                    lemma_build_from_mismatch(toks, g.1, x.0, x.1);
                } else {
                    let st = stack.push(FrameModel { tag, attrs: g.0, children: Seq::empty() });
                    assert(frame_tags(st) =~= frame_tags(stack).push(tag));
                    lemma_build_from_mismatch(toks, g.1, st, root);
                }
            },
            KindModel::TagClose(tag) => {
                if stack.len() > 0 {
                    assert(frame_tags(stack).last() == stack.last().tag);
                }
                if stack.len() > 0 && stack.last().tag == tag {
                    let f = stack.last();
                    let n = NodeModel::Element {
                        tag: f.tag,
                        attributes: f.attrs,
                        children: f.children,
                    };
                    let x = attach(stack.drop_last(), root, n);
                    lemma_attach_tags(stack.drop_last(), root, n);
                    assert(frame_tags(stack.drop_last()) =~= frame_tags(stack).drop_last());
                    lemma_build_from_mismatch(toks, i + 1, x.0, x.1);
                }
            },
            KindModel::Text(c) => {
                let n = NodeModel::Text(c);
                lemma_attach_tags(stack, root, n);
                lemma_build_from_mismatch(toks, i + 1, attach(stack, root, n).0, attach(stack, root, n).1);
            },
            KindModel::Comment(c) => {
                let n = NodeModel::Comment(c);
                lemma_attach_tags(stack, root, n);
                lemma_build_from_mismatch(toks, i + 1, attach(stack, root, n).0, attach(stack, root, n).1);
            },
            KindModel::CData(c) => {
                let n = NodeModel::CData(c);
                lemma_attach_tags(stack, root, n);
                lemma_build_from_mismatch(toks, i + 1, attach(stack, root, n).0, attach(stack, root, n).1);
            },
            KindModel::ProcessingInstruction(x, y) => {
                let n = NodeModel::ProcessingInstruction { target: x, content: y };
                lemma_attach_tags(stack, root, n);
                lemma_build_from_mismatch(toks, i + 1, attach(stack, root, n).0, attach(stack, root, n).1);
            },
            _ => {
                lemma_build_from_mismatch(toks, i + 1, stack, root);
            },
        }
    }
}

/// `parse` fails exactly when the walk of the tag stack meets a closing tag
/// with no open element, or with an innermost open element of another name;
/// the error is then the one for the first such closing tag: its line and
/// column, the open name (or `None`) as expected and its own name as found.
pub proof fn law_build_fails_at_first_mismatch(toks: Seq<TokenModel>)
    ensures
        build(toks) is Err <==> first_mismatch(toks, 0, Seq::empty()) is Some,
        build(toks) matches Err(e) ==> first_mismatch(toks, 0, Seq::empty()) == Some(e),
{
    assert(frame_tags(Seq::empty()) =~= Seq::<Seq<char>>::empty());
    lemma_build_from_mismatch(toks, 0, Seq::empty(), Seq::empty());
}

/// One step of a pre-order walk: an element's opening (its tag) or a leaf.
pub enum Item {
    Open(Seq<char>),
    Leaf(NodeModel),
}

/// The pre-order walk of a node: an element's tag, then its children's
/// walks; a leaf itself.
pub open spec fn flat_node(n: NodeModel) -> Seq<Item>
    decreases n, 0nat,
{
    match n {
        NodeModel::Element { tag, children, .. } => seq![Item::Open(tag)] + flat_forest(children),
        _ => seq![Item::Leaf(n)],
    }
}

/// The pre-order walks of the nodes, one after another.
pub open spec fn flat_forest(ns: Seq<NodeModel>) -> Seq<Item>
    decreases ns, 1nat,
{
    if ns.len() == 0 {
        Seq::empty()
    } else {
        flat_forest(ns.drop_last()) + flat_node(ns.last())
    }
}

/// What a token contributes to the walk: an opening tag its name, a text,
/// comment, CDATA or processing instruction its leaf, any other token nothing.
pub open spec fn token_item(t: TokenModel) -> Seq<Item> {
    match t.kind {
        KindModel::TagOpen(tag) => seq![Item::Open(tag)],
        KindModel::Text(x) => seq![Item::Leaf(NodeModel::Text(x))],
        KindModel::Comment(x) => seq![Item::Leaf(NodeModel::Comment(x))],
        KindModel::CData(x) => seq![Item::Leaf(NodeModel::CData(x))],
        KindModel::ProcessingInstruction(x, y) => seq![
            Item::Leaf(NodeModel::ProcessingInstruction { target: x, content: y }),
        ],
        _ => Seq::empty(),
    }
}

/// The contributions of the tokens, in order.
pub open spec fn token_items(ts: Seq<TokenModel>) -> Seq<Item>
    decreases ts.len(),
{
    if ts.len() == 0 {
        Seq::empty()
    } else {
        token_item(ts[0]) + token_items(ts.drop_first())
    }
}

/// The names still open after the tokens from `i` on, starting from `tags`
/// (an opening tag not closed by `/>` pushes, a closing tag pops).
pub open spec fn open_tags_after(toks: Seq<TokenModel>, i: int, tags: Seq<Seq<char>>) -> Seq<
    Seq<char>,
>
    decreases toks.len() - i,
{
    if i < 0 || i >= toks.len() {
        tags
    } else {
        match toks[i].kind {
            KindModel::TagOpen(tag) => {
                let g = gather_attrs(toks, i + 1, Map::empty());
                proof {
                    lemma_gather_attrs_bounds(toks, i + 1, Map::empty());
                }
                if g.2 {
                    open_tags_after(toks, g.1, tags)
                } else {
                    open_tags_after(toks, g.1, tags.push(tag))
                }
            },
            KindModel::TagClose(_) => if tags.len() > 0 {
                open_tags_after(toks, i + 1, tags.drop_last())
            } else {
                open_tags_after(toks, i + 1, tags)
            },
            _ => open_tags_after(toks, i + 1, tags),
        }
    }
}

/// The walk of the open elements: each one's tag and the children read so far.
pub open spec fn frames_items(stack: Seq<FrameModel>) -> Seq<Item>
    decreases stack.len(),
{
    if stack.len() == 0 {
        Seq::empty()
    } else {
        frames_items(stack.drop_last()) + seq![Item::Open(stack.last().tag)] + flat_forest(
            stack.last().children,
        )
    }
}

proof fn lemma_attach_items(stack: Seq<FrameModel>, root: Seq<NodeModel>, n: NodeModel)
    ensures
        flat_forest(attach(stack, root, n).1) + frames_items(attach(stack, root, n).0)
            == flat_forest(root) + frames_items(stack) + flat_node(n),
{
    let a = attach(stack, root, n);
    if stack.len() == 0 {
        assert(root.push(n).drop_last() =~= root);
        assert(flat_forest(a.1) + frames_items(a.0) =~= flat_forest(root) + frames_items(stack)
            + flat_node(n));
    } else {
        let top = stack.last();
        let f = FrameModel { tag: top.tag, attrs: top.attrs, children: top.children.push(n) };
        assert(a.0.drop_last() =~= stack.drop_last());
        assert(top.children.push(n).drop_last() =~= top.children);
        assert(flat_forest(a.1) + frames_items(a.0) =~= flat_forest(root) + frames_items(stack)
            + flat_node(n));
    }
}

proof fn lemma_token_items_step(toks: Seq<TokenModel>, i: int)
    requires
        0 <= i < toks.len(),
    ensures
        token_items(toks.subrange(i, toks.len() as int)) == token_item(toks[i]) + token_items(
            toks.subrange(i + 1, toks.len() as int),
        ),
{
    assert(toks.subrange(i, toks.len() as int).drop_first() =~= toks.subrange(
        i + 1,
        toks.len() as int,
    ));
}

proof fn lemma_gather_items(toks: Seq<TokenModel>, i: int, attrs: Map<Seq<char>, Seq<char>>)
    requires
        0 <= i <= toks.len(),
    ensures
        token_items(toks.subrange(i, toks.len() as int)) == token_items(
            toks.subrange(gather_attrs(toks, i, attrs).1, toks.len() as int),
        ),
    decreases toks.len() - i,
{
    if i < toks.len() {
        match toks[i].kind {
            KindModel::Attribute(k, v) => {
                lemma_token_items_step(toks, i);
                lemma_gather_items(toks, i + 1, attrs.insert(k, v));
                assert(token_item(toks[i]) =~= Seq::<Item>::empty());
                assert(Seq::<Item>::empty() + token_items(toks.subrange(i + 1, toks.len() as int))
                    =~= token_items(toks.subrange(i + 1, toks.len() as int)));
            },
            KindModel::TagEnd => {
                lemma_token_items_step(toks, i);
                assert(Seq::<Item>::empty() + token_items(toks.subrange(i + 1, toks.len() as int))
                    =~= token_items(toks.subrange(i + 1, toks.len() as int)));
            },
            KindModel::SelfClosingEnd => {
                lemma_token_items_step(toks, i);
                assert(Seq::<Item>::empty() + token_items(toks.subrange(i + 1, toks.len() as int))
                    =~= token_items(toks.subrange(i + 1, toks.len() as int)));
            },
            _ => {},
        }
    }
}

proof fn lemma_build_from_items(
    toks: Seq<TokenModel>,
    i: int,
    stack: Seq<FrameModel>,
    root: Seq<NodeModel>,
)
    requires
        0 <= i <= toks.len(),
    ensures
        open_tags_after(toks, i, frame_tags(stack)).len() == 0 ==> (build_from(
            toks,
            i,
            stack,
            root,
        ) matches Ok(ns) ==> flat_forest(ns) == flat_forest(root) + frames_items(stack)
            + token_items(toks.subrange(i, toks.len() as int))),
    decreases toks.len() - i,
{
    let rest_items = token_items(toks.subrange(i, toks.len() as int));
    if i == toks.len() {
        assert(toks.subrange(i, toks.len() as int) =~= Seq::<TokenModel>::empty());
        if frame_tags(stack).len() == 0 {
            assert(stack.len() == 0);
            assert(flat_forest(root) + frames_items(stack) + rest_items =~= flat_forest(root));
        }
    } else {
        lemma_token_items_step(toks, i);
        let after = token_items(toks.subrange(i + 1, toks.len() as int));
        let t = toks[i];
        match t.kind {
            KindModel::TagOpen(tag) => {
                let g = gather_attrs(toks, i + 1, Map::empty());
                lemma_gather_attrs_bounds(toks, i + 1, Map::empty());
                lemma_gather_items(toks, i + 1, Map::empty());
                let later = token_items(toks.subrange(g.1, toks.len() as int));
                if g.2 {
                    let n = NodeModel::Element { tag, attributes: g.0, children: Seq::empty() };
                    let x = attach(stack, root, n);
                    lemma_attach_tags(stack, root, n);
                    lemma_attach_items(stack, root, n);
                    lemma_build_from_items(toks, g.1, x.0, x.1);
                    assert(flat_node(n) =~= seq![Item::Open(tag)]);
                    assert(flat_forest(root) + frames_items(stack) + flat_node(n) + later
                        =~= flat_forest(root) + frames_items(stack) + rest_items);
                } else {
                    let st = stack.push(FrameModel { tag, attrs: g.0, children: Seq::empty() });
                    assert(frame_tags(st) =~= frame_tags(stack).push(tag));
                    assert(st.drop_last() =~= stack);
                    lemma_build_from_items(toks, g.1, st, root);
                    assert(frames_items(st) =~= frames_items(stack) + seq![Item::Open(tag)]);
                    assert(flat_forest(root) + frames_items(st) + later =~= flat_forest(root)
                        + frames_items(stack) + rest_items);
                }
            },
            KindModel::TagClose(tag) => {
                if stack.len() > 0 && stack.last().tag == tag {
                    let f = stack.last();
                    let n = NodeModel::Element {
                        tag: f.tag,
                        attributes: f.attrs,
                        children: f.children,
                    };
                    let x = attach(stack.drop_last(), root, n);
                    lemma_attach_tags(stack.drop_last(), root, n);
                    lemma_attach_items(stack.drop_last(), root, n);
                    assert(frame_tags(stack.drop_last()) =~= frame_tags(stack).drop_last());
                    lemma_build_from_items(toks, i + 1, x.0, x.1);
                    assert(token_item(t) =~= Seq::<Item>::empty());
                    assert(flat_forest(root) + frames_items(stack.drop_last()) + flat_node(n)
                        + after =~= flat_forest(root) + frames_items(stack) + rest_items);
                }
            },
            KindModel::Text(c) => {
                let n = NodeModel::Text(c);
                lemma_attach_tags(stack, root, n);
                lemma_attach_items(stack, root, n);
                lemma_build_from_items(toks, i + 1, attach(stack, root, n).0, attach(stack, root, n).1);
                assert(flat_forest(root) + frames_items(stack) + flat_node(n) + after
                    =~= flat_forest(root) + frames_items(stack) + rest_items);
            },
            KindModel::Comment(c) => {
                let n = NodeModel::Comment(c);
                lemma_attach_tags(stack, root, n);
                lemma_attach_items(stack, root, n);
                lemma_build_from_items(toks, i + 1, attach(stack, root, n).0, attach(stack, root, n).1);
                assert(flat_forest(root) + frames_items(stack) + flat_node(n) + after
                    =~= flat_forest(root) + frames_items(stack) + rest_items);
            },
            KindModel::CData(c) => {
                let n = NodeModel::CData(c);
                lemma_attach_tags(stack, root, n);
                lemma_attach_items(stack, root, n);
                lemma_build_from_items(toks, i + 1, attach(stack, root, n).0, attach(stack, root, n).1);
                assert(flat_forest(root) + frames_items(stack) + flat_node(n) + after
                    =~= flat_forest(root) + frames_items(stack) + rest_items);
            },
            KindModel::ProcessingInstruction(a, b) => {
                let n = NodeModel::ProcessingInstruction { target: a, content: b };
                lemma_attach_tags(stack, root, n);
                lemma_attach_items(stack, root, n);
                lemma_build_from_items(toks, i + 1, attach(stack, root, n).0, attach(stack, root, n).1);
                assert(flat_forest(root) + frames_items(stack) + flat_node(n) + after
                    =~= flat_forest(root) + frames_items(stack) + rest_items);
            },
            _ => {
                lemma_build_from_items(toks, i + 1, stack, root);
                assert(token_item(t) =~= Seq::<Item>::empty());
                assert(flat_forest(root) + frames_items(stack) + after =~= flat_forest(root)
                    + frames_items(stack) + rest_items);
            },
        }
    }
}

/// When `parse` succeeds and every element it opens is closed, the forest
/// keeps the order of the tokens: its pre-order walk lists the opening tags'
/// names and the text, comment, CDATA and processing-instruction tokens
/// exactly as they come in the tokens.
pub proof fn law_build_keeps_order(toks: Seq<TokenModel>)
    requires
        build(toks) is Ok,
        open_tags_after(toks, 0, Seq::empty()).len() == 0,
    ensures
        flat_forest(build(toks)->Ok_0) == token_items(toks),
{
    assert(frame_tags(Seq::<FrameModel>::empty()) =~= Seq::<Seq<char>>::empty());
    lemma_build_from_items(toks, 0, Seq::empty(), Seq::empty());
    assert(toks.subrange(0, toks.len() as int) =~= toks);
    assert(flat_forest(Seq::empty()) + frames_items(Seq::empty()) + token_items(toks)
        =~= token_items(toks));
}

/// The name an attribute token sets (empty for any other token).
pub open spec fn attr_name(t: TokenModel) -> Seq<char> {
    match t.kind {
        KindModel::Attribute(k, _) => k,
        _ => Seq::empty(),
    }
}

/// The value an attribute token sets (empty for any other token).
pub open spec fn attr_value(t: TokenModel) -> Seq<char> {
    match t.kind {
        KindModel::Attribute(_, v) => v,
        _ => Seq::empty(),
    }
}

/// No token after `a` and before `j` sets the name that token `a` sets.
pub open spec fn last_for_name(toks: Seq<TokenModel>, a: int, j: int) -> bool {
    forall|b: int| a < b < j ==> attr_name(#[trigger] toks[b]) != attr_name(toks[a])
}

proof fn lemma_run_keeps(
    toks: Seq<TokenModel>,
    i: int,
    j: int,
    m: Map<Seq<char>, Seq<char>>,
    k: Seq<char>,
)
    requires
        0 <= i <= j < toks.len(),
        forall|a: int| i <= a < j ==> #[trigger] toks[a].kind is Attribute,
        toks[j].kind is TagEnd || toks[j].kind is SelfClosingEnd,
        m.contains_key(k),
        forall|a: int| i <= a < j ==> attr_name(#[trigger] toks[a]) != k,
    ensures
        gather_attrs(toks, i, m).0.contains_key(k),
        gather_attrs(toks, i, m).0[k] == m[k],
    decreases j - i,
{
    if i < j {
        assert(toks[i].kind is Attribute);
        assert(attr_name(toks[i]) != k);
        let m1 = m.insert(attr_name(toks[i]), attr_value(toks[i]));
        assert(gather_attrs(toks, i, m) == gather_attrs(toks, i + 1, m1));
        lemma_run_keeps(toks, i + 1, j, m1, k);
    }
}

proof fn lemma_attribute_run(toks: Seq<TokenModel>, i: int, j: int, m: Map<Seq<char>, Seq<char>>)
    requires
        0 <= i <= j < toks.len(),
        forall|a: int| i <= a < j ==> #[trigger] toks[a].kind is Attribute,
        toks[j].kind is TagEnd || toks[j].kind is SelfClosingEnd,
    ensures
        gather_attrs(toks, i, m).1 == j + 1,
        gather_attrs(toks, i, m).2 == toks[j].kind is SelfClosingEnd,
        forall|a: int|
            i <= a < j && #[trigger] last_for_name(toks, a, j) ==> gather_attrs(
                toks,
                i,
                m,
            ).0.contains_key(attr_name(toks[a])) && gather_attrs(toks, i, m).0[attr_name(toks[a])]
                == attr_value(toks[a]),
        forall|k: Seq<char>|
            #[trigger] gather_attrs(toks, i, m).0.contains_key(k) ==> m.contains_key(k) || exists|
                a: int,
            | i <= a < j && attr_name(#[trigger] toks[a]) == k,
    decreases j - i,
{
    if i < j {
        assert(toks[i].kind is Attribute);
        let k0 = attr_name(toks[i]);
        let v0 = attr_value(toks[i]);
        let m1 = m.insert(k0, v0);
        assert(gather_attrs(toks, i, m) == gather_attrs(toks, i + 1, m1));
        lemma_attribute_run(toks, i + 1, j, m1);
        let r = gather_attrs(toks, i, m).0;
        assert forall|a: int| i <= a < j && #[trigger] last_for_name(toks, a, j) implies r.contains_key(
            attr_name(toks[a]),
        ) && r[attr_name(toks[a])] == attr_value(toks[a]) by {
            if a == i {
                assert forall|b: int| i + 1 <= b < j implies attr_name(#[trigger] toks[b]) != k0 by {
                    assert(attr_name(toks[b]) != attr_name(toks[a]));
                }
                lemma_run_keeps(toks, i + 1, j, m1, k0);
            } else {
                assert(last_for_name(toks, a, j));
            }
        }
        assert forall|k: Seq<char>| #[trigger] r.contains_key(k) implies m.contains_key(k) || exists|
            a: int,
        | i <= a < j && attr_name(#[trigger] toks[a]) == k by {
            if !m.contains_key(k) && k == k0 {
                assert(attr_name(toks[i]) == k);
            }
        }
    } else {
        assert(gather_attrs(toks, i, m).0 == m);
    }
}

/// The attributes between an opening tag and the end of the tag: an element
/// gets each name that one of them sets, with the value of the last one that
/// sets it, and no other name; the run is read up to and including the end
/// of the tag, which tells whether the element closes itself.
pub proof fn law_attribute_run(toks: Seq<TokenModel>, i: int, j: int)
    requires
        0 <= i <= j < toks.len(),
        forall|a: int| i <= a < j ==> #[trigger] toks[a].kind is Attribute,
        toks[j].kind is TagEnd || toks[j].kind is SelfClosingEnd,
    ensures
        gather_attrs(toks, i, Map::empty()).1 == j + 1,
        gather_attrs(toks, i, Map::empty()).2 == toks[j].kind is SelfClosingEnd,
        forall|a: int|
            i <= a < j && #[trigger] last_for_name(toks, a, j) ==> gather_attrs(
                toks,
                i,
                Map::empty(),
            ).0.contains_key(attr_name(toks[a])) && gather_attrs(toks, i, Map::empty()).0[attr_name(
                toks[a],
            )] == attr_value(toks[a]),
        forall|k: Seq<char>|
            #[trigger] gather_attrs(toks, i, Map::empty()).0.contains_key(k) ==> exists|a: int|
                i <= a < j && attr_name(#[trigger] toks[a]) == k,
{
    lemma_attribute_run(toks, i, j, Map::empty());
}

} // verus!
