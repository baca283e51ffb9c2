//! The document tree and the queries over it.
use vstd::prelude::*;
use crate::attributes::Attributes;
use crate::text::{str_eq, push_str};

verus! {

/// A node of a document.
#[derive(Debug, PartialEq)]
pub enum Node {
    Element { tag: String, attributes: Attributes, children: Vec<Node> },
    Text(String),
    Comment(String),
    CData(String),
    ProcessingInstruction { target: String, content: String },
}

/// The model of a `Node`: strings as character sequences, attributes as a map.
pub enum NodeModel {
    Element {
        tag: Seq<char>,
        attributes: Map<Seq<char>, Seq<char>>,
        children: Seq<NodeModel>,
    },
    Text(Seq<char>),
    Comment(Seq<char>),
    CData(Seq<char>),
    ProcessingInstruction { target: Seq<char>, content: Seq<char> },
}

/// The model of a node.
pub open spec fn node_model(n: Node) -> NodeModel
    decreases n, 0nat,
{
    match n {
        Node::Element { tag, attributes, children } => NodeModel::Element {
            tag: tag@,
            attributes: attributes@,
            children: forest_model(children@),
        },
        Node::Text(t) => NodeModel::Text(t@),
        Node::Comment(c) => NodeModel::Comment(c@),
        Node::CData(c) => NodeModel::CData(c@),
        Node::ProcessingInstruction { target, content } => NodeModel::ProcessingInstruction {
            target: target@,
            content: content@,
        },
    }
}

/// The models of a sequence of nodes.
pub open spec fn forest_model(ns: Seq<Node>) -> Seq<NodeModel>
    decreases ns, 1nat,
{
    if ns.len() == 0 {
        Seq::empty()
    } else {
        forest_model(ns.drop_last()).push(node_model(ns.last()))
    }
}

/// The text of a node: text and CDATA as they are, an element's children's
/// text joined in order, nothing for comments and processing instructions.
pub open spec fn text_of(n: Node) -> Seq<char>
    decreases n, 0nat,
{
    match n {
        Node::Text(t) => t@,
        Node::CData(c) => c@,
        Node::Element { children, .. } => texts_of(children@),
        _ => Seq::empty(),
    }
}

/// The text of a sequence of nodes, joined in order.
pub open spec fn texts_of(ns: Seq<Node>) -> Seq<char>
    decreases ns, 1nat,
{
    if ns.len() == 0 {
        Seq::empty()
    } else {
        texts_of(ns.drop_last()) + text_of(ns.last())
    }
}

/// The elements of the tree under `n` (`n` included) whose tag is `t`, in
/// document order (each element before its descendants).
pub open spec fn found_in(n: Node, t: Seq<char>) -> Seq<Node>
    decreases n, 0nat,
{
    match n {
        Node::Element { tag, children, .. } => (if tag@ == t {
            seq![n]
        } else {
            Seq::empty()
        }) + found_in_all(children@, t),
        _ => Seq::empty(),
    }
}

/// `found_in` over a sequence of nodes, in order.
pub open spec fn found_in_all(ns: Seq<Node>, t: Seq<char>) -> Seq<Node>
    decreases ns, 1nat,
{
    if ns.len() == 0 {
        Seq::empty()
    } else {
        found_in_all(ns.drop_last(), t) + found_in(ns.last(), t)
    }
}

/// A copy of `n`, its subtree included.
#[verifier::loop_isolation(false)]
fn copy_node(n: &Node) -> (r: Node)
    ensures
        node_model(r) == node_model(*n),
    decreases n,
{
    match n {
        Node::Element { tag, attributes, children } => {
            let mut copies: Vec<Node> = Vec::new();
            let mut i: usize = 0;
            while i < children.len()
                invariant
                    i <= children.len(),
                    forest_model(copies@) == forest_model(children@.take(i as int)),
                decreases children.len() - i,
            {
                proof {
                    assert(decreases_to!(*n => children@[i as int]));
                }
                let c = copy_node(&children[i]);
                let ghost prev = copies@;
                copies.push(c);
                assert(copies@.drop_last() =~= prev);
                assert(children@.take(i + 1).drop_last() =~= children@.take(i as int));
                i += 1;
            }
            assert(children@.take(children.len() as int) =~= children@);
            Node::Element { tag: tag.clone(), attributes: attributes.clone(), children: copies }
        },
        Node::Text(t) => Node::Text(t.clone()),
        Node::Comment(c) => Node::Comment(c.clone()),
        Node::CData(c) => Node::CData(c.clone()),
        Node::ProcessingInstruction { target, content } => Node::ProcessingInstruction {
            target: target.clone(),
            content: content.clone(),
        },
    }
}

impl Clone for Node {
    /// A copy of this node and its subtree.
    fn clone(&self) -> (r: Self)
        ensures
            node_model(r) == node_model(*self),
    {
        copy_node(self)
    }
}

impl Node {
    /// All elements of this subtree whose tag is `target_tag`, this node first
    /// if it matches, then each child's matches in order.
    #[verifier::loop_isolation(false)]
    pub fn find_by_tag<'a>(&'a self, target_tag: &str) -> (r: Vec<&'a Node>)
        ensures
            r@.map_values(|x: &Node| *x) == found_in(*self, target_tag@),
        decreases self,
    {
        let mut results: Vec<&'a Node> = Vec::new();
        match self {
            Node::Element { tag, children, .. } => {
                if str_eq(tag.as_str(), target_tag) {
                    results.push(self);
                }
                let ghost head = results@.map_values(|x: &Node| *x);
                assert(head =~= (if tag@ == target_tag@ {
                    seq![*self]
                } else {
                    Seq::empty()
                }));
                let mut i: usize = 0;
                while i < children.len()
                    invariant
                        i <= children.len(),
                        results@.map_values(|x: &Node| *x) == head + found_in_all(
                            children@.take(i as int),
                            target_tag@,
                        ),
                    decreases children.len() - i,
                {
                    proof {
                        assert(decreases_to!(*self => children@[i as int]));
                    }
                    let mut sub = children[i].find_by_tag(target_tag);
                    let ghost prev = results@;
                    results.append(&mut sub);
                    proof {
                        assert(children@.take(i + 1).drop_last() =~= children@.take(i as int));
                        assert(results@.map_values(|x: &Node| *x) =~= prev.map_values(
                            |x: &Node| *x,
                        ) + found_in(children@[i as int], target_tag@));
                    }
                    i += 1;
                }
                assert(children@.take(children.len() as int) =~= children@);
            },
            _ => {
                assert(results@.map_values(|x: &Node| *x) =~= Seq::<Node>::empty());
            },
        }
        results
    }

    /// The text of this subtree: text and CDATA as they are, an element's
    /// children's text joined in order, nothing for comments and processing
    /// instructions.
    #[verifier::loop_isolation(false)]
    pub fn text_content(&self) -> (r: String)
        ensures
            r@ == text_of(*self),
        decreases self,
    {
        match self {
            Node::Text(t) => t.clone(),
            Node::CData(c) => c.clone(),
            Node::Element { children, .. } => {
                let mut out = String::new();
                let mut i: usize = 0;
                while i < children.len()
                    invariant
                        i <= children.len(),
                        out@ == texts_of(children@.take(i as int)),
                    decreases children.len() - i,
                {
                    proof {
                        assert(decreases_to!(*self => children@[i as int]));
                    }
                    let s = children[i].text_content();
                    push_str(&mut out, s.as_str());
                    assert(children@.take(i + 1).drop_last() =~= children@.take(i as int));
                    i += 1;
                }
                assert(children@.take(children.len() as int) =~= children@);
                out
            },
            _ => String::new(),
        }
    }
}

/// Whether every node of `ns` is an element whose tag is `t`.
pub open spec fn all_tagged(ns: Seq<Node>, t: Seq<char>) -> bool {
    forall|i: int|
        0 <= i < ns.len() ==> (#[trigger] ns[i] matches Node::Element { tag, .. } && tag@ == t)
}

proof fn lemma_all_tagged_concat(a: Seq<Node>, b: Seq<Node>, t: Seq<char>)
    requires
        all_tagged(a, t),
        all_tagged(b, t),
    ensures
        all_tagged(a + b, t),
{
    assert forall|i: int| 0 <= i < (a + b).len() implies (#[trigger] (a + b)[i] matches Node::Element {
        tag,
        ..
    } && tag@ == t) by {
        if i < a.len() {
            assert((a + b)[i] == a[i]);
        } else {
            assert((a + b)[i] == b[i - a.len()]);
        }
    }
}

proof fn lemma_found_in_tagged(n: Node, t: Seq<char>)
    ensures
        all_tagged(found_in(n, t), t),
    decreases n, 0nat,
{
    if let Node::Element { tag, children, .. } = n {
        lemma_found_in_all_tagged(children@, t);
        let head = if tag@ == t {
            seq![n]
        } else {
            Seq::empty()
        };
        lemma_all_tagged_concat(head, found_in_all(children@, t), t);
    }
}

proof fn lemma_found_in_all_tagged(ns: Seq<Node>, t: Seq<char>)
    ensures
        all_tagged(found_in_all(ns, t), t),
    decreases ns, 1nat,
{
    if ns.len() > 0 {
        lemma_found_in_all_tagged(ns.drop_last(), t);
        lemma_found_in_tagged(ns.last(), t);
        lemma_all_tagged_concat(found_in_all(ns.drop_last(), t), found_in(ns.last(), t), t);
    }
}

/// What `find_by_tag` finds are elements, each with the tag looked for;
/// and an element with that tag comes first in what is found under it.
pub proof fn law_found_are_matching_elements(n: Node, t: Seq<char>)
    ensures
        all_tagged(found_in(n, t), t),
        (n matches Node::Element { tag, .. } && tag@ == t) ==> found_in(n, t).len() > 0
            && found_in(n, t)[0] == n,
{
    lemma_found_in_tagged(n, t);
}

/// Every node of the tree under `n`: `n` itself, then the trees of its
/// children (if it is an element), one after the other.
pub open spec fn subtree(n: Node) -> Seq<Node>
    decreases n, 0nat,
{
    match n {
        Node::Element { children, .. } => seq![n] + subtrees(children@),
        _ => seq![n],
    }
}

/// The trees of `ns`, one after the other.
pub open spec fn subtrees(ns: Seq<Node>) -> Seq<Node>
    decreases ns, 1nat,
{
    if ns.len() == 0 {
        Seq::empty()
    } else {
        subtrees(ns.drop_last()) + subtree(ns.last())
    }
}

/// Whether `m` is an element whose tag is `t`.
pub open spec fn has_tag(m: Node, t: Seq<char>) -> bool {
    m matches Node::Element { tag, .. } && tag@ == t
}

/// The test `has_tag(_, t)`.
pub open spec fn tagged(t: Seq<char>) -> spec_fn(Node) -> bool {
    |m: Node| has_tag(m, t)
}

/// The characters a single node holds as text: those of a text or CDATA
/// node, none for any other node.
pub open spec fn own_text(m: Node) -> Seq<char> {
    match m {
        Node::Text(x) => x@,
        Node::CData(x) => x@,
        _ => Seq::empty(),
    }
}

proof fn lemma_singleton_filter(n: Node, f: spec_fn(Node) -> bool)
    ensures
        seq![n].filter(f) == (if f(n) {
            seq![n]
        } else {
            Seq::empty()
        }),
{
    reveal(Seq::filter);
    assert(seq![n].drop_last() =~= Seq::<Node>::empty());
    assert(Seq::<Node>::empty().filter(f) =~= Seq::<Node>::empty());
    assert(Seq::<Node>::empty().push(n) =~= seq![n]);
}

proof fn lemma_found_is_filter(n: Node, t: Seq<char>)
    ensures
        found_in(n, t) == subtree(n).filter(tagged(t)),
    decreases n, 0nat,
{
    lemma_singleton_filter(n, tagged(t));
    match n {
        Node::Element { tag, children, .. } => {
            lemma_found_all_is_filter(children@, t);
            Seq::filter_distributes_over_add(seq![n], subtrees(children@), tagged(t));
        },
        _ => {},
    }
}

proof fn lemma_found_all_is_filter(ns: Seq<Node>, t: Seq<char>)
    ensures
        found_in_all(ns, t) == subtrees(ns).filter(tagged(t)),
    decreases ns, 1nat,
{
    if ns.len() == 0 {
        reveal(Seq::filter);
        assert(subtrees(ns) =~= Seq::<Node>::empty());
    } else {
        lemma_found_all_is_filter(ns.drop_last(), t);
        lemma_found_is_filter(ns.last(), t);
        Seq::filter_distributes_over_add(subtrees(ns.drop_last()), subtree(ns.last()), tagged(t));
    }
}

/// `find_by_tag` finds exactly the elements of the tree whose tag is the one
/// looked for, all of them, each once, in document order (an element before
/// its descendants, and a child's tree before its next sibling's).
pub proof fn law_found_are_all_matching_elements(n: Node, t: Seq<char>)
    ensures
        found_in(n, t) == subtree(n).filter(tagged(t)),
        found_in(n, t).len() == subtree(n).filter(tagged(t)).len(),
{
    lemma_found_is_filter(n, t);
}

proof fn lemma_text_is_joined(n: Node)
    ensures
        text_of(n) == subtree(n).map_values(|m: Node| own_text(m)).flatten(),
    decreases n, 0nat,
{
    let f = |m: Node| own_text(m);
    match n {
        Node::Element { children, .. } => {
            lemma_texts_are_joined(children@);
            let a = seq![n];
            let b = subtrees(children@);
            assert((a + b).map_values(f) =~= a.map_values(f) + b.map_values(f));
            vstd::seq_lib::lemma_flatten_concat(a.map_values(f), b.map_values(f));
            assert(a.map_values(f) =~= seq![Seq::<char>::empty()]);
            seq![Seq::<char>::empty()].lemma_flatten_one_element();
            assert(Seq::<char>::empty() + b.map_values(f).flatten() =~= b.map_values(f).flatten());
        },
        _ => {
            assert(seq![n].map_values(f) =~= seq![own_text(n)]);
            seq![own_text(n)].lemma_flatten_one_element();
        },
    }
}

proof fn lemma_texts_are_joined(ns: Seq<Node>)
    ensures
        texts_of(ns) == subtrees(ns).map_values(|m: Node| own_text(m)).flatten(),
    decreases ns, 1nat,
{
    let f = |m: Node| own_text(m);
    if ns.len() == 0 {
        assert(subtrees(ns).map_values(f) =~= Seq::<Seq<char>>::empty());
        assert(Seq::<Seq<char>>::empty().flatten() =~= Seq::<char>::empty());
    } else {
        lemma_texts_are_joined(ns.drop_last());
        lemma_text_is_joined(ns.last());
        let a = subtrees(ns.drop_last());
        let b = subtree(ns.last());
        assert((a + b).map_values(f) =~= a.map_values(f) + b.map_values(f));
        vstd::seq_lib::lemma_flatten_concat(a.map_values(f), b.map_values(f));
    }
}

/// The text of a tree is the text of every text and CDATA node in it,
/// exactly as it stands (white space included), joined in document order;
/// comments, processing instructions and the elements themselves add nothing.
pub proof fn law_text_is_all_text_in_order(n: Node)
    ensures
        text_of(n) == subtree(n).map_values(|m: Node| own_text(m)).flatten(),
        n matches Node::Text(x) ==> text_of(n) == x@,
        n matches Node::CData(x) ==> text_of(n) == x@,
{
    lemma_text_is_joined(n);
}

} // verus!
