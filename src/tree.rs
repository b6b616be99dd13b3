//! The document tree and its mathematical model.
use vstd::prelude::*;

verus! {

/// The value of a document tree, as contracts speak of it.
pub enum Tree {
    Root(Seq<Tree>),
    Element(Seq<char>, Seq<Tree>),
    Attribute(Seq<char>, Seq<char>),
    Literal(Seq<char>),
    MacroCall(Seq<char>, Seq<Tree>),
    Consumed(Seq<char>),
    Wrapper(Seq<Tree>),
    Null,
}

/// A node of a document tree.
#[derive(Debug, PartialEq, Eq)]
pub enum Node {
    /// The document container.
    Root(Vec<Node>),
    /// A named container.
    Element(String, Vec<Node>),
    /// A key/value pair attached to its enclosing element.
    Attribute(String, String),
    /// Raw text.
    Literal(String),
    /// An unresolved macro invocation with its argument trees.
    MacroCall(String, Vec<Node>),
    /// The trace that a definition leaves behind; it renders as nothing.
    Consumed(String),
    /// A transient container whose children belong to its parent.
    Wrapper(Vec<Node>),
    /// The empty result.
    Null,
}

impl View for Node {
    type V = Tree;

    open spec fn view(&self) -> Tree
        decreases self,
    {
        match self {
            Node::Root(c) => Tree::Root(
                Seq::new(c@.len(), |i: int| if 0 <= i < c@.len() { c@[i].view() } else { Tree::Null }),
            ),
            Node::Element(n, c) => Tree::Element(
                n@,
                Seq::new(c@.len(), |i: int| if 0 <= i < c@.len() { c@[i].view() } else { Tree::Null }),
            ),
            Node::Attribute(k, v) => Tree::Attribute(k@, v@),
            Node::Literal(s) => Tree::Literal(s@),
            Node::MacroCall(n, a) => Tree::MacroCall(
                n@,
                Seq::new(a@.len(), |i: int| if 0 <= i < a@.len() { a@[i].view() } else { Tree::Null }),
            ),
            Node::Consumed(s) => Tree::Consumed(s@),
            Node::Wrapper(c) => Tree::Wrapper(
                Seq::new(c@.len(), |i: int| if 0 <= i < c@.len() { c@[i].view() } else { Tree::Null }),
            ),
            Node::Null => Tree::Null,
        }
    }
}

/// The values of a sequence of nodes.
pub open spec fn trees(s: Seq<Node>) -> Seq<Tree> {
    s.map_values(|n: Node| n@)
}

/// The value of a node, one level deep, in terms of `trees`.
pub open spec fn shallow_view(n: Node) -> Tree {
    match n {
        Node::Root(c) => Tree::Root(trees(c@)),
        Node::Element(name, c) => Tree::Element(name@, trees(c@)),
        Node::Attribute(k, v) => Tree::Attribute(k@, v@),
        Node::Literal(s) => Tree::Literal(s@),
        Node::MacroCall(name, a) => Tree::MacroCall(name@, trees(a@)),
        Node::Consumed(s) => Tree::Consumed(s@),
        Node::Wrapper(c) => Tree::Wrapper(trees(c@)),
        Node::Null => Tree::Null,
    }
}

/// A node's value is built from the values of its children.
pub broadcast proof fn lemma_view_shallow(n: Node)
    ensures
        #[trigger] n@ == shallow_view(n),
{
    match n {
        Node::Root(c) => assert(n@->Root_0 =~= trees(c@)),
        Node::Element(_, c) => assert(n@->Element_1 =~= trees(c@)),
        Node::MacroCall(_, a) => assert(n@->MacroCall_1 =~= trees(a@)),
        Node::Wrapper(c) => assert(n@->Wrapper_0 =~= trees(c@)),
        _ => {},
    }
}

impl Node {
    /// A deep copy of this node.
    pub fn duplicate(&self) -> (r: Node)
        ensures
            r@ == self@,
        decreases self,
    {
        proof {
            broadcast use lemma_view_shallow;
        }
        match self {
            Node::Root(c) => Node::Root(duplicate_all(c)),
            Node::Element(n, c) => Node::Element(n.clone(), duplicate_all(c)),
            Node::Attribute(k, v) => Node::Attribute(k.clone(), v.clone()),
            Node::Literal(s) => Node::Literal(s.clone()),
            Node::MacroCall(n, a) => Node::MacroCall(n.clone(), duplicate_all(a)),
            Node::Consumed(s) => Node::Consumed(s.clone()),
            Node::Wrapper(c) => Node::Wrapper(duplicate_all(c)),
            Node::Null => Node::Null,
        }
    }

    /// A literal holding `content`.
    pub fn new_literal(content: &str) -> (r: Node)
        ensures
            r@ == Tree::Literal(content@),
    {
        Node::Literal(content.to_string())
    }

    /// An attribute with the given key and value.
    pub fn new_attribute(key: &str, value: &str) -> (r: Node)
        ensures
            r@ == Tree::Attribute(key@, value@),
    {
        Node::Attribute(key.to_string(), value.to_string())
    }
}

/// Deep copies of the nodes of `v`, in order.
pub fn duplicate_all(v: &Vec<Node>) -> (r: Vec<Node>)
    ensures
        trees(r@) == trees(v@),
    decreases v,
{
    let mut r: Vec<Node> = Vec::new();
    let mut i: usize = 0;
    while i < v.len()
        invariant
            i <= v@.len(),
            r@.len() == i,
            forall|j: int| 0 <= j < i ==> (#[trigger] r@[j])@ == v@[j]@,
        decreases v@.len() - i,
    {
        proof {
            assert(decreases_to!(v => v@[i as int]));
        }
        r.push(v[i].duplicate());
        i += 1;
    }
    assert(trees(r@) =~= trees(v@));
    r
}

impl Clone for Node {
    fn clone(&self) -> (r: Node)
        ensures
            r@ == self@,
    {
        self.duplicate()
    }
}

} // verus!
