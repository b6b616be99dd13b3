//! Splicing: the pass that dissolves `Wrapper` nodes into their parents.
use vstd::prelude::*;
use crate::tree::{Node, Tree, trees, lemma_view_shallow};

verus! {

broadcast use lemma_view_shallow;

/// `t` with the wrapper children of every container spliced into it.
pub open spec fn simplified(t: Tree) -> Tree
    decreases t,
{
    match t {
        Tree::Root(c) => Tree::Root(spliced(c)),
        Tree::Element(n, c) => Tree::Element(n, spliced(c)),
        Tree::Wrapper(c) => Tree::Wrapper(spliced(c)),
        _ => t,
    }
}

/// A child sequence in which each wrapper gives way to its own spliced
/// children and each other child is simplified, order kept.
pub open spec fn spliced(s: Seq<Tree>) -> Seq<Tree>
    decreases s,
{
    if s.len() == 0 {
        Seq::empty()
    } else {
        spliced(s.drop_last()) + match s.last() {
            Tree::Wrapper(g) => spliced(g),
            t => seq![simplified(t)],
        }
    }
}

/// No container in `t` has a wrapper among its children.
pub open spec fn is_flat(t: Tree) -> bool
    decreases t,
{
    match t {
        Tree::Root(c) => flat_seq(c),
        Tree::Element(_, c) => flat_seq(c),
        Tree::Wrapper(c) => flat_seq(c),
        _ => true,
    }
}

/// Every tree of `s` is flat and none is a wrapper.
pub open spec fn flat_seq(s: Seq<Tree>) -> bool
    decreases s,
{
    forall|i: int| 0 <= i < s.len() ==> !(#[trigger] s[i] is Wrapper) && is_flat(s[i])
}

proof fn lemma_simplified_flat(t: Tree)
    ensures
        is_flat(simplified(t)),
    decreases t,
{
    match t {
        Tree::Root(c) => lemma_spliced_flat(c),
        Tree::Element(_, c) => lemma_spliced_flat(c),
        Tree::Wrapper(c) => lemma_spliced_flat(c),
        _ => {},
    }
}

proof fn lemma_spliced_flat(s: Seq<Tree>)
    ensures
        flat_seq(spliced(s)),
    decreases s,
{
    if s.len() > 0 {
        lemma_spliced_flat(s.drop_last());
        let a = spliced(s.drop_last());
        let b = match s.last() {
            Tree::Wrapper(g) => {
                lemma_spliced_flat(g);
                spliced(g)
            },
            t => {
                lemma_simplified_flat(t);
                seq![simplified(t)]
            },
        };
        assert(spliced(s) == a + b);
        assert forall|i: int| 0 <= i < (a + b).len() implies !(#[trigger] (a + b)[i] is Wrapper)
            && is_flat((a + b)[i]) by {
            if i >= a.len() {
                assert((a + b)[i] == b[i - a.len()]);
            }
        }
    }
}

proof fn lemma_flat_fixed(t: Tree)
    requires
        is_flat(t),
    ensures
        simplified(t) == t,
    decreases t,
{
    match t {
        Tree::Root(c) => lemma_flat_seq_fixed(c),
        Tree::Element(_, c) => lemma_flat_seq_fixed(c),
        Tree::Wrapper(c) => lemma_flat_seq_fixed(c),
        _ => {},
    }
}

proof fn lemma_flat_seq_fixed(s: Seq<Tree>)
    requires
        flat_seq(s),
    ensures
        spliced(s) == s,
    decreases s,
{
    if s.len() > 0 {
        let p = s.drop_last();
        assert(flat_seq(p)) by {
            assert forall|i: int| 0 <= i < p.len() implies !(#[trigger] p[i] is Wrapper)
                && is_flat(p[i]) by {
                assert(p[i] == s[i]);
            }
        }
        lemma_flat_seq_fixed(p);
        assert(s[s.len() - 1] == s.last());
        lemma_flat_fixed(s.last());
        assert(s =~= p.push(s.last()));
        assert(spliced(s) =~= s);
    }
}

/// Simplifying twice gives the same tree as simplifying once.
pub proof fn simplify_idempotent(t: Tree)
    ensures
        simplified(simplified(t)) == simplified(t),
{
    lemma_simplified_flat(t);
    lemma_flat_fixed(simplified(t));
}

/// Splices every wrapper below `node` into its parent container.
pub fn simplify(node: &mut Node)
    ensures
        final(node)@ == simplified(old(node)@),
        is_flat(final(node)@),
    decreases old(node)@,
{
    match node {
        Node::Root(c) => splice_children(c),
        Node::Element(_, c) => splice_children(c),
        Node::Wrapper(c) => splice_children(c),
        _ => {},
    }
    proof {
        lemma_simplified_flat(old(node)@);
    }
}

/// Rebuilds `c` with each wrapper replaced by its spliced children.
fn splice_children(c: &mut Vec<Node>)
    ensures
        trees(final(c)@) == spliced(trees(old(c)@)),
    decreases trees(old(c)@),
{
    let mut v: Vec<Node> = Vec::new();
    std::mem::swap(&mut v, c);
    let ghost s = trees(v@);
    let mut r: Vec<Node> = Vec::new();
    let mut i: usize = 0;
    while i < v.len()
        invariant
            i <= v@.len(),
            v@.len() == s.len(),
            s == trees(old(c)@),
            forall|j: int| i <= j < v@.len() ==> (#[trigger] v@[j])@ == s[j],
            trees(r@) == spliced(s.take(i as int)),
        decreases v@.len() - i,
    {
        let mut n = Node::Null;
        std::mem::swap(&mut n, &mut v[i]);
        proof {
            assert(n@ == s[i as int]);
            assert(decreases_to!(s => s[i as int]));
            assert(s.take(i + 1).drop_last() =~= s.take(i as int));
        }
        let ghost t = n@;
        match n {
            Node::Wrapper(g) => {
                let mut g = g;
                proof {
                    assert(t->Wrapper_0 == trees(g@));
                    assert(decreases_to!(t => t->Wrapper_0));
                }
                splice_children(&mut g);
                let ghost prev = r@;
                let ghost added = g@;
                r.append(&mut g);
                assert(trees(r@) =~= trees(prev) + trees(added));
            },
            other => {
                let mut o = other;
                simplify(&mut o);
                let ghost prev = r@;
                r.push(o);
                assert(trees(r@) =~= trees(prev).push(o@));
            },
        }
        i += 1;
    }
    assert(s.take(v@.len() as int) =~= s);
    *c = r;
}

} // verus!
