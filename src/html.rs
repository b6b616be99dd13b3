//! Rendering a document tree as HTML.
use vstd::prelude::*;
use crate::tree::{Node, Tree, trees, lemma_view_shallow};
use crate::eval::position;

verus! {

broadcast use lemma_view_shallow;

/// An HTML tag's value.
pub struct TagView {
    pub name: Seq<char>,
    /// Attributes in the order in which their keys first came.
    pub attributes: Seq<(Seq<char>, Seq<char>)>,
    pub content: Seq<char>,
}

/// The index of the last attribute of `s` keyed `k`, or -1.
pub open spec fn key_index(s: Seq<(Seq<char>, Seq<char>)>, k: Seq<char>) -> int
    decreases s.len(),
{
    if s.len() == 0 {
        -1
    } else if s.last().0 == k {
        s.len() - 1
    } else {
        key_index(s.drop_last(), k)
    }
}

/// `s` with `k` set to `v`: in place where `k` is present, else at the end.
pub open spec fn with_attribute(s: Seq<(Seq<char>, Seq<char>)>, k: Seq<char>, v: Seq<char>) -> Seq<
    (Seq<char>, Seq<char>),
> {
    let i = key_index(s, k);
    if i < 0 {
        s.push((k, v))
    } else {
        s.update(i, (k, v))
    }
}

/// ` key="value"` for each attribute, in order.
pub open spec fn attributes_text(s: Seq<(Seq<char>, Seq<char>)>) -> Seq<char>
    decreases s.len(),
{
    if s.len() == 0 {
        Seq::empty()
    } else {
        attributes_text(s.drop_last()) + " "@ + s.last().0 + "=\""@ + s.last().1 + "\""@
    }
}

/// The text of a tag: opening tag with attributes, content, closing tag.
pub open spec fn tag_text(t: TagView) -> Seq<char> {
    "<"@ + t.name + attributes_text(t.attributes) + ">"@ + t.content + "</"@ + t.name + ">"@
}

/// The attributes and content that a child sequence gives its tag, or
/// `None` where a child has no place in a tag.
pub open spec fn filled(ch: Seq<Tree>) -> Option<(Seq<(Seq<char>, Seq<char>)>, Seq<char>)>
    decreases ch,
{
    if ch.len() == 0 {
        Some((Seq::empty(), Seq::empty()))
    } else {
        match filled(ch.drop_last()) {
            None => None,
            Some((a, text)) => match ch.last() {
                Tree::Element(_, _) => match html_of(ch.last()) {
                    Some(h) => Some((a, text + h)),
                    None => None,
                },
                Tree::Attribute(k, v) => Some((with_attribute(a, k, v), text)),
                Tree::Literal(l) => Some((a, text + l)),
                Tree::MacroCall(_, _) => Some((a, text + "MACRO_CALL"@)),
                Tree::Consumed(_) => Some((a, text)),
                Tree::Null => Some((a, text)),
                _ => None,
            },
        }
    }
}

/// The HTML of a tree: a root is an `html` tag, an element a tag of its
/// name, `Null` nothing; `None` where the tree has no HTML form.
pub open spec fn html_of(t: Tree) -> Option<Seq<char>>
    decreases t,
{
    match t {
        Tree::Root(ch) => match filled(ch) {
            Some((a, text)) => Some(tag_text(TagView { name: "html"@, attributes: a, content: text })),
            None => None,
        },
        Tree::Element(n, ch) => match filled(ch) {
            Some((a, text)) => Some(tag_text(TagView { name: n, attributes: a, content: text })),
            None => None,
        },
        Tree::Null => Some(Seq::empty()),
        _ => None,
    }
}

/// Once a prefix cannot be rendered, neither can the whole sequence.
proof fn lemma_filled_stops(s: Seq<Tree>, k: int)
    requires
        0 <= k <= s.len(),
        filled(s.take(k)) is None,
    ensures
        filled(s) is None,
    decreases s.len(),
{
    if k == s.len() {
        assert(s.take(k) =~= s);
    } else {
        assert(s.drop_last().take(k) =~= s.take(k));
        lemma_filled_stops(s.drop_last(), k);
    }
}

/// An HTML tag under construction.
pub struct Tag {
    name: String,
    attributes: Vec<(String, String)>,
    content: String,
}

impl View for Tag {
    type V = TagView;

    closed spec fn view(&self) -> TagView {
        TagView {
            name: self.name@,
            attributes: self.attributes@.map_values(|a: (String, String)| (a.0@, a.1@)),
            content: self.content@,
        }
    }
}

/// The position that `position` finds is `key_index`.
proof fn lemma_key_index(s: Seq<(Seq<char>, Seq<char>)>, k: Seq<char>, i: int)
    requires
        -1 <= i < s.len(),
        i >= 0 ==> s[i].0 == k,
        forall|j: int| i < j < s.len() ==> (#[trigger] s[j]).0 != k,
    ensures
        key_index(s, k) == i,
    decreases s.len(),
{
    if s.len() > 0 && i < s.len() - 1 {
        assert forall|j: int| i < j < s.drop_last().len() implies (#[trigger] s.drop_last()[j]).0 != k by {
            assert(s.drop_last()[j] == s[j]);
        }
        if i >= 0 {
            assert(s.drop_last()[i] == s[i]);
        }
        lemma_key_index(s.drop_last(), k, i);
    }
}

impl Tag {
    /// An empty tag named `null`.
    pub fn new() -> (r: Tag)
        ensures
            r@ == (TagView { name: "null"@, attributes: Seq::empty(), content: Seq::empty() }),
    {
        let r = Tag { name: "null".to_string(), attributes: Vec::new(), content: String::new() };
        assert(r@.attributes =~= Seq::empty());
        r
    }

    /// Sets the tag's name.
    pub fn set_name(&mut self, name: &str)
        ensures
            final(self)@ == (TagView { name: name@, ..old(self)@ }),
    {
        self.name = name.to_string();
    }

    /// Sets the attribute `key` to `value`.
    pub fn add_attribute(&mut self, key: &str, value: &str)
        ensures
            final(self)@ == (TagView {
                attributes: with_attribute(old(self)@.attributes, key@, value@),
                ..old(self)@
            }),
    {
        let k = key.to_string();
        let ghost s = self@.attributes;
        let found = position(&self.attributes, &k);
        let entry = (k, value.to_string());
        match found {
            Some(i) => {
                proof {
                    assert forall|j: int| i < j < s.len() implies (#[trigger] s[j]).0 != key@ by {
                        assert(s[j].0 == self.attributes@[j].0@);
                    }
                    lemma_key_index(s, key@, i as int);
                }
                self.attributes[i] = entry;
            },
            None => {
                proof {
                    assert forall|j: int| -1 < j < s.len() implies (#[trigger] s[j]).0 != key@ by {
                        assert(s[j].0 == self.attributes@[j].0@);
                    }
                    lemma_key_index(s, key@, -1);
                }
                self.attributes.push(entry);
            },
        }
        assert(self@.attributes =~= with_attribute(s, key@, value@));
    }

    /// Appends text to the tag's content.
    pub fn append_content(&mut self, text: &str)
        ensures
            final(self)@ == (TagView { content: old(self)@.content + text@, ..old(self)@ }),
    {
        self.content.append(text);
    }

    /// The tag as HTML text.
    pub fn render(&self) -> (r: String)
        ensures
            r@ == tag_text(self@),
    {
        let mut out = "<".to_string();
        out.append(self.name.as_str());
        let ghost s = self@.attributes;
        let mut i: usize = 0;
        assert(s.take(0) =~= Seq::empty());
        while i < self.attributes.len()
            invariant
                i <= self.attributes@.len(),
                s == self@.attributes,
                out@ == "<"@ + self@.name + attributes_text(s.take(i as int)),
            decreases self.attributes@.len() - i,
        {
            proof {
                assert(s.take(i + 1).drop_last() =~= s.take(i as int));
                assert(s[i as int] == (self.attributes@[i as int].0@, self.attributes@[i as int].1@));
            }
            out.append(" ");
            out.append(self.attributes[i].0.as_str());
            out.append("=\"");
            out.append(self.attributes[i].1.as_str());
            out.append("\"");
            i += 1;
        }
        assert(s.take(i as int) =~= s);
        out.append(">");
        out.append(self.content.as_str());
        out.append("</");
        out.append(self.name.as_str());
        out.append(">");
        out
    }
}

/// Renders a tree as HTML: the root as an `html` tag, an element as a tag
/// of its name with its attributes, text and sub-elements.
pub fn serialize_node(node: Node) -> (r: Result<String, String>)
    ensures
        match html_of(node@) {
            Some(h) => r matches Ok(s) && s@ == h,
            None => r is Err,
        },
{
    render_node(&node)
}

/// The HTML of `node` (see `serialize_node`).
fn render_node(node: &Node) -> (r: Result<String, String>)
    ensures
        match html_of(node@) {
            Some(h) => r matches Ok(s) && s@ == h,
            None => r is Err,
        },
    decreases node@,
{
    let ghost t = node@;
    let mut tag = Tag::new();
    let children = match node {
        Node::Root(r) => {
            tag.set_name("html");
            r
        },
        Node::Element(n, c) => {
            tag.set_name(n.as_str());
            c
        },
        Node::Null => {
            return Ok(String::new());
        },
        _ => {
            return Err("only a root, an element or a null node can be rendered".to_string());
        },
    };
    let ghost s = trees(children@);
    proof {
        assert(s.take(0) =~= Seq::empty());
        assert(s.take(0).len() == 0);
    }
    let mut i: usize = 0;
    while i < children.len()
        invariant
            i <= children@.len(),
            s == trees(children@),
            t == node@,
            t is Root ==> s == t->Root_0 && tag@.name == "html"@,
            t is Element ==> s == t->Element_1 && tag@.name == t->Element_0,
            t is Root || t is Element,
            filled(s.take(i as int)) == Some((tag@.attributes, tag@.content)),
        decreases children@.len() - i,
    {
        proof {
            assert(s.take(i + 1).drop_last() =~= s.take(i as int));
            assert(s.take(i + 1).last() == s[i as int]);
            assert(decreases_to!(t => s[i as int]));
        }
        let child = &children[i];
        match child {
            Node::Element(_, _) => match render_node(child) {
                Ok(h) => tag.append_content(h.as_str()),
                Err(e) => {
                    proof {
                        lemma_filled_stops(s, i + 1);
                    }
                    return Err(e);
                },
            },
            Node::Attribute(k, v) => tag.add_attribute(k.as_str(), v.as_str()),
            Node::Literal(l) => tag.append_content(l.as_str()),
            Node::MacroCall(_, _) => tag.append_content("MACRO_CALL"),
            Node::Consumed(_) => {},
            Node::Null => {},
            _ => {
                proof {
                    lemma_filled_stops(s, i + 1);
                }
                return Err("a root or a wrapper cannot stand inside a tag".to_string());
            },
        }
        i += 1;
    }
    proof {
        assert(s.take(i as int) =~= s);
    }
    Ok(tag.render())
}

} // verus!
