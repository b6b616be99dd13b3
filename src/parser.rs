//! From the parser's output to a document tree.
use vstd::prelude::*;
use crate::tree::{Node, Tree, trees, lemma_view_shallow};

verus! {

broadcast use lemma_view_shallow;

/// Whether `regex::Regex::new` accepts `pattern`.
pub uninterp spec fn regex_compiles(pattern: Seq<char>) -> bool;

/// What `regex::Regex::replace_all` makes of `text`: each non-overlapping
/// match of `pattern` replaced by `with`, in which `$name` references to
/// capture groups are expanded.
pub uninterp spec fn regex_replaced(pattern: Seq<char>, text: Seq<char>, with: Seq<char>) -> Seq<char>;

/// Relies on regex::Regex::new, which fails only on a pattern that is
/// invalid or too large, and on Regex::replace_all, which depends on the
/// pattern, the text and the replacement alone.
#[verifier::external_body]
fn replace_all_matches(pattern: &str, text: &str, with: &str) -> (r: Option<String>)
    ensures
        r is Some == regex_compiles(pattern@),
        r matches Some(s) ==> s@ == regex_replaced(pattern@, text@, with@),
{
    match regex::Regex::new(pattern) {
        Ok(re) => Some(re.replace_all(text, with).into_owned()),
        Err(_) => None,
    }
}

/// Cleans up input before parsing: a line break followed by whitespace
/// becomes a bare line break, which removes indentation.
pub fn sanitize(content: &str) -> (r: String)
    ensures
        regex_compiles("\\n\\s+"@) ==> r@ == regex_replaced("\\n\\s+"@, content@, "\n"@),
        !regex_compiles("\\n\\s+"@) ==> r@ == content@,
{
    match replace_all_matches("\\n\\s+", content, "\n") {
        Some(s) => s,
        None => content.to_string(),
    }
}

/// The grammar rule that a parsed span matched.
#[derive(Clone, Copy, Debug, PartialEq, Eq, Structural)]
pub enum Rule {
    File,
    Element,
    ElementName,
    ElementClass,
    Attribute,
    Literal,
    /// Any other rule of the grammar.
    Other,
}

/// A span of the input as the parser matched it, with the spans inside it.
#[derive(Debug)]
pub struct ParsePair {
    pub rule: Rule,
    pub text: String,
    pub inner: Vec<ParsePair>,
}

/// The value of a `ParsePair`.
pub struct PairView {
    pub rule: Rule,
    pub text: Seq<char>,
    pub inner: Seq<PairView>,
}

impl View for ParsePair {
    type V = PairView;

    open spec fn view(&self) -> PairView
        decreases self,
    {
        PairView {
            rule: self.rule,
            text: self.text@,
            inner: Seq::new(
                self.inner@.len(),
                |i: int|
                    if 0 <= i < self.inner@.len() {
                        self.inner@[i].view()
                    } else {
                        PairView { rule: Rule::Other, text: Seq::empty(), inner: Seq::empty() }
                    },
            ),
        }
    }
}

/// The values of a sequence of pairs.
pub open spec fn pair_views(s: Seq<ParsePair>) -> Seq<PairView> {
    s.map_values(|p: ParsePair| p@)
}

/// A pair's inner value is built from the values of its inner pairs.
pub broadcast proof fn lemma_pair_view_inner(p: ParsePair)
    ensures
        #[trigger] p@.inner == pair_views(p.inner@),
{
    assert(p@.inner =~= pair_views(p.inner@));
}

/// A rule that may stand directly inside an element.
pub open spec fn element_part(r: Rule) -> bool {
    r == Rule::ElementName || r == Rule::ElementClass || r == Rule::Attribute || r == Rule::Element
        || r == Rule::Literal
}

/// Each part of the element `p`, and of the elements within it, is one that
/// an element may hold, and each attribute has a key and a value.
pub open spec fn element_well_formed(p: PairView) -> bool
    decreases p,
{
    parts_well_formed(p.inner)
}

/// See `element_well_formed`.
pub open spec fn parts_well_formed(s: Seq<PairView>) -> bool
    decreases s,
{
    forall|i: int|
        0 <= i < s.len() ==> element_part(#[trigger] s[i].rule) && (s[i].rule == Rule::Attribute
            ==> s[i].inner.len() >= 2) && (s[i].rule == Rule::Element ==> element_well_formed(s[i]))
}

/// `s` without its dots.
pub open spec fn strip_dots(s: Seq<char>) -> Seq<char>
    decreases s.len(),
{
    if s.len() == 0 {
        Seq::empty()
    } else if s.last() == '.' {
        strip_dots(s.drop_last())
    } else {
        strip_dots(s.drop_last()).push(s.last())
    }
}

/// An element's name: the text of its last name part, or empty.
pub open spec fn name_of(s: Seq<PairView>) -> Seq<char>
    decreases s.len(),
{
    if s.len() == 0 {
        Seq::empty()
    } else if s.last().rule == Rule::ElementName {
        s.last().text
    } else {
        name_of(s.drop_last())
    }
}

/// The tree of one part of an element.
pub open spec fn part_tree(q: PairView) -> Tree
    decreases q,
{
    match q.rule {
        Rule::ElementClass => Tree::Attribute("class"@, strip_dots(q.text)),
        Rule::Attribute => Tree::Attribute(q.inner[0].text, q.inner[1].text),
        Rule::Element => Tree::Element(name_of(q.inner), parts_trees(q.inner)),
        _ => Tree::Literal(q.text),
    }
}

/// The children of an element: a tree for each part but its name.
pub open spec fn parts_trees(s: Seq<PairView>) -> Seq<Tree>
    decreases s,
{
    if s.len() == 0 {
        Seq::empty()
    } else if s.last().rule == Rule::ElementName {
        parts_trees(s.drop_last())
    } else {
        parts_trees(s.drop_last()).push(part_tree(s.last()))
    }
}

/// The tree of an element.
pub open spec fn element_tree(p: PairView) -> Tree {
    Tree::Element(name_of(p.inner), parts_trees(p.inner))
}

/// The top-level elements of a file, leaving out those without a name.
pub open spec fn file_children(s: Seq<PairView>) -> Seq<Tree>
    decreases s.len(),
{
    if s.len() == 0 {
        Seq::empty()
    } else if name_of(s.last().inner).len() == 0 {
        file_children(s.drop_last())
    } else {
        file_children(s.drop_last()).push(element_tree(s.last()))
    }
}

impl ParsePair {
    /// Whether this span is a well-formed element (see `element_well_formed`).
    pub fn is_well_formed_element(&self) -> (r: bool)
        ensures
            r == element_well_formed(self@),
        decreases self@,
    {
        proof {
            broadcast use lemma_pair_view_inner;
        }
        let ghost s = self@.inner;
        let mut i: usize = 0;
        while i < self.inner.len()
            invariant
                s == self@.inner,
                s == pair_views(self.inner@),
                i <= s.len(),
                forall|j: int|
                    0 <= j < i ==> element_part(#[trigger] s[j].rule) && (s[j].rule == Rule::Attribute
                        ==> s[j].inner.len() >= 2) && (s[j].rule == Rule::Element ==> element_well_formed(
                        s[j],
                    )),
            decreases s.len() - i,
        {
            let p = &self.inner[i];
            proof {
                assert(s[i as int] == p@);
                assert(decreases_to!(self@ => self@.inner));
                assert(decreases_to!(self@.inner => s[i as int]));
            }
            let ok = match p.rule {
                Rule::ElementName => true,
                Rule::ElementClass => true,
                Rule::Literal => true,
                Rule::Attribute => p.inner.len() >= 2,
                Rule::Element => p.is_well_formed_element(),
                _ => false,
            };
            if !ok {
                proof {
                    assert(element_well_formed(self@) == parts_well_formed(s));
                    assert(!(element_part(s[i as int].rule) && (s[i as int].rule == Rule::Attribute
                        ==> s[i as int].inner.len() >= 2) && (s[i as int].rule == Rule::Element
                        ==> element_well_formed(s[i as int]))));
                }
                return false;
            }
            i += 1;
        }
        proof {
            assert(element_well_formed(self@) == parts_well_formed(s));
        }
        true
    }
}

/// `s` without its dots.
fn without_dots(s: &str) -> (r: String)
    ensures
        r@ == strip_dots(s@),
{
    let n = s.unicode_len();
    let mut r = String::new();
    let mut i: usize = 0;
    assert(s@.take(0) =~= Seq::<char>::empty());
    while i < n
        invariant
            n == s@.len(),
            i <= n,
            r@ == strip_dots(s@.take(i as int)),
        decreases n - i,
    {
        let c = s.get_char(i);
        proof {
            assert(s@.take(i + 1).drop_last() =~= s@.take(i as int));
            assert(s@.take(i + 1).last() == c);
        }
        let ghost prev = r@;
        if c != '.' {
            let one = s.substring_char(i, i + 1);
            assert(one@ =~= seq![c]);
            r.append(one);
            assert(r@ =~= prev.push(c));
        }

        i += 1;
    }
    assert(s@.take(n as int) =~= s@);
    r
}

impl Node {
    /// A literal from a literal span.
    pub fn from_literal_rule(pair: &ParsePair) -> (r: Node)
        ensures
            r@ == Tree::Literal(pair@.text),
    {
        Self::new_literal(pair.text.as_str())
    }

    /// An attribute from an attribute span: its first inner span is the key,
    /// its second the value.
    pub fn from_attribute_rule(pair: &ParsePair) -> (r: Node)
        requires
            pair@.inner.len() >= 2,
        ensures
            r@ == Tree::Attribute(pair@.inner[0].text, pair@.inner[1].text),
    {
        proof {
            broadcast use lemma_pair_view_inner;
        }
        Self::new_attribute(pair.inner[0].text.as_str(), pair.inner[1].text.as_str())
    }

    /// A `class` attribute from a class span, its dots removed.
    pub fn from_element_class_rule(pair: &ParsePair) -> (r: Node)
        ensures
            r@ == Tree::Attribute("class"@, strip_dots(pair@.text)),
    {
        let name = without_dots(pair.text.as_str());
        Self::new_attribute("class", name.as_str())
    }

    /// An element from an element span: named by its name part, with a child
    /// for each other part, in order.
    pub fn from_element_rule(pair: &ParsePair) -> (r: Node)
        requires
            element_well_formed(pair@),
        ensures
            r@ == element_tree(pair@),
        decreases pair@,
    {
        proof {
            broadcast use lemma_pair_view_inner;
        }
        let ghost s = pair@.inner;
        let mut name = String::new();
        let mut children: Vec<Node> = Vec::new();
        let mut i: usize = 0;
        assert(s.take(0) =~= Seq::<PairView>::empty());
        assert(trees(children@) =~= Seq::<Tree>::empty());
        while i < pair.inner.len()
            invariant
                s == pair@.inner,
                s == pair_views(pair.inner@),
                parts_well_formed(s),
                i <= s.len(),
                name@ == name_of(s.take(i as int)),
                trees(children@) == parts_trees(s.take(i as int)),
            decreases s.len() - i,
        {
            let p = &pair.inner[i];
            proof {
                assert(s.take(i + 1).drop_last() =~= s.take(i as int));
                assert(s.take(i + 1).last() == s[i as int]);
                assert(s[i as int] == p@);
                assert(decreases_to!(pair@ => pair@.inner));
                assert(decreases_to!(pair@.inner => s[i as int]));
            }
            let ghost before = children@;
            match p.rule {
                Rule::ElementName => {
                    name = p.text.clone();
                },
                Rule::ElementClass => {
                    children.push(Self::from_element_class_rule(p));
                },
                Rule::Attribute => {
                    children.push(Self::from_attribute_rule(p));
                },
                Rule::Element => {
                    children.push(Self::from_element_rule(p));
                },
                Rule::Literal => {
                    children.push(Self::from_literal_rule(p));
                },
                _ => {},
            }
            proof {
                if p.rule != Rule::ElementName {
                    assert(trees(children@) =~= trees(before).push(part_tree(s[i as int])));
                }
            }
            i += 1;
        }
        assert(s.take(i as int) =~= s);
        Node::Element(name, children)
    }

    /// The document tree of a file span: a root holding an element for each
    /// of its inner spans that has a name.
    pub fn from_parsed_file(pair: &ParsePair) -> (r: Node)
        requires
            pair@.rule == Rule::File,
            forall|i: int| 0 <= i < pair@.inner.len() ==> element_well_formed(#[trigger] pair@.inner[i]),
        ensures
            r@ == Tree::Root(file_children(pair@.inner)),
    {
        proof {
            broadcast use lemma_pair_view_inner;
        }
        let ghost s = pair@.inner;
        let mut children: Vec<Node> = Vec::new();
        let mut i: usize = 0;
        assert(s.take(0) =~= Seq::<PairView>::empty());
        assert(trees(children@) =~= Seq::<Tree>::empty());
        while i < pair.inner.len()
            invariant
                s == pair@.inner,
                s == pair_views(pair.inner@),
                forall|j: int| 0 <= j < s.len() ==> element_well_formed(#[trigger] s[j]),
                i <= s.len(),
                trees(children@) == file_children(s.take(i as int)),
            decreases s.len() - i,
        {
            let p = &pair.inner[i];
            proof {
                assert(s.take(i + 1).drop_last() =~= s.take(i as int));
                assert(s.take(i + 1).last() == s[i as int]);
                assert(s[i as int] == p@);
            }
            let e = Self::from_element_rule(p);
            let named = match &e {
                Node::Element(n, _) => n.as_str().unicode_len() > 0,
                _ => false,
            };
            if named {
                let ghost before = children@;
                children.push(e);
                assert(trees(children@) =~= trees(before).push(element_tree(s[i as int])));
            }
            i += 1;
        }
        assert(s.take(i as int) =~= s);
        Node::Root(children)
    }
}

} // verus!
