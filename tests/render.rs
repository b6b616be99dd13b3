use llml::html::{serialize_node, Tag};
use llml::tree::Node;

fn lit(s: &str) -> Node {
    Node::Literal(s.to_string())
}

fn attr(k: &str, v: &str) -> Node {
    Node::Attribute(k.to_string(), v.to_string())
}

#[test]
fn renders_root_elements_and_attributes() {
    let tree = Node::Root(vec![Node::Element(
        "div".to_string(),
        vec![
            attr("class", "a"),
            lit("hi"),
            Node::Element("b".to_string(), vec![lit("x")]),
            Node::Null,
            Node::Consumed("k".to_string()),
            attr("id", "main"),
        ],
    )]);
    assert_eq!(
        serialize_node(tree),
        Ok("<html><div class=\"a\" id=\"main\">hi<b>x</b></div></html>".to_string())
    );
}

#[test]
fn later_attribute_replaces_earlier_in_place() {
    let tree = Node::Element("a".to_string(), vec![attr("href", "x"), attr("id", "i"), attr("href", "y")]);
    assert_eq!(serialize_node(tree), Ok("<a href=\"y\" id=\"i\"></a>".to_string()));
}

#[test]
fn unresolved_macro_call_is_marked() {
    let tree = Node::Element("p".to_string(), vec![Node::MacroCall("m".to_string(), vec![])]);
    assert_eq!(serialize_node(tree), Ok("<p>MACRO_CALL</p>".to_string()));
}

#[test]
fn null_renders_empty() {
    assert_eq!(serialize_node(Node::Null), Ok(String::new()));
    assert_eq!(serialize_node(Node::Root(vec![])), Ok("<html></html>".to_string()));
}

#[test]
fn nodes_without_html_form_are_errors() {
    assert!(serialize_node(lit("loose")).is_err());
    assert!(serialize_node(Node::Root(vec![Node::Wrapper(vec![lit("w")])])).is_err());
    assert!(serialize_node(Node::Element("d".to_string(), vec![Node::Root(vec![])])).is_err());
    let deep = Node::Root(vec![Node::Element("d".to_string(), vec![Node::Wrapper(vec![])])]);
    assert!(serialize_node(deep).is_err());
}

#[test]
fn tag_builds_its_text() {
    let mut tag = Tag::new();
    assert_eq!(tag.render(), "<null></null>");
    tag.set_name("span");
    tag.add_attribute("k", "v");
    tag.append_content("one");
    tag.append_content(" two");
    tag.add_attribute("k", "w");
    assert_eq!(tag.render(), "<span k=\"w\">one two</span>");
}
