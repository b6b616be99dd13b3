use llml::parser::{sanitize, ParsePair, Rule};
use llml::tree::Node;

fn pair(rule: Rule, text: &str, inner: Vec<ParsePair>) -> ParsePair {
    ParsePair { rule, text: text.to_string(), inner }
}

#[test]
fn element_span_becomes_element() {
    let span = pair(
        Rule::Element,
        "div.note[k=v] 'hi'",
        vec![
            pair(Rule::ElementName, "div", vec![]),
            pair(Rule::ElementClass, ".note", vec![]),
            pair(Rule::Attribute, "k=v", vec![pair(Rule::Other, "k", vec![]), pair(Rule::Other, "v", vec![])]),
            pair(Rule::Element, "b", vec![pair(Rule::ElementName, "b", vec![])]),
            pair(Rule::Literal, "hi", vec![]),
        ],
    );
    assert_eq!(
        Node::from_element_rule(&span),
        Node::Element(
            "div".to_string(),
            vec![
                Node::Attribute("class".to_string(), "note".to_string()),
                Node::Attribute("k".to_string(), "v".to_string()),
                Node::Element("b".to_string(), vec![]),
                Node::Literal("hi".to_string()),
            ]
        )
    );
}

#[test]
fn class_span_loses_its_dots() {
    let span = pair(Rule::ElementClass, ".a.b", vec![]);
    assert_eq!(
        Node::from_element_class_rule(&span),
        Node::Attribute("class".to_string(), "ab".to_string())
    );
}

#[test]
fn file_span_skips_unnamed_elements() {
    let file = pair(
        Rule::File,
        "",
        vec![
            pair(Rule::Element, "p", vec![pair(Rule::ElementName, "p", vec![])]),
            pair(Rule::Other, "", vec![]),
            pair(Rule::Element, "q", vec![pair(Rule::ElementName, "q", vec![]), pair(Rule::Literal, "t", vec![])]),
        ],
    );
    assert_eq!(
        Node::from_parsed_file(&file),
        Node::Root(vec![
            Node::Element("p".to_string(), vec![]),
            Node::Element("q".to_string(), vec![Node::Literal("t".to_string())]),
        ])
    );
}

#[test]
fn literal_and_attribute_constructors() {
    assert_eq!(Node::new_literal("x"), Node::Literal("x".to_string()));
    assert_eq!(Node::new_attribute("a", "b"), Node::Attribute("a".to_string(), "b".to_string()));
    assert_eq!(Node::from_literal_rule(&pair(Rule::Literal, "lit", vec![])), Node::Literal("lit".to_string()));
}

#[test]
fn sanitize_strips_indentation() {
    assert_eq!(sanitize("div\n    p\n\t\tq\nr"), "div\np\nq\nr");
    assert_eq!(sanitize("no indentation"), "no indentation");
}
