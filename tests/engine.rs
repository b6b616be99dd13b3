use llml::eval::{Context, EvalError};
use llml::simplify::simplify;
use llml::tree::Node;

fn lit(s: &str) -> Node {
    Node::Literal(s.to_string())
}

fn call(name: &str, args: Vec<Node>) -> Node {
    Node::MacroCall(name.to_string(), args)
}

fn element(name: &str, children: Vec<Node>) -> Node {
    Node::Element(name.to_string(), children)
}

fn context() -> Context {
    let mut c = Context::new();
    c.register_defaults();
    c
}

#[test]
fn def_then_sub_in_element() {
    let mut tree = Node::Root(vec![
        call("def", vec![lit("title"), lit("Hi")]),
        element("h1", vec![call("sub", vec![lit("title")])]),
    ]);
    let mut c = context();
    assert_eq!(c.eval(&mut tree), Ok(()));
    assert_eq!(
        tree,
        Node::Root(vec![
            Node::Consumed("title".to_string()),
            element("h1", vec![lit("Hi")]),
        ])
    );
}

#[test]
fn greet_macro_splices_into_element() {
    let template = Node::Wrapper(vec![lit("Hello, "), call("arg", vec![lit("1")])]);
    let mut tree = Node::Root(vec![
        call("defmacro", vec![lit("greet"), lit("_"), template]),
        element("p", vec![call("greet", vec![lit("World")])]),
    ]);
    let mut c = context();
    assert_eq!(c.eval(&mut tree), Ok(()));
    assert_eq!(
        tree,
        Node::Root(vec![
            Node::Consumed("defmacro/greet".to_string()),
            element("p", vec![lit("Hello, "), lit("World")]),
        ])
    );
}

#[test]
fn greet_macro_through_expand() {
    let template = Node::Wrapper(vec![lit("Hello, "), call("arg", vec![lit("1")])]);
    let mut tree = Node::Root(vec![
        call("defmacro", vec![lit("greet"), Node::Null, template]),
        element("p", vec![call("greet", vec![lit("World")])]),
    ]);
    let mut c = context();
    assert_eq!(c.expand(&mut tree), Ok(()));
    assert_eq!(
        tree,
        Node::Root(vec![
            Node::Consumed("defmacro/greet".to_string()),
            element("p", vec![lit("Hello, "), lit("World")]),
        ])
    );
}

#[test]
fn undefined_macro_fails_whole_evaluation() {
    let mut tree = Node::Root(vec![
        call("def", vec![lit("x"), lit("1")]),
        element("div", vec![call("sub", vec![lit("x")]), element("span", vec![call("foo", vec![])])]),
        call("def", vec![lit("y"), lit("2")]),
    ]);
    let mut c = context();
    assert_eq!(c.eval(&mut tree), Err(EvalError::UndefinedMacro("foo".to_string())));
    // evaluation stopped at the failure: the later definition never ran
    assert!(c.get_var(&"y".to_string()).is_none());
}

#[test]
fn eval_leaves_macro_free_tree_alone() {
    let before = Node::Root(vec![
        element("div", vec![Node::Attribute("id".to_string(), "a".to_string()), lit("text")]),
        Node::Wrapper(vec![lit("w")]),
        Node::Consumed("k".to_string()),
        Node::Null,
    ]);
    let mut tree = before.clone();
    let mut c = context();
    assert_eq!(c.eval(&mut tree), Ok(()));
    assert_eq!(tree, before);
}

#[test]
fn simplify_twice_equals_once() {
    let mut tree = Node::Root(vec![
        lit("a"),
        Node::Wrapper(vec![lit("b"), Node::Wrapper(vec![lit("c"), Node::Wrapper(vec![])]), lit("d")]),
        element("e", vec![Node::Wrapper(vec![lit("f")])]),
    ]);
    simplify(&mut tree);
    let once = tree.clone();
    simplify(&mut tree);
    assert_eq!(tree, once);
    assert_eq!(
        once,
        Node::Root(vec![lit("a"), lit("b"), lit("c"), lit("d"), element("e", vec![lit("f")])])
    );
}

#[test]
fn sub_evaluates_stored_value() {
    let value = element("b", vec![call("sub", vec![lit("other")])]);
    let mut tree = Node::Root(vec![
        call("def", vec![lit("other"), lit("o")]),
        call("def", vec![lit("k"), value]),
        call("sub", vec![lit("k")]),
    ]);
    let mut c = context();
    assert_eq!(c.eval(&mut tree), Ok(()));
    assert_eq!(
        tree,
        Node::Root(vec![
            Node::Consumed("other".to_string()),
            Node::Consumed("k".to_string()),
            element("b", vec![lit("o")]),
        ])
    );
}

#[test]
fn sub_of_value_calling_undefined_macro_fails() {
    let mut tree = Node::Root(vec![
        call("def", vec![lit("k"), call("zz", vec![])]),
        element("p", vec![call("sub", vec![lit("k")])]),
    ]);
    let mut c = context();
    assert_eq!(c.eval(&mut tree), Err(EvalError::UndefinedMacro("zz".to_string())));
}

#[test]
fn sub_of_wrapper_value_is_spliced() {
    let mut tree = Node::Root(vec![
        call("def", vec![lit("k"), Node::Wrapper(vec![lit("a"), lit("b")])]),
        element("p", vec![lit("x"), call("sub", vec![lit("k")]), lit("y")]),
    ]);
    let mut c = context();
    assert_eq!(c.eval(&mut tree), Ok(()));
    assert_eq!(
        tree,
        Node::Root(vec![
            Node::Consumed("k".to_string()),
            element("p", vec![lit("x"), lit("a"), lit("b"), lit("y")]),
        ])
    );
}

#[test]
fn failed_evaluation_leaves_tree_unchanged() {
    let before = Node::Root(vec![
        call("def", vec![lit("k"), lit("v")]),
        element("p", vec![call("sub", vec![lit("k")]), call("nope", vec![])]),
    ]);
    let mut tree = before.clone();
    let mut c = context();
    assert_eq!(c.eval(&mut tree), Err(EvalError::UndefinedMacro("nope".to_string())));
    assert_eq!(tree, before);
    let mut tree = before.clone();
    let mut c = context();
    assert!(c.expand(&mut tree).is_err());
    assert_eq!(tree, before);
}

#[test]
fn sub_inside_macro_call_sees_outer_definition() {
    let mut tree = Node::Root(vec![
        call("def", vec![lit("k"), lit("v")]),
        call("defmacro", vec![lit("show"), Node::Null, element("i", vec![call("sub", vec![lit("k")])])]),
        call("show", vec![]),
    ]);
    let mut c = context();
    assert_eq!(c.eval(&mut tree), Ok(()));
    match &tree {
        Node::Root(children) => assert_eq!(children[2], element("i", vec![lit("v")])),
        _ => panic!("root expected"),
    }
}

#[test]
fn sub_of_unbound_variable_is_null() {
    let mut tree = Node::Root(vec![call("sub", vec![lit("missing")])]);
    let mut c = context();
    assert_eq!(c.eval(&mut tree), Ok(()));
    assert_eq!(tree, Node::Root(vec![Node::Null]));
}

#[test]
fn macro_called_twice_uses_each_call_arguments() {
    let template = element("b", vec![call("arg", vec![lit("1")]), call("arg", vec![lit("2")])]);
    let mut tree = Node::Root(vec![
        call("defmacro", vec![lit("pair"), Node::Null, template.clone()]),
        call("pair", vec![lit("a"), lit("b")]),
        call("pair", vec![lit("c"), lit("d")]),
    ]);
    let mut c = context();
    assert_eq!(c.expand(&mut tree), Ok(()));
    assert_eq!(
        tree,
        Node::Root(vec![
            Node::Consumed("defmacro/pair".to_string()),
            element("b", vec![lit("a"), lit("b")]),
            element("b", vec![lit("c"), lit("d")]),
        ])
    );
    // the stored template is untouched by the expansions
    let mut probe = call("pair", vec![lit("x"), lit("y")]);
    assert_eq!(c.eval(&mut probe), Ok(()));
    assert_eq!(probe, element("b", vec![lit("x"), lit("y")]));
    assert!(c.top_args().is_err());
}

#[test]
fn argument_is_evaluated_in_the_callers_frame() {
    // outer(x) expands to inner(arg(1)); inner's arg(1) is outer's argument
    let mut tree = Node::Root(vec![
        call("defmacro", vec![lit("inner"), Node::Null, element("em", vec![call("arg", vec![lit("1")])])]),
        call("defmacro", vec![lit("outer"), Node::Null, call("inner", vec![call("arg", vec![lit("1")])])]),
        call("outer", vec![lit("deep")]),
    ]);
    let mut c = context();
    assert_eq!(c.eval(&mut tree), Ok(()));
    match &tree {
        Node::Root(children) => assert_eq!(children[2], element("em", vec![lit("deep")])),
        _ => panic!("root expected"),
    }
}

#[test]
fn argument_is_evaluated_on_every_reference() {
    let template = Node::Wrapper(vec![call("arg", vec![lit("1")]), call("arg", vec![lit("1")])]);
    let mut tree = Node::Root(vec![
        call("defmacro", vec![lit("twice"), Node::Null, template]),
        element("p", vec![call("twice", vec![call("sub", vec![lit("v")])])]),
    ]);
    let mut c = context();
    c.set_var("v".to_string(), lit("z"));
    assert_eq!(c.expand(&mut tree), Ok(()));
    assert_eq!(
        tree,
        Node::Root(vec![Node::Consumed("defmacro/twice".to_string()), element("p", vec![lit("z"), lit("z")])])
    );
}

#[test]
fn redefined_variable_and_macro_use_newest() {
    let mut tree = Node::Root(vec![
        call("def", vec![lit("k"), lit("old")]),
        call("sub", vec![lit("k")]),
        call("def", vec![lit("k"), lit("new")]),
        call("sub", vec![lit("k")]),
        call("defmacro", vec![lit("m"), Node::Null, lit("first")]),
        call("m", vec![]),
        call("defmacro", vec![lit("m"), Node::Null, lit("second")]),
        call("m", vec![]),
    ]);
    let mut c = context();
    assert_eq!(c.eval(&mut tree), Ok(()));
    assert_eq!(
        tree,
        Node::Root(vec![
            Node::Consumed("k".to_string()),
            lit("old"),
            Node::Consumed("k".to_string()),
            lit("new"),
            Node::Consumed("defmacro/m".to_string()),
            lit("first"),
            Node::Consumed("defmacro/m".to_string()),
            lit("second"),
        ])
    );
}

#[test]
fn arg_outside_macro_call_fails() {
    let mut tree = Node::Root(vec![call("arg", vec![lit("1")])]);
    let mut c = context();
    assert_eq!(c.eval(&mut tree), Err(EvalError::NoActiveMacroCall));
}

#[test]
fn arg_index_zero_is_out_of_range() {
    let mut tree = Node::Root(vec![
        call("defmacro", vec![lit("m"), Node::Null, call("arg", vec![lit("0")])]),
        call("m", vec![lit("a")]),
    ]);
    let mut c = context();
    assert_eq!(c.eval(&mut tree), Err(EvalError::ArgIndexOutOfRange(0, 1)));
}

#[test]
fn arg_index_past_arguments_is_out_of_range() {
    let mut tree = Node::Root(vec![
        call("defmacro", vec![lit("m"), Node::Null, call("arg", vec![lit("3")])]),
        call("m", vec![lit("a"), lit("b")]),
    ]);
    let mut c = context();
    assert_eq!(c.eval(&mut tree), Err(EvalError::ArgIndexOutOfRange(3, 2)));
}

#[test]
fn malformed_arguments_are_rejected() {
    let cases = vec![
        call("def", vec![element("k", vec![]), lit("v")]),
        call("def", vec![lit("k")]),
        call("sub", vec![]),
        call("defmacro", vec![lit("m"), Node::Null]),
    ];
    for case in cases {
        let mut tree = Node::Root(vec![case]);
        let mut c = context();
        assert_eq!(c.eval(&mut tree), Err(EvalError::MalformedArguments));
    }
    let mut tree = Node::Root(vec![
        call("defmacro", vec![lit("m"), Node::Null, call("arg", vec![lit("one")])]),
        call("m", vec![lit("a")]),
    ]);
    let mut c = context();
    assert_eq!(c.eval(&mut tree), Err(EvalError::MalformedArguments));
}

#[test]
fn self_recursive_macro_hits_expansion_limit() {
    let mut tree = Node::Root(vec![
        call("defmacro", vec![lit("loop"), Node::Null, call("loop", vec![])]),
        call("loop", vec![]),
    ]);
    let mut c = context();
    assert_eq!(c.eval(&mut tree), Err(EvalError::ExpansionLimit));
    assert!(c.top_args().is_err());
}

#[test]
fn large_arg_index_is_malformed() {
    let mut tree = Node::Root(vec![
        call("defmacro", vec![lit("m"), Node::Null, call("arg", vec![lit("99999999999999999999999")])]),
        call("m", vec![lit("a")]),
    ]);
    let mut c = context();
    assert_eq!(c.eval(&mut tree), Err(EvalError::MalformedArguments));
}

#[test]
fn context_without_builtins_knows_no_macro() {
    let mut tree = Node::Root(vec![call("def", vec![lit("k"), lit("v")])]);
    let mut c = Context::new();
    assert_eq!(c.eval(&mut tree), Err(EvalError::UndefinedMacro("def".to_string())));
}

#[test]
fn registry_operations() {
    let mut c = context();
    assert!(c.get_var(&"a".to_string()).is_none());
    c.set_var("a".to_string(), lit("1"));
    c.set_var("a".to_string(), lit("2"));
    assert_eq!(c.get_var(&"a".to_string()), Some(&lit("2")));
    assert_eq!(c.top_args(), Err(EvalError::NoActiveMacroCall));
    c.push_args(vec![lit("x")]);
    c.push_args(vec![lit("y"), lit("z")]);
    assert_eq!(c.top_args(), Ok(&vec![lit("y"), lit("z")]));
    assert_eq!(c.pop_args(), Some(vec![lit("y"), lit("z")]));
    assert_eq!(c.top_args(), Ok(&vec![lit("x")]));
    assert_eq!(c.pop_args(), Some(vec![lit("x")]));
    assert_eq!(c.pop_args(), None);
    c.define_macro("m".to_string(), lit("body"));
    let mut probe = call("m", vec![]);
    assert_eq!(c.eval(&mut probe), Ok(()));
    assert_eq!(probe, lit("body"));
}

#[test]
fn builtin_names_are_reserved() {
    // a user macro named like a builtin never runs: the builtin wins
    let mut c = context();
    c.define_macro("sub".to_string(), lit("user"));
    let mut probe = call("sub", vec![lit("nothing")]);
    assert_eq!(c.eval(&mut probe), Ok(()));
    assert_eq!(probe, Node::Null);
}
