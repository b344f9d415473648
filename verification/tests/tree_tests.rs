use tagtree::builder::parse;
use tagtree::events::Event;
use tagtree::tree::Node;

fn node(children: Vec<(&str, Node)>) -> Node {
    Node { children: children.into_iter().map(|(k, v)| (k.to_string(), v)).collect() }
}

fn leaf() -> Node {
    Node { children: Vec::new() }
}

fn open(name: &str) -> Event {
    Event::Open(name.to_string())
}

fn close(name: &str) -> Event {
    Event::Close(name.to_string())
}

#[test]
fn single_node() {
    let stream = vec![open("parent"), close("parent")];

    let expected = node(vec![("parent", leaf())]);
    let actual = parse(stream);

    assert!(actual.eq(&expected));
}

#[test]
fn single_node_with_single_child() {
    let stream = vec![open("parent"), open("child"), close("child"), close("parent")];

    let expected = node(vec![("parent", node(vec![("child", leaf())]))]);

    let actual = parse(stream);

    assert!(actual.eq(&expected));
}

#[test]
fn list() {
    let stream = vec![
        open("parent"),
        open("child"),
        open("grandchild"),
        close("grandchild"),
        close("child"),
        close("parent"),
    ];

    let expected = node(vec![("parent", node(vec![("child", node(vec![("grandchild", leaf())]))]))]);

    let actual = parse(stream);

    assert!(actual.eq(&expected));
}

#[test]
fn node_with_two_different_children() {
    let stream = vec![
        open("parent"),
        open("son"),
        close("son"),
        open("daughter"),
        close("daughter"),
        close("parent"),
    ];

    let expected = node(vec![("parent", node(vec![("son", leaf()), ("daughter", leaf())]))]);

    let actual = parse(stream);

    assert!(actual.eq(&expected));
}

#[test]
fn node_with_uniform_children() {
    let stream = vec![
        open("parent"),
        open("son"),
        close("son"),
        open("son"),
        close("son"),
        close("parent"),
    ];

    let expected = node(vec![("parent", node(vec![("son", leaf())]))]);

    let actual = parse(stream);

    assert!(actual.eq(&expected));
}

#[test]
fn node_with_uniform_children_and_granchildren() {
    let stream = vec![
        open("parent"),
        open("son"),
        open("grandson"),
        close("grandson"),
        close("son"),
        open("son"),
        open("granddaughter"),
        close("granddaughter"),
        close("son"),
        close("parent"),
    ];

    let expected = node(vec![(
        "parent",
        node(vec![("son", node(vec![("grandson", leaf()), ("granddaughter", leaf())]))]),
    )]);

    let actual = parse(stream);

    assert!(actual.eq(&expected));
}

#[test]
fn complex_tree() {
    let stream = vec![
        open("parent"),
        open("son"),
        open("grandson"),
        close("grandson"),
        open("granddaughter"),
        close("granddaughter"),
        close("son"),
        open("son"),
        open("granddaughter"),
        close("granddaughter"),
        open("granddaughter"),
        close("granddaughter"),
        close("son"),
        open("daughter"),
        open("grandson"),
        close("grandson"),
        open("grandson"),
        close("grandson"),
        close("daughter"),
        close("parent"),
    ];

    let expected = node(vec![(
        "parent",
        node(vec![
            ("son", node(vec![("grandson", leaf()), ("granddaughter", leaf())])),
            ("daughter", node(vec![("grandson", leaf())])),
        ]),
    )]);

    let actual = parse(stream);

    assert!(actual.eq(&expected));
}

#[test]
fn empty_input() {
    let actual = parse(Vec::new());

    assert!(actual.eq(&leaf()));
    assert_eq!(actual.children.len(), 0);
}

#[test]
fn stray_close_is_ignored() {
    let actual = parse(vec![close("nothing")]);
    assert!(actual.eq(&leaf()));

    let stream = vec![close("stray"), open("parent"), close("parent")];
    let expected = node(vec![("parent", leaf())]);
    assert!(parse(stream).eq(&expected));
}

#[test]
fn unbalanced_input_keeps_partial_shape() {
    let stream = vec![open("parent"), open("child")];
    let expected = node(vec![("parent", node(vec![("child", leaf())]))]);

    let actual = parse(stream);

    assert!(actual.eq(&expected));
}

#[test]
fn repeated_runs_build_identical_trees() {
    let stream = || {
        vec![open("parent"), open("son"), close("son"), close("parent")]
    };

    let first = parse(stream());
    let second = parse(stream());

    assert!(first.eq(&second));
}

#[test]
fn sibling_order_does_not_matter() {
    let one = vec![
        open("root"),
        open("a"),
        close("a"),
        open("b"),
        open("c"),
        close("c"),
        close("b"),
        close("root"),
    ];
    let other = vec![
        open("root"),
        open("b"),
        open("c"),
        close("c"),
        close("b"),
        open("a"),
        close("a"),
        close("root"),
    ];

    assert!(parse(one).eq(&parse(other)));
}

#[test]
fn repeated_sibling_extends_existing_subtree() {
    let split = vec![
        open("x"),
        open("first"),
        close("first"),
        close("x"),
        open("x"),
        open("second"),
        close("second"),
        close("x"),
    ];
    let joined = vec![
        open("x"),
        open("first"),
        close("first"),
        open("second"),
        close("second"),
        close("x"),
    ];

    let from_split = parse(split);
    let from_joined = parse(joined);

    assert!(from_split.eq(&from_joined));
    assert_eq!(from_split.children.len(), 1);
    assert_eq!(from_split.children[0].0, "x");
    assert_eq!(from_split.children[0].1.children.len(), 2);
}

#[test]
fn structural_equality_detects_differences() {
    let a = node(vec![("p", node(vec![("q", leaf())]))]);
    let b = node(vec![("p", leaf())]);
    let c = node(vec![("r", node(vec![("q", leaf())]))]);

    assert!(!a.eq(&b));
    assert!(!a.eq(&c));
    assert!(a.eq(&a));
}
