use tagtree::builder::parse;
use tagtree::events::Event;

fn open(name: &str) -> Event {
    Event::Open(name.to_string())
}

fn close(name: &str) -> Event {
    Event::Close(name.to_string())
}

#[test]
fn print_renders_a_leaf_as_self_closing() {
    let tree = parse(vec![open("a"), close("a")]);
    assert_eq!(tree.print(0), "<a />\n");
}

#[test]
fn print_renders_nested_children_indented() {
    let tree = parse(vec![
        open("a"),
        open("b"),
        close("b"),
        open("c"),
        open("d"),
        close("d"),
        close("c"),
        close("a"),
    ]);
    assert_eq!(tree.print(0), "<a>\n  <b />\n  <c>\n    <d />\n  </c>\n</a>\n");
}

#[test]
fn print_starts_at_the_given_depth() {
    let tree = parse(vec![open("a"), close("a")]);
    assert_eq!(tree.print(2), "    <a />\n");
}

#[test]
fn print_of_a_bare_root_is_empty() {
    let tree = parse(Vec::new());
    assert_eq!(tree.print(0), "");
}
