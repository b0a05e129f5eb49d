use squark::{AttributeValue, Diff, Element, Node};
use std::collections::BTreeMap;

#[derive(Debug, PartialEq)]
enum Live {
    Text(String),
    Element {
        name: String,
        attributes: BTreeMap<String, AttributeValue>,
        handlers: BTreeMap<String, String>,
        children: Vec<Live>,
    },
}

fn show(node: &Node) -> Vec<Live> {
    match node {
        Node::Null => vec![],
        Node::Text(s) => vec![Live::Text(s.clone())],
        Node::Element(el) => vec![Live::Element {
            name: el.name().to_string(),
            attributes: el.attributes().iter().cloned().collect(),
            handlers: el.handlers().iter().cloned().collect(),
            children: el.children().iter().flat_map(show).collect(),
        }],
    }
}

fn apply(surface: &mut Live, edit: &Diff) {
    match surface {
        Live::Element { attributes, handlers, children, .. } => match edit {
            Diff::SetAttribute(name, value) => {
                attributes.insert(name.clone(), value.clone());
            }
            Diff::RemoveAttribute(name) => {
                assert!(attributes.remove(name).is_some());
            }
            Diff::SetHandler(kind, id) => {
                handlers.insert(kind.clone(), id.clone());
            }
            Diff::RemoveHandler(kind, id) => {
                assert_eq!(handlers.remove(kind).as_ref(), Some(id));
            }
            child_edit => apply_to_children(children, child_edit),
        },
        Live::Text(_) => panic!("a text has nothing to edit"),
    }
}

fn apply_to_children(children: &mut Vec<Live>, edit: &Diff) {
    match edit {
        Diff::AddChild(i, node) => {
            let mut shown = show(node);
            assert_eq!(shown.len(), 1);
            children.insert(*i, shown.remove(0));
        }
        Diff::ReplaceChild(i, node) => {
            let mut shown = show(node);
            assert_eq!(shown.len(), 1);
            children[*i] = shown.remove(0);
        }
        Diff::RemoveChild(i) => {
            children.remove(*i);
        }
        Diff::PatchChild(i, edits) => {
            for edit in edits {
                apply(&mut children[*i], edit);
            }
        }
        other => panic!("not a child edit: {:?}", other),
    }
}

fn check_round_trip(old: Node, new: Node) {
    let mut surface = show(&old);
    let mut consumed = old;
    let mut i = 0;
    if let Some(edit) = Node::diff(&mut consumed, &new, &mut i) {
        apply_to_children(&mut surface, &edit);
    }
    assert_eq!(surface, show(&new));
}

fn text(s: &str) -> Node {
    Node::Text(s.to_string())
}

fn element(
    name: &str,
    attributes: Vec<(&str, &str)>,
    handlers: Vec<(&str, &str)>,
    children: Vec<Node>,
) -> Node {
    Node::Element(Element::new(
        name.to_string(),
        attributes
            .into_iter()
            .map(|(k, v)| (k.to_string(), AttributeValue::String(v.to_string())))
            .collect(),
        handlers
            .into_iter()
            .map(|(k, id)| (k.to_string(), id.to_string()))
            .collect(),
        children,
    ))
}

fn item(key: &str, label: &str) -> Node {
    element("li", vec![("key", key)], vec![], vec![text(label)])
}

#[test]
fn round_trip_at_the_root() {
    check_round_trip(Node::Null, Node::Null);
    check_round_trip(Node::Null, text("a"));
    check_round_trip(text("a"), Node::Null);
    check_round_trip(text("a"), text("a"));
    check_round_trip(text("a"), text("b"));
    check_round_trip(text("a"), element("p", vec![], vec![], vec![]));
    check_round_trip(element("p", vec![], vec![], vec![]), text("a"));
    check_round_trip(Node::Null, element("p", vec![], vec![], vec![text("x")]));
}

#[test]
fn round_trip_of_attributes_and_handlers() {
    check_round_trip(
        element("p", vec![("a", "1"), ("b", "2")], vec![("click", "id1")], vec![]),
        element("p", vec![("b", "2"), ("c", "3")], vec![("click", "id2")], vec![]),
    );
    check_round_trip(
        element("p", vec![("a", "1")], vec![("click", "id1"), ("input", "id2")], vec![]),
        element("p", vec![], vec![("input", "id3")], vec![]),
    );
    check_round_trip(
        element("p", vec![("a", "1"), ("a", "2")], vec![], vec![]),
        element("p", vec![("a", "1"), ("a", "3")], vec![], vec![]),
    );
}

#[test]
fn round_trip_of_unkeyed_children() {
    check_round_trip(
        element("ul", vec![], vec![], vec![text("x"), text("y"), text("z")]),
        element("ul", vec![], vec![], vec![text("x")]),
    );
    check_round_trip(
        element("ul", vec![], vec![], vec![text("x")]),
        element("ul", vec![], vec![], vec![text("a"), text("b"), text("c")]),
    );
    check_round_trip(
        element("ul", vec![], vec![], vec![]),
        element("ul", vec![], vec![], vec![text("a")]),
    );
}

#[test]
fn round_trip_of_keyed_children() {
    check_round_trip(
        element("ul", vec![], vec![], vec![item("a", "A"), item("b", "B"), item("c", "C")]),
        element("ul", vec![], vec![], vec![item("c", "C"), item("a", "A")]),
    );
    check_round_trip(
        element("ul", vec![], vec![], vec![item("a", "A"), item("b", "B")]),
        element("ul", vec![], vec![], vec![item("b", "B2"), item("c", "C"), item("a", "A")]),
    );
    check_round_trip(
        element("ul", vec![], vec![], vec![item("a", "A"), text("t"), item("b", "B"), text("u")]),
        element("ul", vec![], vec![], vec![text("t"), item("z", "Z"), text("u")]),
    );
}

#[test]
fn round_trip_of_nested_trees() {
    let old = element(
        "section",
        vec![("class", "old")],
        vec![],
        vec![
            element("h1", vec![], vec![], vec![text("Title")]),
            element(
                "ul",
                vec![],
                vec![],
                vec![item("1", "one"), item("2", "two"), item("3", "three")],
            ),
            text("footer"),
        ],
    );
    let new = element(
        "section",
        vec![("class", "new"), ("id", "s")],
        vec![("click", "id9")],
        vec![
            element("h2", vec![], vec![], vec![text("Title")]),
            element(
                "ul",
                vec![("class", "list")],
                vec![],
                vec![item("3", "three!"), item("4", "four")],
            ),
        ],
    );
    check_round_trip(old.clone(), new.clone());
    check_round_trip(new, old);
}

#[test]
fn round_trip_where_a_new_child_is_empty() {
    check_round_trip(
        element("ul", vec![], vec![], vec![text("x"), text("y")]),
        element("ul", vec![], vec![], vec![Node::Null, text("z")]),
    );
    check_round_trip(
        element("ul", vec![], vec![], vec![text("x"), text("y"), text("z")]),
        element("ul", vec![], vec![], vec![text("x"), Node::Null, text("z")]),
    );
}

#[test]
fn round_trip_where_an_old_child_is_empty() {
    check_round_trip(
        element("ul", vec![], vec![], vec![text("x"), Node::Null, text("z")]),
        element("ul", vec![], vec![], vec![text("x"), text("y"), text("z")]),
    );
    check_round_trip(
        element("ul", vec![], vec![], vec![Node::Null, item("a", "A")]),
        element("ul", vec![], vec![], vec![item("b", "B"), item("a", "A2")]),
    );
}

#[test]
fn round_trip_where_a_replaced_subtree_has_empty_children() {
    check_round_trip(
        element("div", vec![], vec![], vec![text("x")]),
        element(
            "div",
            vec![],
            vec![],
            vec![element("p", vec![], vec![], vec![Node::Null, text("y"), Node::Null])],
        ),
    );
}
