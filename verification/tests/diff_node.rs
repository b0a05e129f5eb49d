use squark::{AttributeValue, Diff, Element, Node};

fn text(s: &str) -> Node {
    Node::Text(s.to_string())
}

fn element(name: &str, attributes: Vec<(&str, &str)>, children: Vec<Node>) -> Element {
    Element::new(
        name.to_string(),
        attributes
            .into_iter()
            .map(|(k, v)| (k.to_string(), AttributeValue::String(v.to_string())))
            .collect(),
        vec![],
        children,
    )
}

fn with_handlers(name: &str, handlers: Vec<(&str, &str)>) -> Element {
    Element::new(
        name.to_string(),
        vec![],
        handlers
            .into_iter()
            .map(|(k, id)| (k.to_string(), id.to_string()))
            .collect(),
        vec![],
    )
}

fn diff(old: Node, new: &Node, at: usize) -> Option<Diff> {
    let mut old = old;
    let mut i = at;
    let edit = Node::diff(&mut old, new, &mut i);
    assert_eq!(i, at);
    edit
}

#[test]
fn equal_texts_need_no_edit() {
    assert_eq!(diff(text("a"), &text("a"), 0), None);
}

#[test]
fn a_changed_text_is_replaced() {
    assert_eq!(
        diff(text("a"), &text("b"), 3),
        Some(Diff::ReplaceChild(3, text("b")))
    );
}

#[test]
fn two_empty_nodes_need_no_edit() {
    assert_eq!(diff(Node::Null, &Node::Null, 0), None);
}

#[test]
fn a_node_in_place_of_an_empty_one_is_added() {
    assert_eq!(
        diff(Node::Null, &text("a"), 2),
        Some(Diff::AddChild(2, text("a")))
    );
    let div = Node::Element(element("div", vec![], vec![]));
    assert_eq!(
        diff(Node::Null, &div, 0),
        Some(Diff::AddChild(0, Node::Element(element("div", vec![], vec![]))))
    );
}

#[test]
fn an_empty_node_in_place_of_a_node_removes_it() {
    assert_eq!(diff(text("a"), &Node::Null, 4), Some(Diff::RemoveChild(4)));
    let div = Node::Element(element("div", vec![], vec![]));
    assert_eq!(diff(div, &Node::Null, 1), Some(Diff::RemoveChild(1)));
}

#[test]
fn a_text_and_an_element_replace_each_other() {
    let div = Node::Element(element("div", vec![], vec![]));
    assert_eq!(
        diff(text("a"), &div, 0),
        Some(Diff::ReplaceChild(0, Node::Element(element("div", vec![], vec![]))))
    );
    assert_eq!(
        diff(div, &text("a"), 0),
        Some(Diff::ReplaceChild(0, text("a")))
    );
}

#[test]
fn elements_with_other_names_are_replaced() {
    let old = Node::Element(element("div", vec![], vec![]));
    let new = Node::Element(element("span", vec![], vec![]));
    assert_eq!(
        diff(old, &new, 7),
        Some(Diff::ReplaceChild(7, Node::Element(element("span", vec![], vec![]))))
    );
}

#[test]
fn elements_with_other_keys_are_replaced() {
    let old = Node::Element(element("li", vec![("key", "a")], vec![text("x")]));
    let new = Node::Element(element("li", vec![("key", "b")], vec![text("x")]));
    assert_eq!(
        diff(old, &new, 0),
        Some(Diff::ReplaceChild(
            0,
            Node::Element(element("li", vec![("key", "b")], vec![text("x")]))
        ))
    );
}

#[test]
fn a_key_on_one_side_only_is_patched() {
    let old = Node::Element(element("li", vec![("key", "a")], vec![]));
    let new = Node::Element(element("li", vec![], vec![]));
    assert_eq!(
        diff(old, &new, 0),
        Some(Diff::PatchChild(
            0,
            vec![Diff::RemoveAttribute("key".to_string())]
        ))
    );
}

#[test]
fn a_key_that_is_a_flag_is_no_key() {
    let old = Element::new(
        "li".to_string(),
        vec![("key".to_string(), AttributeValue::Bool(true))],
        vec![],
        vec![],
    );
    assert_eq!(old.get_key(), None);
    let new = Node::Element(element("li", vec![("key", "b")], vec![]));
    assert_eq!(
        diff(Node::Element(old), &new, 0),
        Some(Diff::PatchChild(
            0,
            vec![Diff::SetAttribute(
                "key".to_string(),
                AttributeValue::String("b".to_string())
            )]
        ))
    );
}

#[test]
fn equal_elements_need_no_edit() {
    let old = Node::Element(element(
        "div",
        vec![("class", "box")],
        vec![text("a"), Node::Element(element("span", vec![], vec![text("b")]))],
    ));
    let new = old.clone();
    assert_eq!(diff(old, &new, 0), None);
}

#[test]
fn a_patch_gathers_attributes_then_handlers_then_children() {
    let old = Node::Element(Element::new(
        "div".to_string(),
        vec![("a".to_string(), AttributeValue::String("1".to_string()))],
        vec![("click".to_string(), "id1".to_string())],
        vec![text("x"), text("y")],
    ));
    let new = Node::Element(Element::new(
        "div".to_string(),
        vec![("a".to_string(), AttributeValue::String("2".to_string()))],
        vec![("click".to_string(), "id2".to_string())],
        vec![text("x"), text("z")],
    ));
    assert_eq!(
        diff(old, &new, 5),
        Some(Diff::PatchChild(
            5,
            vec![
                Diff::SetAttribute("a".to_string(), AttributeValue::String("2".to_string())),
                Diff::SetHandler("click".to_string(), "id2".to_string()),
                Diff::ReplaceChild(1, text("z")),
            ]
        ))
    );
}

#[test]
fn a_nested_change_gives_nested_patches() {
    let old = Node::Element(element(
        "ul",
        vec![],
        vec![Node::Element(element("li", vec![], vec![text("a")]))],
    ));
    let new = Node::Element(element(
        "ul",
        vec![],
        vec![Node::Element(element("li", vec![], vec![text("b")]))],
    ));
    assert_eq!(
        diff(old, &new, 0),
        Some(Diff::PatchChild(
            0,
            vec![Diff::PatchChild(0, vec![Diff::ReplaceChild(0, text("b"))])]
        ))
    );
}

#[test]
fn an_element_with_a_handler_is_never_unchanged() {
    let old = Node::Element(with_handlers("button", vec![("click", "id1")]));
    let new = old.clone();
    assert_eq!(
        diff(old, &new, 0),
        Some(Diff::PatchChild(
            0,
            vec![Diff::SetHandler("click".to_string(), "id1".to_string())]
        ))
    );
}

#[test]
fn a_patched_element_is_drained() {
    let mut old = element("div", vec![("a", "1")], vec![text("x"), text("y"), text("z")]);
    let new = element("div", vec![("a", "2")], vec![text("x")]);
    let edit = Element::diff(&mut old, &new, 0);
    assert!(edit.is_some());
    assert_eq!(old.name(), "div");
    assert!(old.attributes().is_empty());
    assert!(old.handlers().is_empty());
    assert_eq!(old.children(), &[text("z"), text("y")]);
}

#[test]
fn a_replaced_element_is_left_as_it_was() {
    let mut old = element("div", vec![("a", "1")], vec![text("x")]);
    let new = element("span", vec![], vec![]);
    Element::diff(&mut old, &new, 0);
    assert_eq!(old, element("div", vec![("a", "1")], vec![text("x")]));
}

#[test]
fn diffing_a_tree_against_its_clone_yields_nothing() {
    let tree = Node::Element(element(
        "section",
        vec![("id", "main"), ("class", "wide")],
        vec![
            Node::Element(element("h1", vec![("key", "title")], vec![text("Title")])),
            Node::Null,
            text("body"),
            Node::Element(element(
                "ul",
                vec![],
                vec![
                    Node::Element(element("li", vec![("key", "1")], vec![text("one")])),
                    Node::Element(element("li", vec![("key", "2")], vec![text("two")])),
                ],
            )),
        ],
    ));
    let same = tree.clone();
    assert_eq!(diff(tree, &same, 0), None);
}
