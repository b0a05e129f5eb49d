use squark::node::{attributes_eq, clone_attributes, clone_handlers, handlers_eq};
use squark::{AttributeValue, Diff, Element, Node};

fn sample() -> Element {
    Element::new(
        "input".to_string(),
        vec![
            ("type".to_string(), AttributeValue::String("text".to_string())),
            ("disabled".to_string(), AttributeValue::Bool(false)),
        ],
        vec![("input".to_string(), "id-1".to_string())],
        vec![Node::Text("child".to_string()), Node::Null],
    )
}

#[test]
fn getters_return_what_the_element_was_made_of() {
    let el = sample();
    assert_eq!(el.name(), "input");
    assert_eq!(
        el.attributes(),
        &[
            ("type".to_string(), AttributeValue::String("text".to_string())),
            ("disabled".to_string(), AttributeValue::Bool(false)),
        ]
    );
    assert_eq!(el.handlers(), &[("input".to_string(), "id-1".to_string())]);
    assert_eq!(el.children(), &[Node::Text("child".to_string()), Node::Null]);
}

#[test]
fn key_is_the_first_attribute_named_key() {
    let el = Element::new(
        "li".to_string(),
        vec![
            ("class".to_string(), AttributeValue::String("row".to_string())),
            ("key".to_string(), AttributeValue::String("first".to_string())),
            ("key".to_string(), AttributeValue::String("second".to_string())),
        ],
        vec![],
        vec![],
    );
    assert_eq!(el.get_key(), Some("first".to_string()));
}

#[test]
fn key_is_absent_without_an_attribute_named_key() {
    assert_eq!(sample().get_key(), None);
}

#[test]
fn key_is_absent_where_the_first_key_attribute_is_a_flag() {
    let el = Element::new(
        "li".to_string(),
        vec![
            ("key".to_string(), AttributeValue::Bool(true)),
            ("key".to_string(), AttributeValue::String("late".to_string())),
        ],
        vec![],
        vec![],
    );
    assert_eq!(el.get_key(), None);
}

#[test]
fn only_elements_have_keys() {
    assert_eq!(Node::Text("key".to_string()).get_key(), None);
    assert_eq!(Node::Null.get_key(), None);
    let el = Element::new(
        "li".to_string(),
        vec![("key".to_string(), AttributeValue::String("k".to_string()))],
        vec![],
        vec![],
    );
    assert_eq!(Node::Element(el).get_key(), Some("k".to_string()));
}

#[test]
fn a_clone_is_equal_to_what_it_was_made_from() {
    let node = Node::Element(sample());
    assert_eq!(node.clone(), node);
    let edit = Diff::PatchChild(
        2,
        vec![
            Diff::AddChild(0, node.clone()),
            Diff::RemoveHandler("click".to_string(), "id".to_string()),
        ],
    );
    assert_eq!(edit.clone(), edit);
    let value = AttributeValue::String("v".to_string());
    assert_eq!(value.clone(), value);
}

#[test]
fn equality_is_structural() {
    assert_ne!(Node::Text("a".to_string()), Node::Text("b".to_string()));
    assert_ne!(Node::Text("a".to_string()), Node::Null);
    let mut other = sample();
    assert_eq!(other, sample());
    other = Element::new(
        "input".to_string(),
        vec![],
        vec![("input".to_string(), "id-1".to_string())],
        vec![Node::Text("child".to_string()), Node::Null],
    );
    assert_ne!(other, sample());
    assert_ne!(
        AttributeValue::String("true".to_string()),
        AttributeValue::Bool(true)
    );
    assert_ne!(Diff::RemoveChild(1), Diff::RemoveChild(2));
    assert_ne!(
        Diff::PatchChild(0, vec![Diff::RemoveChild(1)]),
        Diff::PatchChild(0, vec![])
    );
    assert_ne!(
        Diff::AddChild(0, Node::Null),
        Diff::ReplaceChild(0, Node::Null)
    );
}

#[test]
fn lists_are_copied_and_compared_in_order() {
    let el = sample();
    let attributes = clone_attributes(el.attributes());
    assert!(attributes_eq(&attributes, el.attributes()));
    assert!(!attributes_eq(&attributes[..1], el.attributes()));
    let handlers = clone_handlers(el.handlers());
    assert!(handlers_eq(&handlers, el.handlers()));
    assert!(!handlers_eq(&handlers, &[]));
    let swapped = vec![attributes[1].clone(), attributes[0].clone()];
    assert!(!attributes_eq(&swapped, &attributes));
}
