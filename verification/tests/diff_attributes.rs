use squark::diff::diff_attributes;
use squark::{Attribute, AttributeValue, Diff};

fn text(name: &str, value: &str) -> Attribute {
    (name.to_string(), AttributeValue::String(value.to_string()))
}

fn flag(name: &str, value: bool) -> Attribute {
    (name.to_string(), AttributeValue::Bool(value))
}

fn set(name: &str, value: &str) -> Diff {
    Diff::SetAttribute(name.to_string(), AttributeValue::String(value.to_string()))
}

fn remove(name: &str) -> Diff {
    Diff::RemoveAttribute(name.to_string())
}

#[test]
fn attribute_diff_sets_then_removes() {
    let mut old = vec![text("a", "1"), text("b", "2")];
    let new = vec![text("b", "2"), text("c", "3")];
    let edits = diff_attributes(&mut old, &new);
    assert_eq!(edits, vec![set("c", "3"), remove("a")]);
}

#[test]
fn attribute_diff_drains_the_old_attributes() {
    let mut old = vec![text("a", "1"), text("b", "2")];
    diff_attributes(&mut old, &[text("a", "1")]);
    assert!(old.is_empty());
}

#[test]
fn attribute_diff_of_equal_lists_is_empty() {
    let mut old = vec![text("class", "box"), flag("hidden", true)];
    let new = vec![text("class", "box"), flag("hidden", true)];
    assert_eq!(diff_attributes(&mut old, &new), vec![]);
}

#[test]
fn attribute_diff_ignores_the_order_of_the_names() {
    let mut old = vec![text("a", "1"), text("b", "2")];
    let new = vec![text("b", "2"), text("a", "1")];
    assert_eq!(diff_attributes(&mut old, &new), vec![]);
}

#[test]
fn attribute_diff_sets_a_changed_value() {
    let mut old = vec![text("a", "1")];
    let new = vec![text("a", "2")];
    assert_eq!(diff_attributes(&mut old, &new), vec![set("a", "2")]);
}

#[test]
fn attribute_diff_tells_a_string_from_a_flag() {
    let mut old = vec![text("checked", "true")];
    let new = vec![flag("checked", true)];
    assert_eq!(
        diff_attributes(&mut old, &new),
        vec![Diff::SetAttribute("checked".to_string(), AttributeValue::Bool(true))]
    );
}

#[test]
fn attribute_diff_sets_in_the_order_of_the_new_attributes() {
    let mut old = vec![];
    let new = vec![text("z", "1"), text("a", "2"), text("m", "3")];
    assert_eq!(
        diff_attributes(&mut old, &new),
        vec![set("z", "1"), set("a", "2"), set("m", "3")]
    );
}

#[test]
fn attribute_diff_removes_each_old_name_once() {
    let mut old = vec![text("a", "1"), text("b", "2"), text("a", "3")];
    let new = vec![];
    assert_eq!(diff_attributes(&mut old, &new), vec![remove("a"), remove("b")]);
}

#[test]
fn attribute_diff_lets_the_last_old_value_win() {
    let mut old = vec![text("a", "1"), text("a", "2")];
    assert_eq!(diff_attributes(&mut old, &[text("a", "2")]), vec![]);
    let mut old = vec![text("a", "1"), text("a", "2")];
    assert_eq!(diff_attributes(&mut old, &[text("a", "1")]), vec![set("a", "1")]);
}

#[test]
fn attribute_diff_sets_a_repeated_new_name_again() {
    let mut old = vec![text("a", "1")];
    let new = vec![text("a", "1"), text("a", "1")];
    assert_eq!(diff_attributes(&mut old, &new), vec![set("a", "1")]);
}
