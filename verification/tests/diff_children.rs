use squark::diff::{diff_children, get_nodelist_key_set};
use squark::{AttributeValue, Diff, Element, Node};

fn keyed(key: &str) -> Node {
    Node::Element(Element::new(
        "li".to_string(),
        vec![("key".to_string(), AttributeValue::String(key.to_string()))],
        vec![],
        vec![],
    ))
}

fn text(s: &str) -> Node {
    Node::Text(s.to_string())
}

#[test]
fn keyed_children_prune_then_compare_by_position() {
    let mut old = vec![keyed("a"), keyed("b"), keyed("c")];
    let new = vec![keyed("c"), keyed("a")];
    let mut i = 0;
    let edits = diff_children(&mut old, &new, &mut i);
    assert_eq!(
        edits,
        vec![
            Diff::RemoveChild(1),
            Diff::ReplaceChild(0, keyed("c")),
            Diff::ReplaceChild(1, keyed("a")),
        ]
    );
    assert_eq!(i, 2);
    assert!(old.is_empty());
}

#[test]
fn unkeyed_list_shrink_removes_at_the_same_position() {
    let mut old = vec![text("x"), text("y"), text("z")];
    let new = vec![text("x")];
    let mut i = 0;
    let edits = diff_children(&mut old, &new, &mut i);
    assert_eq!(edits, vec![Diff::RemoveChild(1), Diff::RemoveChild(1)]);
    assert_eq!(i, 3);
}

#[test]
fn children_left_over_stay_in_the_list_last_first() {
    let mut old = vec![text("x"), text("y"), text("z")];
    let mut i = 0;
    diff_children(&mut old, &[text("x")], &mut i);
    assert_eq!(old, vec![text("z"), text("y")]);
}

#[test]
fn new_children_without_a_partner_are_added() {
    let mut old = vec![text("x")];
    let new = vec![text("x"), text("y"), text("z")];
    let mut i = 0;
    let edits = diff_children(&mut old, &new, &mut i);
    assert_eq!(
        edits,
        vec![Diff::AddChild(1, text("y")), Diff::AddChild(2, text("z"))]
    );
}

#[test]
fn stale_children_are_removed_at_the_running_position() {
    let mut old = vec![keyed("a"), keyed("b"), keyed("c"), keyed("d")];
    let new = vec![keyed("b")];
    let mut i = 0;
    let edits = diff_children(&mut old, &new, &mut i);
    assert_eq!(
        edits,
        vec![Diff::RemoveChild(0), Diff::RemoveChild(1), Diff::RemoveChild(1)]
    );
    assert_eq!(i, 1);
}

#[test]
fn pruning_counts_from_the_given_position() {
    let mut old = vec![text("x"), keyed("a")];
    let new = vec![text("x")];
    let mut i = 5;
    let edits = diff_children(&mut old, &new, &mut i);
    assert_eq!(edits, vec![Diff::RemoveChild(6)]);
    assert_eq!(i, 6);
}

#[test]
fn an_empty_new_child_removes_its_partner_without_advancing() {
    let mut old = vec![text("x"), text("y")];
    let new = vec![Node::Null, text("z")];
    let mut i = 0;
    let edits = diff_children(&mut old, &new, &mut i);
    assert_eq!(
        edits,
        vec![Diff::RemoveChild(0), Diff::ReplaceChild(0, text("z"))]
    );
}

#[test]
fn an_empty_old_child_gives_way_to_an_added_child() {
    let mut old = vec![Node::Null, text("y")];
    let new = vec![text("x"), text("y")];
    let mut i = 0;
    let edits = diff_children(&mut old, &new, &mut i);
    assert_eq!(edits, vec![Diff::AddChild(0, text("x"))]);
}

#[test]
fn unkeyed_children_always_survive() {
    let mut old = vec![text("x"), keyed("gone"), text("y")];
    let new = vec![text("x"), text("y")];
    let mut i = 0;
    let edits = diff_children(&mut old, &new, &mut i);
    assert_eq!(edits, vec![Diff::RemoveChild(1)]);
}

#[test]
fn children_of_nothing_against_nothing_need_no_edit() {
    let mut old = vec![];
    let mut i = 0;
    assert_eq!(diff_children(&mut old, &[], &mut i), vec![]);
    assert_eq!(i, 0);
}

#[test]
fn key_set_lists_the_keys_in_order() {
    let nodes = vec![keyed("a"), text("x"), Node::Null, keyed("b")];
    assert_eq!(
        get_nodelist_key_set(&nodes),
        vec!["a".to_string(), "b".to_string()]
    );
}

#[test]
fn a_pair_of_empty_children_still_counts_as_a_position() {
    let mut old = vec![Node::Null, text("a")];
    let new = vec![Node::Null, text("b")];
    let mut i = 0;
    let edits = diff_children(&mut old, &new, &mut i);
    assert_eq!(edits, vec![Diff::ReplaceChild(1, text("b"))]);
}
