use squark::diff::diff_handlers;
use squark::{Diff, Handler};

fn bind(kind: &str, id: &str) -> Handler {
    (kind.to_string(), id.to_string())
}

fn set(kind: &str, id: &str) -> Diff {
    Diff::SetHandler(kind.to_string(), id.to_string())
}

fn remove(kind: &str, id: &str) -> Diff {
    Diff::RemoveHandler(kind.to_string(), id.to_string())
}

#[test]
fn handler_diff_sets_the_new_id_for_the_same_kind() {
    let mut old = vec![bind("click", "id1")];
    let new = vec![bind("click", "id2")];
    assert_eq!(diff_handlers(&mut old, &new), vec![set("click", "id2")]);
}

#[test]
fn handler_diff_sets_even_an_unchanged_binding() {
    let mut old = vec![bind("click", "id1")];
    let new = vec![bind("click", "id1")];
    assert_eq!(diff_handlers(&mut old, &new), vec![set("click", "id1")]);
}

#[test]
fn handler_diff_removes_an_old_kind_with_its_old_id() {
    let mut old = vec![bind("click", "id1"), bind("input", "id2")];
    let new = vec![bind("input", "id3")];
    assert_eq!(
        diff_handlers(&mut old, &new),
        vec![set("input", "id3"), remove("click", "id1")]
    );
}

#[test]
fn handler_diff_removes_with_the_last_old_id_of_a_kind() {
    let mut old = vec![bind("click", "id1"), bind("click", "id2")];
    assert_eq!(diff_handlers(&mut old, &[]), vec![remove("click", "id2")]);
}

#[test]
fn handler_diff_drains_the_old_bindings() {
    let mut old = vec![bind("click", "id1")];
    diff_handlers(&mut old, &[]);
    assert!(old.is_empty());
}

#[test]
fn handler_diff_of_nothing_is_empty() {
    let mut old = vec![];
    assert_eq!(diff_handlers(&mut old, &[]), vec![]);
}
