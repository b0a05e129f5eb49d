//! What the edit script between two trees is, stated over the views of the
//! trees.

use crate::node::{
    element_key, node_key, AttributeView, DiffView, ElementView, HandlerView, NodeView,
};
use crate::pairs::{has_name, last_value};
use vstd::prelude::*;

verus! {

/// Whether the new attribute at `j` needs no edit: it is the first new
/// attribute of its name, and the old attributes hold an equal value for it.
pub open spec fn attribute_kept(old: Seq<AttributeView>, new: Seq<AttributeView>, j: int) -> bool {
    &&& !has_name(new.take(j), new[j].0)
    &&& last_value(old, new[j].0) == Some(new[j].1)
}

/// The `SetAttribute` edits for the first `n` new attributes, in their order.
pub open spec fn attribute_sets(old: Seq<AttributeView>, new: Seq<AttributeView>, n: nat) -> Seq<
    DiffView,
>
    decreases n,
{
    if n == 0 {
        Seq::empty()
    } else {
        let j = n - 1;
        let before = attribute_sets(old, new, j as nat);
        if attribute_kept(old, new, j) {
            before
        } else {
            before.push(DiffView::SetAttribute(new[j].0, new[j].1))
        }
    }
}

/// Whether the old pair at `j` is the first of its name and no new pair has
/// that name.
pub open spec fn name_dropped<V, W>(
    old: Seq<(Seq<char>, V)>,
    new: Seq<(Seq<char>, W)>,
    j: int,
) -> bool {
    &&& !has_name(old.take(j), old[j].0)
    &&& !has_name(new, old[j].0)
}

/// The `RemoveAttribute` edits for the first `n` old attributes: one for each
/// name that no new attribute has, in the order in which the names first
/// occur.
pub open spec fn attribute_removes(
    old: Seq<AttributeView>,
    new: Seq<AttributeView>,
    n: nat,
) -> Seq<DiffView>
    decreases n,
{
    if n == 0 {
        Seq::empty()
    } else {
        let j = n - 1;
        let before = attribute_removes(old, new, j as nat);
        if name_dropped(old, new, j) {
            before.push(DiffView::RemoveAttribute(old[j].0))
        } else {
            before
        }
    }
}

/// The attribute edits: every `SetAttribute` in the order of the new
/// attributes, then every `RemoveAttribute`.
pub open spec fn diff_attributes_spec(old: Seq<AttributeView>, new: Seq<AttributeView>) -> Seq<
    DiffView,
> {
    attribute_sets(old, new, new.len()) + attribute_removes(old, new, old.len())
}

/// One `SetHandler` for each of the first `n` new bindings, in their order.
pub open spec fn handler_sets(new: Seq<HandlerView>, n: nat) -> Seq<DiffView> {
    Seq::new(n, |j: int| DiffView::SetHandler(new[j].0, new[j].1))
}

/// The `RemoveHandler` edits for the first `n` old bindings: one for each
/// kind that no new binding has, in the order in which the kinds first occur,
/// with the id that the old bindings hold for the kind.
pub open spec fn handler_removes(old: Seq<HandlerView>, new: Seq<HandlerView>, n: nat) -> Seq<
    DiffView,
>
    decreases n,
{
    if n == 0 {
        Seq::empty()
    } else {
        let j = n - 1;
        let before = handler_removes(old, new, j as nat);
        if name_dropped(old, new, j) {
            before.push(DiffView::RemoveHandler(old[j].0, last_value(old, old[j].0).unwrap()))
        } else {
            before
        }
    }
}

/// The handler edits: a `SetHandler` for every new binding, whatever the old
/// ones were, then every `RemoveHandler`.
pub open spec fn diff_handlers_spec(old: Seq<HandlerView>, new: Seq<HandlerView>) -> Seq<
    DiffView,
> {
    handler_sets(new, new.len()) + handler_removes(old, new, old.len())
}

/// Whether some node of the list has the given key.
pub open spec fn has_key(nodes: Seq<NodeView>, key: Seq<char>) -> bool {
    exists|i: int| 0 <= i < nodes.len() && node_key(#[trigger] nodes[i]) == Some(key)
}

/// Whether an old child is dropped before the lists are compared by
/// position: it has a key, and no new child has that key.
pub open spec fn is_stale(child: NodeView, new: Seq<NodeView>) -> bool {
    match node_key(child) {
        Some(key) => !has_key(new, key),
        None => false,
    }
}

/// The old children that are not stale, in their order.
pub open spec fn survivors(old: Seq<NodeView>, new: Seq<NodeView>) -> Seq<NodeView>
    decreases old.len(),
{
    if old.len() == 0 {
        Seq::empty()
    } else {
        let before = survivors(old.drop_last(), new);
        if is_stale(old.last(), new) {
            before
        } else {
            before.push(old.last())
        }
    }
}

/// The `RemoveChild` edits that drop the stale old children. Each is
/// addressed at `start` plus the number of survivors before the child: the
/// position the child has when the edits before it have been applied.
pub open spec fn prune_edits(old: Seq<NodeView>, new: Seq<NodeView>, start: nat) -> Seq<DiffView>
    decreases old.len(),
{
    if old.len() == 0 {
        Seq::empty()
    } else {
        let before = prune_edits(old.drop_last(), new, start);
        if is_stale(old.last(), new) {
            before.push(DiffView::RemoveChild(start + survivors(old.drop_last(), new).len()))
        } else {
            before
        }
    }
}

/// The edit that turns the node `a` at position `i` into `b`, if one is
/// needed.
pub open spec fn diff_node_spec(a: NodeView, b: NodeView, i: nat) -> Option<DiffView>
    decreases b, 0nat,
{
    match (a, b) {
        (NodeView::Element(ea), NodeView::Element(eb)) => diff_element_spec(ea, eb, i),
        (NodeView::Text(x), NodeView::Text(y)) => if x == y {
            None
        } else {
            Some(DiffView::ReplaceChild(i, b))
        },
        (NodeView::Null, NodeView::Null) => None,
        (NodeView::Null, _) => Some(DiffView::AddChild(i, b)),
        (_, NodeView::Null) => Some(DiffView::RemoveChild(i)),
        _ => Some(DiffView::ReplaceChild(i, b)),
    }
}

/// Whether the element `b` replaces `a` as a whole: both have keys and the
/// keys differ, or the tag names differ.
pub open spec fn replaces(a: ElementView, b: ElementView) -> bool {
    ||| (element_key(a) is Some && element_key(b) is Some && element_key(a) != element_key(b))
    ||| a.name != b.name
}

/// The edits inside an element that is patched: attributes, then handlers,
/// then children.
pub open spec fn patch_edits(a: ElementView, b: ElementView) -> Seq<DiffView>
    decreases b, 0nat,
{
    diff_attributes_spec(a.attributes, b.attributes) + diff_handlers_spec(a.handlers, b.handlers)
        + diff_children_spec(a.children, b.children, 0)
}

/// The edit that turns the element `a` at position `i` into `b`, if one is
/// needed.
pub open spec fn diff_element_spec(a: ElementView, b: ElementView, i: nat) -> Option<DiffView>
    decreases b, 1nat,
{
    if replaces(a, b) {
        Some(DiffView::ReplaceChild(i, NodeView::Element(b)))
    } else if patch_edits(a, b).len() == 0 {
        None
    } else {
        Some(DiffView::PatchChild(i, patch_edits(a, b)))
    }
}

/// The edits that turn the children `a` into `b`: first the stale old
/// children are dropped, with positions counted from `start`; then the
/// survivors are compared with the new children by position, counted from 0.
pub open spec fn diff_children_spec(a: Seq<NodeView>, b: Seq<NodeView>, start: nat) -> Seq<
    DiffView,
>
    decreases b, b.len() + 1,
{
    prune_edits(a, b, start) + reconcile(survivors(a, b), b, 0, 0)
}

/// How many of `have` survivors are left when `used` of them have found a
/// partner.
pub open spec fn left_over(have: nat, used: nat) -> nat {
    if have >= used {
        (have - used) as nat
    } else {
        0
    }
}

/// The edits for the new children from `j` on, against the survivors `s`,
/// where `i` is the position that the child `j` has in the list as edited so
/// far. Past the last new child, every survivor that is left is removed at
/// `i`.
pub open spec fn reconcile(s: Seq<NodeView>, b: Seq<NodeView>, j: nat, i: nat) -> Seq<DiffView>
    decreases b, b.len() - j,
{
    if j >= b.len() {
        Seq::new(left_over(s.len(), j), |k: int| DiffView::RemoveChild(i))
    } else if j >= s.len() {
        seq![DiffView::AddChild(i, b[j as int])] + reconcile(s, b, j + 1, i + 1)
    } else {
        match diff_node_spec(s[j as int], b[j as int], i) {
            None => reconcile(s, b, j + 1, i + 1),
            Some(DiffView::RemoveChild(r)) => seq![DiffView::RemoveChild(r)] + reconcile(
                s,
                b,
                j + 1,
                i,
            ),
            Some(edit) => seq![edit] + reconcile(s, b, j + 1, i + 1),
        }
    }
}

/// The old children that are left in the list when the children have been
/// compared: the survivors past the last new child, last first.
pub open spec fn leftover_children(a: Seq<NodeView>, b: Seq<NodeView>) -> Seq<NodeView> {
    let s = survivors(a, b);
    Seq::new(left_over(s.len(), b.len()), |k: int| s[s.len() - 1 - k])
}

/// What is left of the old element when it has been compared with `b`:
/// nothing has changed where `b` replaces it, else its attributes and
/// handlers are drained and its children are those left over.
pub open spec fn element_after_diff(a: ElementView, b: ElementView) -> ElementView {
    if replaces(a, b) {
        a
    } else {
        ElementView {
            name: a.name,
            attributes: Seq::empty(),
            handlers: Seq::empty(),
            children: leftover_children(a.children, b.children),
        }
    }
}

/// What is left of the old node when it has been compared with `b`.
pub open spec fn node_after_diff(a: NodeView, b: NodeView) -> NodeView {
    match (a, b) {
        (NodeView::Element(ea), NodeView::Element(eb)) => NodeView::Element(
            element_after_diff(ea, eb),
        ),
        _ => a,
    }
}

} // verus!
