//! The diff engine: computes the edit script between the tree of the previous
//! render and the new one.

use crate::edits::{
    attribute_kept, attribute_removes, attribute_sets, diff_attributes_spec, diff_children_spec,
    diff_element_spec, diff_handlers_spec, diff_node_spec, element_after_diff, handler_removes,
    handler_sets, has_key, is_stale, left_over, leftover_children, name_dropped, node_after_diff,
    patch_edits, prune_edits, reconcile, survivors,
};
use crate::node::{
    attributes_view, diffs_view, handlers_view, lemma_element_children, lemma_patch_view,
    node_key, nodes_view, pairs_view, Attribute, Diff, DiffView, Element, Handler, Node, NodeView,
};
use crate::pairs::{has_name, last_value, lemma_last_value_at, lemma_last_value_none};
use crate::vecs::take_in_reverse;
use vstd::prelude::*;

verus! {

/// Where the last pair with the given name stands, if there is one.
fn index_of_last<V: View>(pairs: &[(String, V)], name: &String) -> (res: Option<usize>)
    ensures
        match res {
            Some(i) => {
                &&& i < pairs.len()
                &&& pairs_view(pairs@)[i as int].0 == name@
                &&& last_value(pairs_view(pairs@), name@) == Some(pairs_view(pairs@)[i as int].1)
            },
            None => last_value(pairs_view(pairs@), name@) is None,
        },
{
    let ghost view = pairs_view(pairs@);
    let mut k: usize = pairs.len();
    while k > 0
        invariant
            k <= pairs.len(),
            view == pairs_view(pairs@),
            forall|j: int| k <= j < pairs.len() ==> view[j].0 != name@,
        decreases k,
    {
        k -= 1;
        if pairs[k].0 == *name {
            proof {
                lemma_last_value_at(view, name@, k as int);
            }
            return Some(k);
        }
    }
    proof {
        lemma_last_value_none(view, name@);
    }
    None
}

/// Whether one of the first `end` pairs has the given name.
fn has_name_before<V: View>(pairs: &[(String, V)], end: usize, name: &String) -> (res: bool)
    requires
        end <= pairs.len(),
    ensures
        res == has_name(pairs_view(pairs@).take(end as int), name@),
{
    let ghost view = pairs_view(pairs@).take(end as int);
    let mut k: usize = 0;
    while k < end
        invariant
            k <= end <= pairs.len(),
            view == pairs_view(pairs@).take(end as int),
            forall|j: int| 0 <= j < k ==> view[j].0 != name@,
        decreases end - k,
    {
        if pairs[k].0 == *name {
            assert(view[k as int].0 == name@);
            return true;
        }
        k += 1;
    }
    false
}

/// The view of a list of edits with one more edit at its end.
pub proof fn lemma_diffs_view_push(edits: Seq<Diff>, edit: Diff)
    ensures
        diffs_view(edits.push(edit)) == diffs_view(edits).push(edit@),
{
    assert(diffs_view(edits.push(edit)) =~= diffs_view(edits).push(edit@));
}

/// Compares the attributes of the previous render with the new ones.
///
/// The result holds a `SetAttribute` for each new attribute whose name the
/// old ones do not have or have with another value, in the order of the new
/// attributes, and then a `RemoveAttribute` for each old name that no new
/// attribute has. The old attributes are drained.
pub fn diff_attributes(a: &mut Vec<Attribute>, b: &[Attribute]) -> (result: Vec<Diff>)
    ensures
        diffs_view(result@) == diff_attributes_spec(
            attributes_view(old(a)@),
            attributes_view(b@),
        ),
        final(a)@.len() == 0,
{
    let mut result: Vec<Diff> = Vec::new();
    let ghost old_attributes = attributes_view(a@);
    let ghost new_attributes = attributes_view(b@);
    let mut j: usize = 0;
    while j < b.len()
        invariant
            j <= b.len(),
            old_attributes == attributes_view(a@),
            new_attributes == attributes_view(b@),
            diffs_view(result@) == attribute_sets(old_attributes, new_attributes, j as nat),
        decreases b.len() - j,
    {
        let new_key = &b[j].0;
        let new_val = &b[j].1;
        let seen = has_name_before(b, j, new_key);
        let kept = !seen && match index_of_last(a.as_slice(), new_key) {
            Some(at) => a[at].1 == *new_val,
            None => false,
        };
        assert(kept == attribute_kept(old_attributes, new_attributes, j as int));
        if !kept {
            let edit = Diff::SetAttribute(new_key.clone(), new_val.clone());
            proof {
                lemma_diffs_view_push(result@, edit);
            }
            result.push(edit);
        }
        j += 1;
    }
    let ghost sets = diffs_view(result@);
    let mut p: usize = 0;
    while p < a.len()
        invariant
            p <= a.len(),
            old_attributes == attributes_view(a@),
            new_attributes == attributes_view(b@),
            diffs_view(result@) == sets + attribute_removes(
                old_attributes,
                new_attributes,
                p as nat,
            ),
        decreases a.len() - p,
    {
        let old_key = &a[p].0;
        let taken = has_name_before(a.as_slice(), p, old_key) || has_name_before(
            b,
            b.len(),
            old_key,
        );
        proof {
            assert(new_attributes.take(b.len() as int) =~= new_attributes);
            assert(!taken == name_dropped(old_attributes, new_attributes, p as int));
        }
        if !taken {
            let edit = Diff::RemoveAttribute(old_key.clone());
            proof {
                lemma_diffs_view_push(result@, edit);
                let before = attribute_removes(old_attributes, new_attributes, p as nat);
                assert(sets + before.push(edit@) =~= (sets + before).push(edit@));
            }
            result.push(edit);
        }
        p += 1;
    }
    a.clear();
    result
}

/// Compares the event bindings of the previous render with the new ones.
///
/// The result holds a `SetHandler` for every new binding, whether or not
/// the old ones had its kind or its id, and then a `RemoveHandler` with the
/// old id for each old kind that no new binding has. The old bindings are
/// drained.
pub fn diff_handlers(a: &mut Vec<Handler>, b: &[Handler]) -> (result: Vec<Diff>)
    ensures
        diffs_view(result@) == diff_handlers_spec(handlers_view(old(a)@), handlers_view(b@)),
        final(a)@.len() == 0,
{
    let mut result: Vec<Diff> = Vec::new();
    let ghost old_handlers = handlers_view(a@);
    let ghost new_handlers = handlers_view(b@);
    let mut j: usize = 0;
    while j < b.len()
        invariant
            j <= b.len(),
            new_handlers == handlers_view(b@),
            diffs_view(result@) == handler_sets(new_handlers, j as nat),
        decreases b.len() - j,
    {
        let edit = Diff::SetHandler(b[j].0.clone(), b[j].1.clone());
        proof {
            lemma_diffs_view_push(result@, edit);
            assert(handler_sets(new_handlers, j as nat).push(edit@) =~= handler_sets(
                new_handlers,
                (j + 1) as nat,
            ));
        }
        result.push(edit);
        j += 1;
    }
    let ghost sets = diffs_view(result@);
    let mut p: usize = 0;
    while p < a.len()
        invariant
            p <= a.len(),
            old_handlers == handlers_view(a@),
            new_handlers == handlers_view(b@),
            diffs_view(result@) == sets + handler_removes(old_handlers, new_handlers, p as nat),
        decreases a.len() - p,
    {
        let old_key = &a[p].0;
        let taken = has_name_before(a.as_slice(), p, old_key) || has_name_before(
            b,
            b.len(),
            old_key,
        );
        proof {
            assert(new_handlers.take(b.len() as int) =~= new_handlers);
            assert(!taken == name_dropped(old_handlers, new_handlers, p as int));
        }
        if !taken {
            match index_of_last(a.as_slice(), old_key) {
                Some(at) => {
                    let edit = Diff::RemoveHandler(old_key.clone(), a[at].1.clone());
                    proof {
                        lemma_diffs_view_push(result@, edit);
                        let before = handler_removes(old_handlers, new_handlers, p as nat);
                        assert(sets + before.push(edit@) =~= (sets + before).push(edit@));
                    }
                    result.push(edit);
                },
                None => {
                    proof {
                        lemma_last_value_none(old_handlers, old_key@);
                        assert(old_handlers[p as int].0 == old_key@);
                    }
                },
            }
        }
        p += 1;
    }
    a.clear();
    result
}

/// The view of an optional edit.
pub open spec fn diff_option_view(edit: Option<Diff>) -> Option<DiffView> {
    match edit {
        Some(edit) => Some(edit@),
        None => None,
    }
}

/// What a list of strings holds.
pub open spec fn strings_view(s: Seq<String>) -> Seq<Seq<char>> {
    Seq::new(s.len(), |i: int| s[i]@)
}

/// The keys of the nodes that have one, in the order of the nodes.
pub open spec fn node_keys(nodes: Seq<NodeView>) -> Seq<Seq<char>>
    decreases nodes.len(),
{
    if nodes.len() == 0 {
        Seq::empty()
    } else {
        match node_key(nodes.last()) {
            Some(key) => node_keys(nodes.drop_last()).push(key),
            None => node_keys(nodes.drop_last()),
        }
    }
}

/// The list of keys holds exactly the keys that the nodes have.
pub proof fn lemma_node_keys(nodes: Seq<NodeView>, key: Seq<char>)
    ensures
        node_keys(nodes).contains(key) <==> has_key(nodes, key),
    decreases nodes.len(),
{
    if nodes.len() > 0 {
        let front = nodes.drop_last();
        let keys = node_keys(nodes);
        lemma_node_keys(front, key);
        if has_key(nodes, key) {
            let i = choose|i: int| 0 <= i < nodes.len() && node_key(#[trigger] nodes[i]) == Some(key);
            if i < front.len() {
                assert(node_key(front[i]) == Some(key));
                let w = choose|w: int| 0 <= w < node_keys(front).len() && node_keys(front)[w] == key;
                assert(keys[w] == key);
            } else {
                assert(keys[keys.len() - 1] == key);
            }
        }
        if keys.contains(key) {
            let w = choose|w: int| 0 <= w < keys.len() && keys[w] == key;
            if w < node_keys(front).len() {
                assert(node_keys(front)[w] == key);
                let i = choose|i: int|
                    0 <= i < front.len() && node_key(#[trigger] front[i]) == Some(key);
                assert(node_key(nodes[i]) == Some(key));
            } else {
                assert(node_key(nodes[nodes.len() - 1]) == Some(key));
            }
        }
    }
}

/// The keys of the nodes of a list, in the order of the nodes.
pub fn get_nodelist_key_set(nodelist: &[Node]) -> (keys: Vec<String>)
    ensures
        strings_view(keys@) == node_keys(nodes_view(nodelist@)),
{
    let mut keys: Vec<String> = Vec::new();
    let ghost nodes = nodes_view(nodelist@);
    let mut k: usize = 0;
    while k < nodelist.len()
        invariant
            k <= nodelist.len(),
            nodes == nodes_view(nodelist@),
            strings_view(keys@) == node_keys(nodes.take(k as int)),
        decreases nodelist.len() - k,
    {
        proof {
            assert(nodes.take(k as int + 1).drop_last() =~= nodes.take(k as int));
        }
        match nodelist[k].get_key() {
            Some(key) => {
                proof {
                    assert(strings_view(keys@.push(key)) =~= strings_view(keys@).push(key@));
                }
                keys.push(key);
            },
            None => {},
        }
        k += 1;
    }
    proof {
        assert(nodes.take(k as int) =~= nodes);
    }
    keys
}

/// Whether the list holds the string.
fn contains_string(list: &[String], s: &String) -> (res: bool)
    ensures
        res == strings_view(list@).contains(s@),
{
    let mut k: usize = 0;
    while k < list.len()
        invariant
            k <= list.len(),
            forall|j: int| 0 <= j < k ==> strings_view(list@)[j] != s@,
        decreases list.len() - k,
    {
        if list[k] == *s {
            assert(strings_view(list@)[k as int] == s@);
            return true;
        }
        k += 1;
    }
    false
}

/// Drops the old children that have a key which no new child has.
///
/// Each dropped child gives a `RemoveChild` at the running position `i`,
/// which advances only past the children that stay. The children that stay
/// are left in the list, in their order.
fn prune_stale(a: &mut Vec<Node>, b: &[Node], i: &mut usize) -> (result: Vec<Diff>)
    requires
        *old(i) + old(a)@.len() <= usize::MAX,
    ensures
        nodes_view(final(a)@) == survivors(nodes_view(old(a)@), nodes_view(b@)),
        diffs_view(result@) == prune_edits(nodes_view(old(a)@), nodes_view(b@), *old(i) as nat),
        *final(i) == *old(i) + survivors(nodes_view(old(a)@), nodes_view(b@)).len(),
{
    let ghost old_nodes = nodes_view(a@);
    let ghost new_nodes = nodes_view(b@);
    let ghost start = *i as nat;
    let mut result: Vec<Diff> = Vec::new();
    let b_key_set = get_nodelist_key_set(b);
    let mut pending = take_in_reverse(a);
    let ghost total = pending@.len();
    while pending.len() > 0
        invariant
            pending@.len() <= total == old_nodes.len(),
            start + total <= usize::MAX,
            new_nodes == nodes_view(b@),
            strings_view(b_key_set@) == node_keys(new_nodes),
            forall|k: int|
                0 <= k < pending@.len() ==> (#[trigger] pending@[k])@ == old_nodes[total - 1 - k],
            nodes_view(a@) == survivors(old_nodes.take(total - pending@.len()), new_nodes),
            diffs_view(result@) == prune_edits(
                old_nodes.take(total - pending@.len()),
                new_nodes,
                start,
            ),
            *i == start + a@.len(),
            a@.len() <= total - pending@.len(),
        decreases pending@.len(),
    {
        let ghost done = total - pending@.len();
        match pending.pop() {
            Some(child) => {
                proof {
                    assert(child@ == old_nodes[done]);
                    assert(old_nodes.take(done + 1).drop_last() =~= old_nodes.take(done));
                    assert(old_nodes.take(done + 1).last() == child@);
                }
                let stale = match child.get_key() {
                    Some(key) => {
                        proof {
                            lemma_node_keys(new_nodes, key@);
                        }
                        !contains_string(b_key_set.as_slice(), &key)
                    },
                    None => false,
                };
                assert(stale == is_stale(child@, new_nodes));
                if stale {
                    let edit = Diff::RemoveChild(*i);
                    proof {
                        lemma_diffs_view_push(result@, edit);
                    }
                    result.push(edit);
                } else {
                    proof {
                        assert(nodes_view(a@.push(child)) =~= nodes_view(a@).push(child@));
                    }
                    *i += 1;
                    a.push(child);
                }
            },
            None => {},
        }
    }
    proof {
        assert(old_nodes.take(total as int) =~= old_nodes);
    }
    result
}

impl Node {
    /// Compares the node of the previous render with the new one, which
    /// stands at position `i` among its siblings.
    ///
    /// The result is the edit that turns the old node into the new one, or
    /// `None` where nothing has changed. An old element that is patched is
    /// drained.
    pub fn diff(a: &mut Node, b: &Node, i: &mut usize) -> (result: Option<Diff>)
        ensures
            diff_option_view(result) == diff_node_spec(old(a)@, b@, *old(i) as nat),
            final(a)@ == node_after_diff(old(a)@, b@),
            *final(i) == *old(i),
        decreases b@,
    {
        match b {
            Node::Element(eb) => match a {
                Node::Element(ea) => Element::diff(ea, eb, *i),
                Node::Null => Some(Diff::AddChild(*i, b.clone())),
                Node::Text(_) => Some(Diff::ReplaceChild(*i, b.clone())),
            },
            Node::Text(text_b) => match a {
                Node::Text(text_a) => {
                    if *text_a == *text_b {
                        None
                    } else {
                        Some(Diff::ReplaceChild(*i, b.clone()))
                    }
                },
                Node::Null => Some(Diff::AddChild(*i, b.clone())),
                Node::Element(_) => Some(Diff::ReplaceChild(*i, b.clone())),
            },
            Node::Null => match a {
                Node::Null => None,
                _ => Some(Diff::RemoveChild(*i)),
            },
        }
    }
}

impl Element {
    /// Compares the element of the previous render with the new one, which
    /// stands at position `i` among its siblings.
    ///
    /// Two keys that differ, or two tag names that differ, give a
    /// `ReplaceChild` with the new element. Otherwise the edits of the
    /// attributes, of the handlers and of the children are gathered, in this
    /// order, into one `PatchChild`, or into `None` where there are none; the
    /// old element is then drained.
    pub fn diff(a: &mut Element, b: &Element, i: usize) -> (result: Option<Diff>)
        ensures
            diff_option_view(result) == diff_element_spec(old(a)@, b@, i as nat),
            final(a)@ == element_after_diff(old(a)@, b@),
        decreases b@,
    {
        let ghost old_element = a@;
        let differ = match (a.get_key(), b.get_key()) {
            (Some(a_key), Some(b_key)) => a_key != b_key,
            _ => false,
        };
        if differ || a.name != b.name {
            return Some(Diff::ReplaceChild(i, Node::Element(b.clone())));
        }
        proof {
            lemma_element_children(a);
            lemma_element_children(b);
        }
        let mut result: Vec<Diff> = Vec::new();
        let mut attribute_edits = diff_attributes(&mut a.attributes, b.attributes.as_slice());
        let mut handler_edits = diff_handlers(&mut a.handlers, b.handlers.as_slice());
        let mut start: usize = 0;
        let mut child_edits = diff_children(&mut a.children, b.children.as_slice(), &mut start);
        let ghost all = attribute_edits@ + handler_edits@ + child_edits@;
        proof {
            assert(diffs_view(all) =~= patch_edits(old_element, b@));
            lemma_element_children(a);
            assert(a@.attributes =~= Seq::empty());
            assert(a@.handlers =~= Seq::empty());
        }
        result.append(&mut attribute_edits);
        result.append(&mut handler_edits);
        result.append(&mut child_edits);
        assert(result@ =~= all);
        if result.is_empty() {
            return None;
        }
        proof {
            lemma_patch_view(i, result);
        }
        Some(Diff::PatchChild(i, result))
    }
}

/// Compares the children of the previous render with the new ones.
///
/// First the old children whose key no new child has are dropped, each with
/// a `RemoveChild` at the running position `i`. Then the children that stay
/// are compared with the new children by position, from position 0 on: a new
/// child without a partner is added, a partner that is left over is removed.
/// Every position is the one that the child has once the edits before it
/// have been applied. The old children that are left over stay in the list,
/// last first.
pub fn diff_children(a: &mut Vec<Node>, b: &[Node], i: &mut usize) -> (result: Vec<Diff>)
    requires
        *old(i) + old(a)@.len() <= usize::MAX,
    ensures
        diffs_view(result@) == diff_children_spec(
            nodes_view(old(a)@),
            nodes_view(b@),
            *old(i) as nat,
        ),
        nodes_view(final(a)@) == leftover_children(nodes_view(old(a)@), nodes_view(b@)),
        *final(i) == *old(i) + survivors(nodes_view(old(a)@), nodes_view(b@)).len(),
    decreases nodes_view(b@),
{
    let ghost old_nodes = nodes_view(a@);
    let ghost new_nodes = nodes_view(b@);
    let ghost start = *i as nat;
    let mut result = prune_stale(a, b, i);
    let ghost pruned = diffs_view(result@);
    let ghost stay = nodes_view(a@);
    let mut rest = take_in_reverse(a);
    let mut slot: usize = 0;
    let mut j: usize = 0;
    while j < b.len()
        invariant
            j <= b.len(),
            slot <= j,
            new_nodes == nodes_view(b@),
            rest@.len() == left_over(stay.len(), j as nat),
            forall|k: int|
                0 <= k < rest@.len() ==> (#[trigger] rest@[k])@ == stay[stay.len() - 1 - k],
            pruned + reconcile(stay, new_nodes, 0, 0) == diffs_view(result@) + reconcile(
                stay,
                new_nodes,
                j as nat,
                slot as nat,
            ),
        decreases b.len() - j,
    {
        let ghost so_far = diffs_view(result@);
        let ghost after = reconcile(stay, new_nodes, (j + 1) as nat, (slot + 1) as nat);
        match rest.pop() {
            None => {
                let edit = Diff::AddChild(slot, b[j].clone());
                proof {
                    lemma_diffs_view_push(result@, edit);
                    assert(so_far + (seq![edit@] + after) =~= so_far.push(edit@) + after);
                }
                result.push(edit);
                slot += 1;
            },
            Some(mut old_child) => {
                assert(old_child@ == stay[j as int]);
                match Node::diff(&mut old_child, &b[j], &mut slot) {
                    Some(edit) => {
                        let collapses = match edit {
                            Diff::RemoveChild(_) => true,
                            _ => false,
                        };
                        proof {
                            lemma_diffs_view_push(result@, edit);
                            let next = reconcile(
                                stay,
                                new_nodes,
                                (j + 1) as nat,
                                if collapses {
                                    slot as nat
                                } else {
                                    (slot + 1) as nat
                                },
                            );
                            assert(so_far + (seq![edit@] + next) =~= so_far.push(edit@) + next);
                        }
                        result.push(edit);
                        if !collapses {
                            slot += 1;
                        }
                    },
                    None => {
                        slot += 1;
                    },
                }
            },
        }
        j += 1;
    }
    let ghost compared = diffs_view(result@);
    let mut k: usize = 0;
    while k < rest.len()
        invariant
            k <= rest@.len(),
            j == b.len(),
            new_nodes == nodes_view(b@),
            rest@.len() == left_over(stay.len(), j as nat),
            diffs_view(result@) == compared + Seq::new(
                k as nat,
                |w: int| DiffView::RemoveChild(slot as nat),
            ),
        decreases rest@.len() - k,
    {
        let edit = Diff::RemoveChild(slot);
        proof {
            lemma_diffs_view_push(result@, edit);
            assert((compared + Seq::new(k as nat, |w: int| DiffView::RemoveChild(slot as nat))).push(
                edit@,
            ) =~= compared + Seq::new((k + 1) as nat, |w: int| DiffView::RemoveChild(slot as nat)));
        }
        result.push(edit);
        k += 1;
    }
    proof {
        assert(Seq::new(k as nat, |w: int| DiffView::RemoveChild(slot as nat)) =~= reconcile(
            stay,
            new_nodes,
            j as nat,
            slot as nat,
        ));
        assert(nodes_view(rest@) =~= leftover_children(old_nodes, new_nodes));
    }
    *a = rest;
    result
}

} // verus!
