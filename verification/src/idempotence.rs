//! A tree compared with itself needs no edit.

use crate::edits::{
    attribute_kept, attribute_removes, attribute_sets, diff_node_spec, handler_removes,
    handler_sets, has_key, is_stale, patch_edits, prune_edits, reconcile, replaces, survivors,
};
use crate::node::{node_key, AttributeView, NodeView};
use crate::pairs::{distinct_names, has_name, lemma_last_value_at};
use vstd::prelude::*;

verus! {

/// Whether the names of the attributes are distinct in every element of the
/// tree.
pub open spec fn distinct_attributes(n: NodeView) -> bool
    decreases n,
{
    match n {
        NodeView::Element(e) => {
            &&& distinct_names(e.attributes)
            &&& forall|i: int|
                0 <= i < e.children.len() ==> distinct_attributes(#[trigger] e.children[i])
        },
        _ => true,
    }
}

/// Whether no element of the tree has an event binding.
pub open spec fn without_handlers(n: NodeView) -> bool
    decreases n,
{
    match n {
        NodeView::Element(e) => {
            &&& e.handlers.len() == 0
            &&& forall|i: int|
                0 <= i < e.children.len() ==> without_handlers(#[trigger] e.children[i])
        },
        _ => true,
    }
}

/// Attributes with distinct names, compared with themselves, need no
/// `SetAttribute`.
proof fn lemma_same_attributes_set_nothing(attributes: Seq<AttributeView>, n: nat)
    requires
        distinct_names(attributes),
        n <= attributes.len(),
    ensures
        attribute_sets(attributes, attributes, n).len() == 0,
    decreases n,
{
    if n > 0 {
        let j = n - 1;
        lemma_same_attributes_set_nothing(attributes, j as nat);
        lemma_last_value_at(attributes, attributes[j].0, j);
        assert(!has_name(attributes.take(j), attributes[j].0)) by {
            if has_name(attributes.take(j), attributes[j].0) {
                let w = choose|w: int|
                    0 <= w < attributes.take(j).len() && (#[trigger] attributes.take(j)[w]).0
                        == attributes[j].0;
                assert(attributes[w].0 == attributes[j].0);
            }
        }
        assert(attribute_kept(attributes, attributes, j));
    }
}

/// Attributes compared with themselves need no `RemoveAttribute`.
proof fn lemma_same_attributes_remove_nothing(attributes: Seq<AttributeView>, n: nat)
    requires
        n <= attributes.len(),
    ensures
        attribute_removes(attributes, attributes, n).len() == 0,
    decreases n,
{
    if n > 0 {
        let j = n - 1;
        lemma_same_attributes_remove_nothing(attributes, j as nat);
        assert(attributes[j].0 == attributes[j].0);
        assert(has_name(attributes, attributes[j].0));
    }
}

/// Children compared with themselves: none is stale.
proof fn lemma_same_children_survive(children: Seq<NodeView>, n: nat)
    requires
        n <= children.len(),
    ensures
        survivors(children.take(n as int), children) == children.take(n as int),
        prune_edits(children.take(n as int), children, 0).len() == 0,
    decreases n,
{
    if n > 0 {
        let j = n - 1;
        lemma_same_children_survive(children, j as nat);
        assert(children.take(n as int).drop_last() =~= children.take(j));
        assert(children.take(n as int).last() == children[j]);
        assert(!is_stale(children[j], children)) by {
            if node_key(children[j]) is Some {
                assert(node_key(children[j]) == Some(node_key(children[j]).unwrap()));
                assert(has_key(children, node_key(children[j]).unwrap()));
            }
        }
        assert(children.take(j).push(children[j]) =~= children.take(n as int));
    } else {
        assert(children.take(0) =~= Seq::<NodeView>::empty());
    }
}

/// Children compared with themselves by position, from the child `j` on,
/// need no edit.
proof fn lemma_same_children_reconcile(children: Seq<NodeView>, j: nat, i: nat)
    requires
        j <= children.len(),
        forall|k: int|
            0 <= k < children.len() ==> distinct_attributes(#[trigger] children[k])
                && without_handlers(children[k]),
    ensures
        reconcile(children, children, j, i).len() == 0,
    decreases children, children.len() - j,
{
    if j < children.len() {
        lemma_diff_same_tree(children[j as int], i);
        lemma_same_children_reconcile(children, j + 1, i + 1);
    }
}

/// Diffing a tree against itself yields no edit, at any position and at any
/// nesting depth, for a text, an element and an empty node.
///
/// This holds of trees in which the names of an element's attributes are
/// distinct and no element has an event binding: a binding always gives a
/// `SetHandler`, whatever the old tree held.
pub proof fn lemma_diff_same_tree(tree: NodeView, i: nat)
    requires
        distinct_attributes(tree),
        without_handlers(tree),
    ensures
        diff_node_spec(tree, tree, i) is None,
    decreases tree,
{
    match tree {
        NodeView::Element(e) => {
            lemma_same_attributes_set_nothing(e.attributes, e.attributes.len());
            lemma_same_attributes_remove_nothing(e.attributes, e.attributes.len());
            lemma_same_children_survive(e.children, e.children.len());
            assert(e.children.take(e.children.len() as int) =~= e.children);
            lemma_same_children_reconcile(e.children, 0, 0);
            assert(handler_sets(e.handlers, 0).len() == 0);
            assert(handler_removes(e.handlers, e.handlers, 0).len() == 0);
            assert(patch_edits(e, e).len() == 0);
            assert(!replaces(e, e));
        },
        _ => {},
    }
}

} // verus!
