//! The edit script between two trees, applied to what the host holds for
//! the old tree, gives what it holds for the new one.

use crate::edits::{
    attribute_kept, attribute_removes, attribute_sets, diff_attributes_spec, diff_handlers_spec,
    diff_node_spec, handler_removes, handler_sets, is_stale, left_over, name_dropped, patch_edits,
    prune_edits, reconcile, replaces, survivors,
};
use crate::node::{AttributeView, DiffView, ElementView, HandlerView, NodeView};
use crate::pairs::{has_name, last_value, lemma_has_name_take, lemma_value_of_name, pairs_map};
use crate::surface::{
    apply_at_root, apply_edit, apply_edits, holder, shown, shown_all, Surface, SurfaceElement,
};
use vstd::prelude::*;

verus! {

/// The element after every edit of a script.
pub open spec fn run(e: SurfaceElement, edits: Seq<DiffView>) -> SurfaceElement {
    apply_edits(e, edits, edits.len())
}

/// The first `n` edits of a script decide what the first `n` steps do.
proof fn lemma_apply_prefix(e: SurfaceElement, x: Seq<DiffView>, y: Seq<DiffView>, n: nat)
    requires
        n <= x.len(),
        n <= y.len(),
        forall|k: int| 0 <= k < n ==> x[k] == y[k],
    ensures
        apply_edits(e, x, n) == apply_edits(e, y, n),
    decreases n,
{
    if n > 0 {
        lemma_apply_prefix(e, x, y, (n - 1) as nat);
    }
}

/// A script with one more edit at its end applies the script, then the edit.
proof fn lemma_run_push(e: SurfaceElement, x: Seq<DiffView>, d: DiffView)
    ensures
        run(e, x.push(d)) == apply_edit(run(e, x), d),
{
    lemma_apply_prefix(e, x.push(d), x, x.len());
}

/// An empty script changes nothing.
proof fn lemma_run_empty(e: SurfaceElement, x: Seq<DiffView>)
    requires
        x.len() == 0,
    ensures
        run(e, x) == e,
{
}

/// Two scripts one after the other apply the first, then the second.
proof fn lemma_run_concat(e: SurfaceElement, x: Seq<DiffView>, y: Seq<DiffView>)
    ensures
        run(e, x + y) == run(run(e, x), y),
    decreases y.len(),
{
    if y.len() == 0 {
        assert(x + y =~= x);
    } else {
        let front = y.drop_last();
        lemma_run_concat(e, x, front);
        assert(x + y =~= (x + front).push(y.last()));
        lemma_run_push(e, x + front, y.last());
        assert(y =~= front.push(y.last()));
        lemma_run_push(run(e, x), front, y.last());
    }
}

/// The mapping that the old pairs give, overlaid with the new ones.
pub open spec fn merged<V>(old: Seq<(Seq<char>, V)>, new: Seq<(Seq<char>, V)>) -> Map<
    Seq<char>,
    V,
> {
    Map::new(
        |name: Seq<char>| has_name(new, name) || has_name(old, name),
        |name: Seq<char>|
            if has_name(new, name) {
                last_value(new, name).unwrap()
            } else {
                last_value(old, name).unwrap()
            },
    )
}

/// The overlaid mapping without the names that occur among the first `n` old
/// pairs and in no new pair.
pub open spec fn pruned<V>(old: Seq<(Seq<char>, V)>, new: Seq<(Seq<char>, V)>, n: int) -> Map<
    Seq<char>,
    V,
> {
    Map::new(
        |name: Seq<char>|
            has_name(new, name) || (has_name(old, name) && !has_name(old.take(n), name)),
        |name: Seq<char>|
            if has_name(new, name) {
                last_value(new, name).unwrap()
            } else {
                last_value(old, name).unwrap()
            },
    )
}

/// Overlaying nothing gives the old mapping.
proof fn lemma_merged_none<V>(old: Seq<(Seq<char>, V)>, new: Seq<(Seq<char>, V)>)
    ensures
        merged(old, new.take(0)) == pairs_map(old),
        pruned(old, new, 0) == merged(old, new),
        pruned(old, new, old.len() as int) == pairs_map(new),
{
    assert(merged(old, new.take(0)) =~= pairs_map(old));
    assert(pruned(old, new, 0) =~= merged(old, new));
    assert(old.take(old.len() as int) =~= old);
    assert(pruned(old, new, old.len() as int) =~= pairs_map(new));
}

/// Overlaying one more new pair sets its name to its value.
proof fn lemma_merged_step<V>(old: Seq<(Seq<char>, V)>, new: Seq<(Seq<char>, V)>, j: int)
    requires
        0 <= j < new.len(),
    ensures
        merged(old, new.take(j + 1)) == merged(old, new.take(j)).insert(new[j].0, new[j].1),
        (!has_name(new.take(j), new[j].0) && last_value(old, new[j].0) == Some(new[j].1))
            ==> merged(old, new.take(j + 1)) == merged(old, new.take(j)),
{
    let more = merged(old, new.take(j + 1));
    let less = merged(old, new.take(j));
    assert forall|name: Seq<char>|
        more.dom().contains(name) <==> less.insert(new[j].0, new[j].1).dom().contains(
            name,
        ) by {
        lemma_has_name_take(new, j, name);
    }
    assert forall|name: Seq<char>| #[trigger]
        more.dom().contains(name) implies more[name] == less.insert(new[j].0, new[j].1)[name] by {
        lemma_has_name_take(new, j, name);
    }
    assert(more =~= less.insert(new[j].0, new[j].1));
    if !has_name(new.take(j), new[j].0) && last_value(old, new[j].0) == Some(new[j].1) {
        lemma_value_of_name(old, new[j].0);
        assert(less.insert(new[j].0, new[j].1) =~= less);
    }
}

/// Dropping the name of one more old pair, where no new pair has it.
proof fn lemma_pruned_step<V>(old: Seq<(Seq<char>, V)>, new: Seq<(Seq<char>, V)>, j: int)
    requires
        0 <= j < old.len(),
    ensures
        pruned(old, new, j + 1) == if name_dropped(old, new, j) {
            pruned(old, new, j).remove(old[j].0)
        } else {
            pruned(old, new, j)
        },
{
    let more = pruned(old, new, j + 1);
    let less = pruned(old, new, j);
    assert forall|name: Seq<char>|
        has_name(old.take(j + 1), name) <==> (has_name(old.take(j), name) || old[j].0
            == name) by {
        lemma_has_name_take(old, j, name);
    }
    assert(has_name(old, old[j].0)) by {
        assert(old[j].0 == old[j].0);
    }
    if name_dropped(old, new, j) {
        assert(more =~= less.remove(old[j].0));
    } else {
        assert(more =~= less);
    }
}

/// What the `SetAttribute` edits for the first `n` new attributes do.
proof fn lemma_attribute_sets(
    e: SurfaceElement,
    old: Seq<AttributeView>,
    new: Seq<AttributeView>,
    n: nat,
)
    requires
        e.attributes == pairs_map(old),
        n <= new.len(),
    ensures
        run(e, attribute_sets(old, new, n)) == (SurfaceElement {
            attributes: merged(old, new.take(n as int)),
            ..e
        }),
    decreases n,
{
    if n == 0 {
        lemma_merged_none(old, new);
    } else {
        let j = (n - 1) as int;
        lemma_attribute_sets(e, old, new, j as nat);
        lemma_merged_step(old, new, j);
        if !attribute_kept(old, new, j) {
            lemma_run_push(
                e,
                attribute_sets(old, new, j as nat),
                DiffView::SetAttribute(new[j].0, new[j].1),
            );
        }
    }
}

/// What the `RemoveAttribute` edits for the first `n` old attributes do.
proof fn lemma_attribute_removes(
    e: SurfaceElement,
    old: Seq<AttributeView>,
    new: Seq<AttributeView>,
    n: nat,
)
    requires
        e.attributes == merged(old, new),
        n <= old.len(),
    ensures
        run(e, attribute_removes(old, new, n)) == (SurfaceElement {
            attributes: pruned(old, new, n as int),
            ..e
        }),
    decreases n,
{
    if n == 0 {
        lemma_merged_none(old, new);
    } else {
        let j = (n - 1) as int;
        lemma_attribute_removes(e, old, new, j as nat);
        lemma_pruned_step(old, new, j);
        if name_dropped(old, new, j) {
            lemma_run_push(
                e,
                attribute_removes(old, new, j as nat),
                DiffView::RemoveAttribute(old[j].0),
            );
        }
    }
}

/// The attribute edits turn the old attributes into the new ones.
proof fn lemma_attribute_edits(
    e: SurfaceElement,
    old: Seq<AttributeView>,
    new: Seq<AttributeView>,
)
    requires
        e.attributes == pairs_map(old),
    ensures
        run(e, diff_attributes_spec(old, new)) == (SurfaceElement {
            attributes: pairs_map(new),
            ..e
        }),
{
    let sets = attribute_sets(old, new, new.len());
    let removes = attribute_removes(old, new, old.len());
    lemma_attribute_sets(e, old, new, new.len());
    assert(new.take(new.len() as int) =~= new);
    lemma_attribute_removes(run(e, sets), old, new, old.len());
    lemma_merged_none(old, new);
    lemma_run_concat(e, sets, removes);
}

/// What the `SetHandler` edits for the first `n` new bindings do.
proof fn lemma_handler_sets(
    e: SurfaceElement,
    old: Seq<HandlerView>,
    new: Seq<HandlerView>,
    n: nat,
)
    requires
        e.handlers == pairs_map(old),
        n <= new.len(),
    ensures
        run(e, handler_sets(new, n)) == (SurfaceElement {
            handlers: merged(old, new.take(n as int)),
            ..e
        }),
    decreases n,
{
    if n == 0 {
        lemma_merged_none(old, new);
    } else {
        let j = (n - 1) as int;
        lemma_handler_sets(e, old, new, j as nat);
        lemma_merged_step(old, new, j);
        let edit = DiffView::SetHandler(new[j].0, new[j].1);
        assert(handler_sets(new, n) =~= handler_sets(new, j as nat).push(edit));
        lemma_run_push(e, handler_sets(new, j as nat), edit);
    }
}

/// What the `RemoveHandler` edits for the first `n` old bindings do.
proof fn lemma_handler_removes(
    e: SurfaceElement,
    old: Seq<HandlerView>,
    new: Seq<HandlerView>,
    n: nat,
)
    requires
        e.handlers == merged(old, new),
        n <= old.len(),
    ensures
        run(e, handler_removes(old, new, n)) == (SurfaceElement {
            handlers: pruned(old, new, n as int),
            ..e
        }),
    decreases n,
{
    if n == 0 {
        lemma_merged_none(old, new);
    } else {
        let j = (n - 1) as int;
        lemma_handler_removes(e, old, new, j as nat);
        lemma_pruned_step(old, new, j);
        if name_dropped(old, new, j) {
            lemma_run_push(
                e,
                handler_removes(old, new, j as nat),
                DiffView::RemoveHandler(old[j].0, last_value(old, old[j].0).unwrap()),
            );
        }
    }
}

/// The handler edits turn the old bindings into the new ones.
proof fn lemma_handler_edits(
    e: SurfaceElement,
    old: Seq<HandlerView>,
    new: Seq<HandlerView>,
)
    requires
        e.handlers == pairs_map(old),
    ensures
        run(e, diff_handlers_spec(old, new)) == (SurfaceElement {
            handlers: pairs_map(new),
            ..e
        }),
{
    let sets = handler_sets(new, new.len());
    let removes = handler_removes(old, new, old.len());
    lemma_handler_sets(e, old, new, new.len());
    assert(new.take(new.len() as int) =~= new);
    lemma_handler_removes(run(e, sets), old, new, old.len());
    lemma_merged_none(old, new);
    lemma_run_concat(e, sets, removes);
}

/// Whether no element of the tree has an empty node among its children.
pub open spec fn without_empty_children(n: NodeView) -> bool
    decreases n,
{
    match n {
        NodeView::Element(e) => forall|i: int|
            0 <= i < e.children.len() ==> !((#[trigger] e.children[i]) is Null)
                && without_empty_children(e.children[i]),
        _ => true,
    }
}

/// Whether the comparison of the two trees counts its positions as the host
/// does.
///
/// An empty node shows nothing, but the comparison counts it as a position.
/// The two agree where, in every pair of elements that is patched, each
/// empty child is compared with a child that is not empty.
pub open spec fn aligned(a: NodeView, b: NodeView) -> bool
    decreases b, 0nat,
{
    match (a, b) {
        (NodeView::Element(ea), NodeView::Element(eb)) => replaces(ea, eb) || aligned_children(
            ea.children,
            eb.children,
        ),
        _ => true,
    }
}

/// Whether the comparison of the two lists of children counts its positions
/// as the host does: no stale old child stands behind an empty one, no
/// empty child is compared with an empty child or is left without a partner,
/// and the children that are compared are aligned in turn.
pub open spec fn aligned_children(a: Seq<NodeView>, b: Seq<NodeView>) -> bool
    decreases b, 1nat,
{
    &&& forall|p: int, q: int|
        0 <= p < q < a.len() && (#[trigger] a[p]) is Null ==> !is_stale(#[trigger] a[q], b)
    &&& paired(survivors(a, b), b)
    &&& forall|j: int|
        0 <= j < b.len() && j < survivors(a, b).len() ==> aligned(
            survivors(a, b)[j],
            #[trigger] b[j],
        )
}

/// Whether each empty node of the survivors `s` and of the new children `b`
/// has a partner at its position that is not empty.
pub open spec fn paired(s: Seq<NodeView>, b: Seq<NodeView>) -> bool {
    &&& forall|j: int| 0 <= j < s.len() && (#[trigger] s[j]) is Null ==> j < b.len() && !(b[j] is Null)
    &&& forall|j: int| 0 <= j < b.len() && (#[trigger] b[j]) is Null ==> j < s.len() && !(s[j] is Null)
}

/// The element with other children.
pub open spec fn with_children(e: SurfaceElement, children: Seq<Surface>) -> SurfaceElement {
    SurfaceElement { children, ..e }
}

/// The survivors from the position `j` on, none where there are fewer.
pub open spec fn rest_from(s: Seq<NodeView>, j: nat) -> Seq<NodeView> {
    if j <= s.len() {
        s.skip(j as int)
    } else {
        Seq::empty()
    }
}

/// What the host holds for the nodes of a list, in order.
pub open spec fn live(nodes: Seq<NodeView>) -> Seq<Surface> {
    shown_all(nodes, nodes.len())
}

/// What the host holds for a node that shows something.
pub open spec fn render(n: NodeView) -> Surface {
    shown(n)[0]
}

/// What the host holds for an element.
pub open spec fn render_element(e: ElementView) -> SurfaceElement {
    SurfaceElement {
        name: e.name,
        attributes: pairs_map(e.attributes),
        handlers: pairs_map(e.handlers),
        children: live(e.children),
    }
}

/// A node that is not empty shows one text or one element.
proof fn lemma_shown_one(n: NodeView)
    requires
        !(n is Null),
    ensures
        shown(n) == seq![render(n)],
        n matches NodeView::Element(e) ==> render(n) == Surface::Element(render_element(e)),
{
    assert(shown(n) =~= seq![render(n)]);
}

/// What the host holds for the first `n` nodes is decided by these nodes.
proof fn lemma_shown_prefix(x: Seq<NodeView>, y: Seq<NodeView>, n: nat)
    requires
        n <= x.len(),
        n <= y.len(),
        forall|k: int| 0 <= k < n ==> x[k] == y[k],
    ensures
        shown_all(x, n) == shown_all(y, n),
    decreases n,
{
    if n > 0 {
        lemma_shown_prefix(x, y, (n - 1) as nat);
    }
}

/// What the host holds for a list with one more node at its end.
proof fn lemma_live_push(nodes: Seq<NodeView>, last: NodeView)
    ensures
        live(nodes.push(last)) == live(nodes) + shown(last),
{
    lemma_shown_prefix(nodes.push(last), nodes, nodes.len());
}

/// What the host holds for one more node of a list.
proof fn lemma_live_take(nodes: Seq<NodeView>, j: int)
    requires
        0 <= j < nodes.len(),
    ensures
        live(nodes.take(j + 1)) == live(nodes.take(j)) + shown(nodes[j]),
{
    assert(nodes.take(j + 1) =~= nodes.take(j).push(nodes[j]));
    lemma_live_push(nodes.take(j), nodes[j]);
}

/// What the host holds for two lists one after the other.
proof fn lemma_live_concat(x: Seq<NodeView>, y: Seq<NodeView>)
    ensures
        live(x + y) == live(x) + live(y),
    decreases y.len(),
{
    if y.len() == 0 {
        assert(x + y =~= x);
        assert(live(x) + live(y) =~= live(x));
    } else {
        lemma_live_concat(x, y.drop_last());
        assert(x + y =~= (x + y.drop_last()).push(y.last()));
        lemma_live_push(x + y.drop_last(), y.last());
        assert(y =~= y.drop_last().push(y.last()));
        lemma_live_push(y.drop_last(), y.last());
        assert(live(x) + (live(y.drop_last()) + shown(y.last())) =~= (live(x) + live(
            y.drop_last(),
        )) + shown(y.last()));
    }
}

/// What the host holds for the survivors from a position on.
proof fn lemma_live_rest(s: Seq<NodeView>, j: nat)
    requires
        j < s.len(),
    ensures
        live(rest_from(s, j)) == shown(s[j as int]) + live(rest_from(s, j + 1)),
{
    assert(rest_from(s, j) =~= seq![s[j as int]] + rest_from(s, j + 1));
    lemma_live_concat(seq![s[j as int]], rest_from(s, j + 1));
    assert(seq![s[j as int]] =~= Seq::<NodeView>::empty().push(s[j as int]));
    lemma_live_push(Seq::empty(), s[j as int]);
    assert(live(Seq::<NodeView>::empty()) + shown(s[j as int]) =~= shown(s[j as int]));
}

/// Nodes that are not empty show one text or one element each.
proof fn lemma_live_len(nodes: Seq<NodeView>)
    requires
        forall|i: int| 0 <= i < nodes.len() ==> !((#[trigger] nodes[i]) is Null),
    ensures
        live(nodes).len() == nodes.len(),
    decreases nodes.len(),
{
    if nodes.len() > 0 {
        lemma_live_len(nodes.drop_last());
        assert(nodes =~= nodes.drop_last().push(nodes.last()));
        lemma_live_push(nodes.drop_last(), nodes.last());
        lemma_shown_one(nodes.last());
    }
}

/// A script of one edit applies the edit.
proof fn lemma_run_one(e: SurfaceElement, d: DiffView)
    ensures
        run(e, seq![d]) == apply_edit(e, d),
{
    assert(seq![d] =~= Seq::<DiffView>::empty().push(d));
    lemma_run_push(e, Seq::empty(), d);
}

/// Every survivor is one of the old children, and a survivor that is not
/// empty comes from the old children before which none is empty, where none
/// of them is.
proof fn lemma_survivors_not_empty(old: Seq<NodeView>, new: Seq<NodeView>)
    requires
        forall|i: int| 0 <= i < old.len() ==> !((#[trigger] old[i]) is Null),
    ensures
        forall|i: int|
            0 <= i < survivors(old, new).len() ==> !((#[trigger] survivors(old, new)[i]) is Null),
    decreases old.len(),
{
    if old.len() > 0 {
        assert forall|i: int| 0 <= i < old.drop_last().len() implies !((
        #[trigger] old.drop_last()[i]) is Null) by {
            assert(old.drop_last()[i] == old[i]);
        }
        lemma_survivors_not_empty(old.drop_last(), new);
        assert(old.last() == old[old.len() - 1]);
    }
}

/// Dropping the stale old children leaves the survivors, whatever stands
/// behind the old children.
proof fn lemma_prune(e: SurfaceElement, old: Seq<NodeView>, new: Seq<NodeView>, tail: Seq<Surface>)
    requires
        e.children == live(old) + tail,
        forall|p: int, q: int|
            0 <= p < q < old.len() && (#[trigger] old[p]) is Null ==> !is_stale(
                #[trigger] old[q],
                new,
            ),
    ensures
        run(e, prune_edits(old, new, 0)) == with_children(e, live(survivors(old, new)) + tail),
    decreases old.len(),
{
    if old.len() == 0 {
        assert(live(survivors(old, new)) + tail =~= e.children);
    } else {
        let front = old.drop_last();
        let last = shown(old.last());
        let stay = live(survivors(front, new));
        assert(old =~= front.push(old.last()));
        lemma_live_push(front, old.last());
        assert(live(old) + tail =~= live(front) + (last + tail));
        assert forall|p: int, q: int|
            0 <= p < q < front.len() && (#[trigger] front[p]) is Null implies !is_stale(
            #[trigger] front[q],
            new,
        ) by {
            assert(front[p] == old[p] && front[q] == old[q]);
        }
        lemma_prune(e, front, new, last + tail);
        if is_stale(old.last(), new) {
            let edit = DiffView::RemoveChild(survivors(front, new).len());
            lemma_run_push(e, prune_edits(front, new, 0), edit);
            assert forall|p: int| 0 <= p < front.len() implies !((#[trigger] front[p]) is Null) by {
                assert(front[p] == old[p]);
                assert(old[old.len() - 1] == old.last());
            }
            lemma_survivors_not_empty(front, new);
            lemma_live_len(survivors(front, new));
            lemma_shown_one(old.last());
            assert((stay + (last + tail)).remove(stay.len() as int) =~= stay + tail);
        } else {
            lemma_live_push(survivors(front, new), old.last());
            assert(live(survivors(front, new).push(old.last())) + tail =~= stay + (last + tail));
        }
    }
}

/// Removing what stands behind the kept children, one child at a time at
/// the position behind the kept ones.
proof fn lemma_remove_rest(e: SurfaceElement, kept: Seq<Surface>, rest: Seq<Surface>, n: nat)
    requires
        e.children == kept + rest,
        n <= rest.len(),
    ensures
        run(e, Seq::new(n, |k: int| DiffView::RemoveChild(kept.len()))) == with_children(
            e,
            kept + rest.skip(n as int),
        ),
    decreases n,
{
    let edit = DiffView::RemoveChild(kept.len());
    if n == 0 {
        assert(kept + rest.skip(0) =~= e.children);
    } else {
        let before = Seq::new((n - 1) as nat, |k: int| edit);
        lemma_remove_rest(e, kept, rest, (n - 1) as nat);
        assert(Seq::new(n, |k: int| edit) =~= before.push(edit));
        lemma_run_push(e, before, edit);
        assert((kept + rest.skip(n - 1)).remove(kept.len() as int) =~= kept + rest.skip(
            n as int,
        ));
    }
}

/// Comparing the survivors with the new children by position, from the
/// child `j` on, leaves the new children.
proof fn lemma_reconcile(e: SurfaceElement, s: Seq<NodeView>, b: Seq<NodeView>, j: nat, i: nat)
    requires
        paired(s, b),
        forall|k: int| 0 <= k < b.len() && k < s.len() ==> aligned(s[k], #[trigger] b[k]),
        j <= b.len(),
        e.children == live(b.take(j as int)) + live(rest_from(s, j)),
        i == live(b.take(j as int)).len(),
    ensures
        run(e, reconcile(s, b, j, i)) == with_children(e, live(b)),
    decreases b, b.len() - j,
{
    let done = live(b.take(j as int));
    if j >= b.len() {
        assert(b.take(j as int) =~= b);
        let rest = rest_from(s, j);
        assert forall|k: int| 0 <= k < rest.len() implies !((#[trigger] rest[k]) is Null) by {
            assert(rest[k] == s[j + k]);
        }
        lemma_live_len(rest);
        lemma_remove_rest(e, done, live(rest), left_over(s.len(), j));
        assert(done + live(rest).skip(left_over(s.len(), j) as int) =~= done);
    } else {
        let old_rest = live(rest_from(s, j + 1));
        lemma_live_take(b, j as int);
        if j >= s.len() {
            let edit = DiffView::AddChild(i, b[j as int]);
            let e1 = apply_edit(e, edit);
            lemma_shown_one(b[j as int]);
            assert(live(rest_from(s, j)) =~= Seq::<Surface>::empty());
            assert(old_rest =~= Seq::<Surface>::empty());
            assert(e1.children =~= live(b.take(j as int + 1)) + old_rest);
            lemma_reconcile(e1, s, b, j + 1, i + 1);
            lemma_run_one(e, edit);
            lemma_run_concat(e, seq![edit], reconcile(s, b, j + 1, i + 1));
        } else {
            lemma_live_rest(s, j);
            let old_child = s[j as int];
            let new_child = b[j as int];
            if old_child is Null {
                let edit = DiffView::AddChild(i, new_child);
                let e1 = apply_edit(e, edit);
                lemma_shown_one(new_child);
                assert(e.children =~= done + old_rest);
                assert(e1.children =~= live(b.take(j as int + 1)) + old_rest);
                lemma_reconcile(e1, s, b, j + 1, i + 1);
                lemma_run_one(e, edit);
                lemma_run_concat(e, seq![edit], reconcile(s, b, j + 1, i + 1));
            } else if new_child is Null {
                let edit = DiffView::RemoveChild(i);
                let e1 = apply_edit(e, edit);
                lemma_shown_one(old_child);
                assert(e.children =~= done + (seq![render(old_child)] + old_rest));
                assert(e1.children =~= live(b.take(j as int + 1)) + old_rest);
                lemma_reconcile(e1, s, b, j + 1, i);
                lemma_run_one(e, edit);
                lemma_run_concat(e, seq![edit], reconcile(s, b, j + 1, i));
            } else {
                lemma_shown_one(old_child);
                lemma_shown_one(new_child);
                assert(e.children =~= done + (seq![render(old_child)] + old_rest));
                assert(e.children[i as int] == render(old_child));
                lemma_node_edit(e, old_child, new_child, i);
                match diff_node_spec(old_child, new_child, i) {
                    None => {
                        assert(e.children =~= live(b.take(j as int + 1)) + old_rest);
                        lemma_reconcile(e, s, b, j + 1, i + 1);
                    },
                    Some(edit) => {
                        let e1 = apply_edit(e, edit);
                        assert(e1.children =~= live(b.take(j as int + 1)) + old_rest);
                        lemma_reconcile(e1, s, b, j + 1, i + 1);
                        lemma_run_one(e, edit);
                        lemma_run_concat(e, seq![edit], reconcile(s, b, j + 1, i + 1));
                    },
                }
            }
        }
    }
}

/// The edit between two nodes that both show something turns the child at
/// its position into the new node, and is no removal.
proof fn lemma_node_edit(e: SurfaceElement, a: NodeView, b: NodeView, i: nat)
    requires
        !(a is Null),
        !(b is Null),
        aligned(a, b),
        i < e.children.len(),
        e.children[i as int] == render(a),
    ensures
        match diff_node_spec(a, b, i) {
            None => render(a) == render(b),
            Some(d) => !(d is RemoveChild) && apply_edit(e, d) == with_children(
                e,
                e.children.update(i as int, render(b)),
            ),
        },
    decreases b, 0nat,
{
    lemma_shown_one(a);
    lemma_shown_one(b);
    assert(e.children.take(i as int) + seq![render(b)] + e.children.skip(i as int + 1)
        =~= e.children.update(i as int, render(b)));
    match (a, b) {
        (NodeView::Element(ea), NodeView::Element(eb)) => {
            if !replaces(ea, eb) {
                lemma_element_edits(ea, eb);
                if patch_edits(ea, eb).len() == 0 {
                    lemma_run_empty(render_element(ea), patch_edits(ea, eb));
                }
            }
        },
        _ => {},
    }
}

/// The edits inside a patched element turn the old element into the new one.
proof fn lemma_element_edits(ea: ElementView, eb: ElementView)
    requires
        !replaces(ea, eb),
        aligned_children(ea.children, eb.children),
    ensures
        run(render_element(ea), patch_edits(ea, eb)) == render_element(eb),
    decreases eb,
{
    let e0 = render_element(ea);
    let attribute_edits = diff_attributes_spec(ea.attributes, eb.attributes);
    let handler_edits = diff_handlers_spec(ea.handlers, eb.handlers);
    let pruning = prune_edits(ea.children, eb.children, 0);
    let stay = survivors(ea.children, eb.children);
    let comparing = reconcile(stay, eb.children, 0, 0);
    lemma_attribute_edits(e0, ea.attributes, eb.attributes);
    let e1 = run(e0, attribute_edits);
    lemma_handler_edits(e1, ea.handlers, eb.handlers);
    let e2 = run(e1, handler_edits);
    assert(e2.children =~= live(ea.children) + Seq::<Surface>::empty());
    lemma_prune(e2, ea.children, eb.children, Seq::empty());
    let e3 = run(e2, pruning);
    assert(eb.children.take(0) =~= Seq::<NodeView>::empty());
    assert(rest_from(stay, 0) =~= stay);
    assert(e3.children =~= live(eb.children.take(0)) + live(rest_from(stay, 0)));
    lemma_reconcile(e3, stay, eb.children, 0, 0);
    lemma_run_concat(e0, attribute_edits, handler_edits);
    lemma_run_concat(e2, pruning, comparing);
    lemma_run_concat(e0, attribute_edits + handler_edits, pruning + comparing);
    assert(patch_edits(ea, eb) =~= (attribute_edits + handler_edits) + (pruning + comparing));
}

/// Trees without empty children are aligned.
pub proof fn lemma_aligned_without_empty_children(a: NodeView, b: NodeView)
    requires
        without_empty_children(a),
        without_empty_children(b),
    ensures
        aligned(a, b),
    decreases b,
{
    match (a, b) {
        (NodeView::Element(ea), NodeView::Element(eb)) => {
            let s = survivors(ea.children, eb.children);
            lemma_survivors_kept(ea.children, eb.children);
            assert forall|j: int| 0 <= j < eb.children.len() && j < s.len() implies aligned(
                s[j],
                #[trigger] eb.children[j],
            ) by {
                lemma_aligned_without_empty_children(s[j], eb.children[j]);
            }
        },
        _ => {},
    }
}

/// The survivors of children that are not empty and have no empty children
/// are such children too.
proof fn lemma_survivors_kept(old: Seq<NodeView>, new: Seq<NodeView>)
    requires
        forall|i: int|
            0 <= i < old.len() ==> !((#[trigger] old[i]) is Null) && without_empty_children(
                old[i],
            ),
    ensures
        forall|i: int|
            0 <= i < survivors(old, new).len() ==> !((#[trigger] survivors(old, new)[i]) is Null)
                && without_empty_children(survivors(old, new)[i]),
    decreases old.len(),
{
    if old.len() > 0 {
        assert forall|i: int| 0 <= i < old.drop_last().len() implies !((
        #[trigger] old.drop_last()[i]) is Null) && without_empty_children(old.drop_last()[i]) by {
            assert(old.drop_last()[i] == old[i]);
        }
        lemma_survivors_kept(old.drop_last(), new);
        assert(old.last() == old[old.len() - 1]);
    }
}

/// Applying the edit of a render cycle to what the host holds for the old
/// tree gives what it holds for the new tree, where the two trees are
/// aligned.
///
/// Trees that are not aligned are left out: there an empty child is counted
/// as a position although it shows nothing, so that an edit behind it is
/// addressed one position too far.
pub proof fn lemma_round_trip(a: NodeView, b: NodeView)
    requires
        aligned(a, b),
    ensures
        apply_at_root(shown(a), diff_node_spec(a, b, 0)) == shown(b),
{
    let none = Seq::<Surface>::empty();
    if a is Null {
        if !(b is Null) {
            assert(none.take(0) + shown(b) + none.skip(0) =~= shown(b));
        }
    } else if b is Null {
        lemma_shown_one(a);
        assert(seq![render(a)].remove(0) =~= none);
    } else {
        lemma_shown_one(a);
        lemma_shown_one(b);
        lemma_node_edit(holder(shown(a)), a, b, 0);
        assert(seq![render(a)].update(0, render(b)) =~= seq![render(b)]);
    }
}

/// Applying the edit of a render cycle to what the host holds for the old
/// tree gives what it holds for the new tree, where no element of either
/// tree has an empty node among its children.
pub proof fn lemma_round_trip_without_empty_children(a: NodeView, b: NodeView)
    requires
        without_empty_children(a),
        without_empty_children(b),
    ensures
        apply_at_root(shown(a), diff_node_spec(a, b, 0)) == shown(b),
{
    lemma_aligned_without_empty_children(a, b);
    lemma_round_trip(a, b);
}

} // verus!
