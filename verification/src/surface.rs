//! A model of the host's live surface, and of what an edit does to it.
//!
//! The host keeps, for each element, its attributes and its event bindings
//! by name, and its children in order. It applies the edits of a script one
//! after another; a child edit is addressed by the position that the child
//! has at that moment.

use crate::node::{AttributeValueView, DiffView, NodeView};
use crate::pairs::pairs_map;
use vstd::prelude::*;

verus! {

/// An element as the host holds it.
pub ghost struct SurfaceElement {
    pub name: Seq<char>,
    pub attributes: Map<Seq<char>, AttributeValueView>,
    pub handlers: Map<Seq<char>, Seq<char>>,
    pub children: Seq<Surface>,
}

/// What the host holds for a node that shows something: a text or an
/// element.
pub ghost enum Surface {
    Text(Seq<char>),
    Element(SurfaceElement),
}

/// What the host holds for the node: nothing for an empty node, else one
/// text or one element. The attributes and the event bindings of an element
/// are held by name, and its children are what the host holds for each
/// child in order.
pub open spec fn shown(n: NodeView) -> Seq<Surface>
    decreases n, 0nat,
{
    match n {
        NodeView::Text(s) => seq![Surface::Text(s)],
        NodeView::Element(e) => seq![
            Surface::Element(
                SurfaceElement {
                    name: e.name,
                    attributes: pairs_map(e.attributes),
                    handlers: pairs_map(e.handlers),
                    children: shown_all(e.children, e.children.len()),
                },
            ),
        ],
        NodeView::Null => Seq::empty(),
    }
}

/// What the host holds for the first `n` nodes of a list, in order.
pub open spec fn shown_all(nodes: Seq<NodeView>, n: nat) -> Seq<Surface>
    decreases nodes, n,
{
    if n == 0 || n > nodes.len() {
        Seq::empty()
    } else {
        shown_all(nodes, (n - 1) as nat) + shown(nodes[n - 1])
    }
}

/// The element after one edit: an attribute or an event binding is set or
/// removed by its name; a child is added before the position, replaced or
/// removed at the position, or patched by the edits inside.
pub open spec fn apply_edit(e: SurfaceElement, d: DiffView) -> SurfaceElement
    decreases d, 0nat,
{
    match d {
        DiffView::SetAttribute(name, value) => SurfaceElement {
            attributes: e.attributes.insert(name, value),
            ..e
        },
        DiffView::RemoveAttribute(name) => SurfaceElement {
            attributes: e.attributes.remove(name),
            ..e
        },
        DiffView::SetHandler(kind, id) => SurfaceElement {
            handlers: e.handlers.insert(kind, id),
            ..e
        },
        DiffView::RemoveHandler(kind, id) => SurfaceElement {
            handlers: e.handlers.remove(kind),
            ..e
        },
        DiffView::AddChild(i, n) => SurfaceElement {
            children: e.children.take(i as int) + shown(n) + e.children.skip(i as int),
            ..e
        },
        DiffView::ReplaceChild(i, n) => SurfaceElement {
            children: e.children.take(i as int) + shown(n) + e.children.skip(i as int + 1),
            ..e
        },
        DiffView::RemoveChild(i) => SurfaceElement { children: e.children.remove(i as int), ..e },
        DiffView::PatchChild(i, edits) => SurfaceElement {
            children: e.children.update(
                i as int,
                match e.children[i as int] {
                    Surface::Element(child) => Surface::Element(
                        apply_edits(child, edits, edits.len()),
                    ),
                    other => other,
                },
            ),
            ..e
        },
    }
}

/// The element after the first `n` edits of a script, applied in order.
pub open spec fn apply_edits(e: SurfaceElement, edits: Seq<DiffView>, n: nat) -> SurfaceElement
    decreases edits, n,
{
    if n == 0 || n > edits.len() {
        e
    } else {
        apply_edit(apply_edits(e, edits, (n - 1) as nat), edits[n - 1])
    }
}

/// An element that holds the given children and nothing else.
pub open spec fn holder(children: Seq<Surface>) -> SurfaceElement {
    SurfaceElement {
        name: Seq::empty(),
        attributes: Map::empty(),
        handlers: Map::empty(),
        children,
    }
}

/// What the host holds at the root after the edit of a render cycle, if
/// there is one.
pub open spec fn apply_at_root(shown: Seq<Surface>, edit: Option<DiffView>) -> Seq<Surface> {
    match edit {
        Some(d) => apply_edit(holder(shown), d).children,
        None => shown,
    }
}

} // verus!
