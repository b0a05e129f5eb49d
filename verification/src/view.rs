//! Building a view: a node tree together with the registry that maps each
//! handler id of the tree to its callback.

use crate::ids::{uuid, uuid_text};
use crate::node::{
    attributes_view, handlers_view, nodes_view, Attribute, Element, ElementView, Handler,
    HandlerView, Node, NodeView,
};
use crate::pairs::{
    has_name, last_value, lemma_last_value_at, lemma_pairs_map_take, lemma_value_of_name,
    pairs_map,
};
use crate::vecs::take_in_reverse;
use vstd::prelude::*;
use vstd::view::View as _;

verus! {

/// `serde_json::Value`, the type of an event payload. Nothing is stated of
/// a value: the library only carries it from the host to a callback.
#[verifier::external_type_specification]
#[verifier::external_body]
pub struct ExValue(serde_json::Value);

/// The payload of an event, as the host hands it to a callback.
pub type HandlerArg = serde_json::Value;

/// What a callback does: it reads the payload of an event and answers with
/// an action, or with `None` where it declines the event.
trait Callback<A> {
    /// Whether the callback takes the payload.
    spec fn accepts(&self, arg: HandlerArg) -> bool;

    /// Whether `res` is an answer of the callback to the payload.
    spec fn answers(&self, arg: HandlerArg, res: Option<A>) -> bool;

    /// An answer to the payload.
    fn call(&self, arg: HandlerArg) -> (res: Option<A>)
        requires
            self.accepts(arg),
        ensures
            self.answers(arg, res),
    ;
}

/// A closure as a callback: it takes what the closure takes, and its
/// answers are those of the closure.
struct Closure<F> {
    f: F,
}

impl<A, F: Fn(HandlerArg) -> Option<A>> Callback<A> for Closure<F> {
    spec fn accepts(&self, arg: HandlerArg) -> bool {
        call_requires(self.f, (arg,))
    }

    spec fn answers(&self, arg: HandlerArg, res: Option<A>) -> bool {
        call_ensures(self.f, (arg,), res)
    }

    /// The answer of the closure to the payload.
    fn call(&self, arg: HandlerArg) -> (res: Option<A>) {
        (self.f)(arg)
    }
}

/// The callback of a handler id. It takes every payload.
#[verifier::reject_recursive_types(A)]
pub struct HandlerFunction<A> {
    callback: Box<dyn Callback<A>>,
}

impl<A> HandlerFunction<A> {
    #[verifier::type_invariant]
    spec fn takes_every_payload(&self) -> bool {
        forall|arg: HandlerArg| self.callback.accepts(arg)
    }

    /// Whether `res` is an answer of the callback to the payload.
    pub closed spec fn answers(&self, arg: HandlerArg, res: Option<A>) -> bool {
        self.callback.answers(arg, res)
    }

    /// The closure as the callback of a handler id: its answers are those
    /// of the closure. The closure is one that takes every payload; it
    /// declines a payload by answering `None`.
    pub fn new<F>(f: F) -> (res: HandlerFunction<A>) where F: Fn(HandlerArg) -> Option<A> + 'static
        requires
            forall|arg: HandlerArg| call_requires(f, (arg,)),
        ensures
            forall|arg: HandlerArg, answer: Option<A>|
                res.answers(arg, answer) <==> call_ensures(f, (arg,), answer),
    {
        HandlerFunction { callback: Box::new(Closure { f }) }
    }

    /// An answer of the callback to the payload.
    pub fn call(&self, arg: HandlerArg) -> (res: Option<A>)
        ensures
            self.answers(arg, res),
    {
        proof {
            use_type_invariant(self);
        }
        self.callback.call(arg)
    }
}

/// The closure as a callback under a fresh handler id, which is the text of
/// a random UUID. The closure is one that takes every payload; it declines
/// a payload by answering `None`.
pub fn handler<A, F>(f: F) -> (res: (String, HandlerFunction<A>)) where
    F: Fn(HandlerArg) -> Option<A> + 'static,

    requires
        forall|arg: HandlerArg| call_requires(f, (arg,)),
    ensures
        exists|bytes: Seq<u8>| bytes.len() == 16 && res.0@ == uuid_text(bytes),
        forall|arg: HandlerArg, answer: Option<A>|
            res.1.answers(arg, answer) <==> call_ensures(f, (arg,), answer),
{
    (uuid(), HandlerFunction::new(f))
}

/// The registry of a render: each handler id with its callback.
///
/// The registry is a list of entries in which the last entry with an id
/// decides the callback of the id.
#[verifier::reject_recursive_types(A)]
pub struct HandlerMap<A> {
    entries: Vec<(String, HandlerFunction<A>)>,
}

/// The entries of a registry as pairs of the id's characters and the
/// callback.
pub open spec fn entries_view<A>(entries: Seq<(String, HandlerFunction<A>)>) -> Seq<
    (Seq<char>, HandlerFunction<A>),
> {
    Seq::new(entries.len(), |i: int| (entries[i].0@, entries[i].1))
}

impl<A> vstd::view::View for HandlerMap<A> {
    type V = Map<Seq<char>, HandlerFunction<A>>;

    closed spec fn view(&self) -> Map<Seq<char>, HandlerFunction<A>> {
        pairs_map(entries_view(self.entries@))
    }
}

/// Taking a pair out of a list leaves every other name as it was.
proof fn lemma_remove_at<V>(pairs: Seq<(Seq<char>, V)>, i: int, name: Seq<char>)
    requires
        0 <= i < pairs.len(),
        name != pairs[i].0,
    ensures
        last_value(pairs.remove(i), name) == last_value(pairs, name),
        has_name(pairs.remove(i), name) <==> has_name(pairs, name),
    decreases pairs.len(),
{
    let less = pairs.remove(i);
    if i == pairs.len() - 1 {
        assert(less =~= pairs.drop_last());
    } else {
        assert(less.last() == pairs.last());
        assert(less.drop_last() =~= pairs.drop_last().remove(i));
        if pairs.last().0 != name {
            lemma_remove_at(pairs.drop_last(), i, name);
        }
    }
    lemma_value_of_name(pairs, name);
    lemma_value_of_name(less, name);
}

/// A pair at the end of a list sets its name to its value.
proof fn lemma_push_pair<V>(pairs: Seq<(Seq<char>, V)>, name: Seq<char>, value: V)
    ensures
        pairs_map(pairs.push((name, value))) == pairs_map(pairs).insert(name, value),
{
    let more = pairs.push((name, value));
    assert(more.take(pairs.len() as int) =~= pairs);
    assert(more.take(pairs.len() as int + 1) =~= more);
    lemma_pairs_map_take(more, pairs.len() as int);
}

impl<A> HandlerMap<A> {
    /// An empty registry.
    pub fn new() -> (res: HandlerMap<A>)
        ensures
            res@ == Map::<Seq<char>, HandlerFunction<A>>::empty(),
    {
        let res = HandlerMap { entries: Vec::new() };
        assert(res@ =~= Map::<Seq<char>, HandlerFunction<A>>::empty());
        res
    }

    /// Where the last entry of the id stands, if there is one.
    fn last_position(&self, id: &String) -> (res: Option<usize>)
        ensures
            match res {
                Some(i) => {
                    &&& i < self.entries@.len()
                    &&& entries_view(self.entries@)[i as int].0 == id@
                    &&& last_value(entries_view(self.entries@), id@) == Some(self.entries@[i as int].1)
                },
                None => !has_name(entries_view(self.entries@), id@),
            },
    {
        let ghost entries = entries_view(self.entries@);
        let mut k: usize = self.entries.len();
        while k > 0
            invariant
                k <= self.entries@.len(),
                entries == entries_view(self.entries@),
                forall|j: int| k <= j < entries.len() ==> entries[j].0 != id@,
            decreases k,
        {
            k -= 1;
            if self.entries[k].0 == *id {
                proof {
                    lemma_last_value_at(entries, id@, k as int);
                }
                return Some(k);
            }
        }
        None
    }

    /// Whether the registry holds a callback for the id.
    pub fn contains_key(&self, id: &str) -> (res: bool)
        ensures
            res == self@.contains_key(id@),
    {
        let key = id.to_owned();
        match self.last_position(&key) {
            Some(i) => {
                proof {
                    lemma_value_of_name(entries_view(self.entries@), id@);
                }
                true
            },
            None => false,
        }
    }

    /// Whether the registry holds no callback.
    pub fn is_empty(&self) -> (res: bool)
        ensures
            res == (self@ == Map::<Seq<char>, HandlerFunction<A>>::empty()),
    {
        let res = self.entries.len() == 0;
        proof {
            if res {
                assert(self@ =~= Map::<Seq<char>, HandlerFunction<A>>::empty());
            } else {
                let entries = entries_view(self.entries@);
                assert(entries[0].0 == entries[0].0);
                assert(self@.contains_key(entries[0].0));
            }
        }
        res
    }

    /// Takes the callback of the id out of the registry.
    pub fn remove(&mut self, id: &str) -> (res: Option<HandlerFunction<A>>)
        ensures
            final(self)@ == old(self)@.remove(id@),
            res == if old(self)@.contains_key(id@) {
                Some(old(self)@[id@])
            } else {
                None::<HandlerFunction<A>>
            },
    {
        let ghost before = entries_view(self.entries@);
        let key = id.to_owned();
        let mut res: Option<HandlerFunction<A>> = None;
        let mut found = self.last_position(&key);
        while found.is_some()
            invariant
                key@ == id@,
                match found {
                    Some(i) => i < self.entries@.len() && entries_view(self.entries@)[i as int].0
                        == id@,
                    None => !has_name(entries_view(self.entries@), id@),
                },
                forall|name: Seq<char>|
                    name != id@ ==> last_value(entries_view(self.entries@), name) == last_value(
                        before,
                        name,
                    ) && (has_name(entries_view(self.entries@), name) <==> has_name(before, name)),
                res is None ==> entries_view(self.entries@) == before && (found matches Some(i)
                    ==> last_value(before, id@) == Some(self.entries@[i as int].1)),
                res is Some ==> res == last_value(before, id@),
            decreases self.entries@.len(),
        {
            let i = found.unwrap();
            let ghost current = entries_view(self.entries@);
            let entry = self.entries.remove(i);
            proof {
                assert(entries_view(self.entries@) =~= current.remove(i as int));
                assert forall|name: Seq<char>| name != id@ implies last_value(
                    entries_view(self.entries@),
                    name,
                ) == last_value(before, name) && (has_name(entries_view(self.entries@), name)
                    <==> has_name(before, name)) by {
                    lemma_remove_at(current, i as int, name);
                }
            }
            if res.is_none() {
                res = Some(entry.1);
            }
            found = self.last_position(&key);
        }
        proof {
            lemma_value_of_name(before, id@);
            assert(self@ =~= pairs_map(before).remove(id@));
        }
        res
    }

    /// Puts the callback under the id, in place of the callback that the id
    /// had, which is handed back.
    pub fn insert(&mut self, id: String, f: HandlerFunction<A>) -> (res: Option<HandlerFunction<A>>)
        ensures
            final(self)@ == old(self)@.insert(id@, f),
            res == if old(self)@.contains_key(id@) {
                Some(old(self)@[id@])
            } else {
                None::<HandlerFunction<A>>
            },
    {
        let ghost before = self@;
        let res = self.remove(id.as_str());
        proof {
            lemma_push_pair(entries_view(self.entries@), id@, f);
            assert(entries_view(self.entries@.push((id, f))) =~= entries_view(self.entries@).push(
                (id@, f),
            ));
            assert(before.remove(id@).insert(id@, f) =~= before.insert(id@, f));
        }
        self.entries.push((id, f));
        res
    }

    /// Puts every callback of the other registry into this one, in place of
    /// the callback that its id had here.
    pub fn extend(&mut self, other: HandlerMap<A>)
        ensures
            final(self)@ == old(self)@.union_prefer_right(other@),
    {
        let ghost theirs = entries_view(other.entries@);
        let ghost mine = self@;
        let mut entries = other.entries;
        let mut pending = take_in_reverse(&mut entries);
        let ghost total = pending@.len();
        proof {
            assert(mine.union_prefer_right(pairs_map(theirs.take(0))) =~= mine);
        }
        while pending.len() > 0
            invariant
                pending@.len() <= total == theirs.len(),
                forall|k: int|
                    0 <= k < pending@.len() ==> (#[trigger] pending@[k]).0@ == theirs[total - 1
                        - k].0 && pending@[k].1 == theirs[total - 1 - k].1,
                self@ == mine.union_prefer_right(pairs_map(theirs.take(total - pending@.len()))),
            decreases pending@.len(),
        {
            let ghost done = total - pending@.len();
            match pending.pop() {
                Some(entry) => {
                    proof {
                        lemma_pairs_map_take(theirs, done);
                        assert(mine.union_prefer_right(
                            pairs_map(theirs.take(done)).insert(entry.0@, entry.1),
                        ) =~= mine.union_prefer_right(pairs_map(theirs.take(done))).insert(
                            entry.0@,
                            entry.1,
                        ));
                    }
                    self.insert(entry.0, entry.1);
                },
                None => {},
            }
        }
        proof {
            assert(theirs.take(total as int) =~= theirs);
        }
    }
}

/// A node tree with the registry of its callbacks.
#[verifier::reject_recursive_types(A)]
pub struct View<A> {
    node: Node,
    handler_map: HandlerMap<A>,
}

/// A child of a view that is being built: one view, or a list of views that
/// stand side by side.
#[verifier::reject_recursive_types(A)]
pub enum Child<A> {
    View(View<A>),
    ViewList(Vec<View<A>>),
}

/// A declared event binding: the event kind, the handler id and the
/// callback.
pub type Binding<A> = (String, (String, HandlerFunction<A>));

/// The event bindings that the declarations give an element.
pub open spec fn bound_handlers<A>(handlers: Seq<Binding<A>>) -> Seq<HandlerView> {
    Seq::new(handlers.len(), |i: int| (handlers[i].0@, handlers[i].1.0@))
}

/// The registry entries that the declarations give.
pub open spec fn bound_callbacks<A>(handlers: Seq<Binding<A>>) -> Seq<
    (Seq<char>, HandlerFunction<A>),
> {
    Seq::new(handlers.len(), |i: int| (handlers[i].1.0@, handlers[i].1.1))
}

/// The views that a list of children holds, in order.
pub open spec fn child_views<A>(children: Seq<Child<A>>) -> Seq<View<A>>
    decreases children.len(),
{
    if children.len() == 0 {
        Seq::empty()
    } else {
        child_views(children.drop_last()) + match children.last() {
            Child::View(v) => seq![v],
            Child::ViewList(list) => list@,
        }
    }
}

/// The trees of a list of views, in order.
pub open spec fn view_trees<A>(views: Seq<View<A>>) -> Seq<NodeView> {
    Seq::new(views.len(), |i: int| views[i].tree())
}

/// The registry that holds `base` and then the callbacks of each view in
/// order, a later callback in place of an earlier one with the same id.
pub open spec fn gathered<A>(
    base: Map<Seq<char>, HandlerFunction<A>>,
    views: Seq<View<A>>,
) -> Map<Seq<char>, HandlerFunction<A>>
    decreases views.len(),
{
    if views.len() == 0 {
        base
    } else {
        gathered(base, views.drop_last()).union_prefer_right(views.last().callbacks())
    }
}

/// Gathering over two lists one after the other.
proof fn lemma_gathered_concat<A>(
    base: Map<Seq<char>, HandlerFunction<A>>,
    x: Seq<View<A>>,
    y: Seq<View<A>>,
)
    ensures
        gathered(base, x + y) == gathered(gathered(base, x), y),
    decreases y.len(),
{
    if y.len() == 0 {
        assert(x + y =~= x);
    } else {
        lemma_gathered_concat(base, x, y.drop_last());
        assert((x + y).drop_last() =~= x + y.drop_last());
        assert((x + y).last() == y.last());
    }
}

impl<A> View<A> {
    /// The tree of the view.
    pub closed spec fn tree(&self) -> NodeView {
        self.node@
    }

    /// The registry of the view.
    pub closed spec fn callbacks(&self) -> Map<Seq<char>, HandlerFunction<A>> {
        self.handler_map@
    }

    /// The view of an element.
    ///
    /// Each declared binding gives the element a pair of kind and id, and
    /// the registry the callback under the id. Each child gives the element
    /// its tree and the registry its callbacks.
    pub fn new(
        name: String,
        attributes: Vec<Attribute>,
        handlers: Vec<Binding<A>>,
        children: Vec<Child<A>>,
    ) -> (res: View<A>)
        ensures
            res.tree() == NodeView::Element(
                ElementView {
                    name: name@,
                    attributes: attributes_view(attributes@),
                    handlers: bound_handlers(handlers@),
                    children: view_trees(child_views(children@)),
                },
            ),
            res.callbacks() == gathered(
                pairs_map(bound_callbacks(handlers@)),
                child_views(children@),
            ),
    {
        let ghost declared = handlers@;
        let ghost listed = children@;
        let mut handler_map: HandlerMap<A> = HandlerMap::new();
        let mut bound: Vec<Handler> = Vec::new();
        let mut handlers = handlers;
        let mut pending = take_in_reverse(&mut handlers);
        let ghost total = pending@.len();
        proof {
            assert(pairs_map(bound_callbacks(declared).take(0)) =~= handler_map@);
        }
        while pending.len() > 0
            invariant
                pending@.len() <= total == declared.len(),
                forall|k: int|
                    0 <= k < pending@.len() ==> (#[trigger] pending@[k]) == declared[total - 1
                        - k],
                handlers_view(bound@) == bound_handlers(declared).take(
                    total - pending@.len(),
                ),
                handler_map@ == pairs_map(
                    bound_callbacks(declared).take(total - pending@.len()),
                ),
            decreases pending@.len(),
        {
            let ghost done = total - pending@.len();
            match pending.pop() {
                Some(binding) => {
                    assert(binding == declared[done]);
                    let kind = binding.0;
                    let id = binding.1.0;
                    let f = binding.1.1;
                    let handler = (kind, id.clone());
                    proof {
                        lemma_pairs_map_take(bound_callbacks(declared), done);
                        assert(handler.0@ == declared[done].0@ && handler.1@ == declared[done].1.0@);
                        assert(bound_handlers(declared).take(done + 1) =~= bound_handlers(
                            declared,
                        ).take(done).push((handler.0@, handler.1@)));
                        assert(handlers_view(bound@.push(handler))
                            =~= handlers_view(bound@).push((handler.0@, handler.1@)));
                    }
                    handler_map.insert(id, f);
                    bound.push(handler);
                },
                None => {},
            }
        }
        proof {
            assert(bound_handlers(declared).take(total as int) =~= bound_handlers(declared));
            assert(bound_callbacks(declared).take(total as int) =~= bound_callbacks(declared));
        }
        let ghost base = handler_map@;
        let mut children_vec: Vec<Node> = Vec::new();
        let mut children = children;
        let mut waiting = take_in_reverse(&mut children);
        let ghost count = waiting@.len();
        proof {
            assert(listed.take(0) =~= Seq::<Child<A>>::empty());
            assert(nodes_view(children_vec@) =~= view_trees(child_views(listed.take(0))));
        }
        while waiting.len() > 0
            invariant
                waiting@.len() <= count == listed.len(),
                forall|k: int|
                    0 <= k < waiting@.len() ==> (#[trigger] waiting@[k]) == listed[count - 1 - k],
                nodes_view(children_vec@) == view_trees(
                    child_views(listed.take(count - waiting@.len())),
                ),
                handler_map@ == gathered(base, child_views(listed.take(count - waiting@.len()))),
            decreases waiting@.len(),
        {
            let ghost done = count - waiting@.len();
            let ghost before = child_views(listed.take(done));
            proof {
                assert(listed.take(done + 1).drop_last() =~= listed.take(done));
                assert(listed.take(done + 1).last() == listed[done]);
            }
            match waiting.pop() {
                Some(Child::View(v)) => {
                    proof {
                        assert(view_trees(before + seq![v]) =~= view_trees(before).push(v.tree()));
                        assert(nodes_view(children_vec@.push(v.node)) =~= nodes_view(
                            children_vec@,
                        ).push(v.node@));
                        lemma_gathered_concat(base, before, seq![v]);
                        assert(seq![v].drop_last() =~= Seq::<View<A>>::empty());
                        assert(gathered(handler_map@, Seq::<View<A>>::empty()) == handler_map@);
                        assert(gathered(handler_map@, seq![v]) == handler_map@.union_prefer_right(
                            v.callbacks(),
                        ));
                    }
                    handler_map.extend(v.handler_map);
                    children_vec.push(v.node);
                },
                Some(Child::ViewList(child_vec)) => {
                    let ghost list = child_vec@;
                    let ghost gathered_before = handler_map@;
                    let ghost trees_before = nodes_view(children_vec@);
                    let mut child_vec = child_vec;
                    let mut inner = take_in_reverse(&mut child_vec);
                    let ghost size = inner@.len();
                    proof {
                        assert(list.take(0) =~= Seq::<View<A>>::empty());
                        assert(trees_before + view_trees(list.take(0)) =~= trees_before);
                    }
                    while inner.len() > 0
                        invariant
                            inner@.len() <= size == list.len(),
                            forall|k: int|
                                0 <= k < inner@.len() ==> (#[trigger] inner@[k]) == list[size - 1
                                    - k],
                            nodes_view(children_vec@) == trees_before + view_trees(
                                list.take(size - inner@.len()),
                            ),
                            handler_map@ == gathered(
                                gathered_before,
                                list.take(size - inner@.len()),
                            ),
                        decreases inner@.len(),
                    {
                        let ghost seen = size - inner@.len();
                        match inner.pop() {
                            Some(v) => {
                                proof {
                                    assert(list.take(seen + 1).drop_last() =~= list.take(seen));
                                    assert(list.take(seen + 1).last() == v);
                                    assert(v == list[seen]);
                                    assert(view_trees(list.take(seen + 1)) =~= view_trees(
                                        list.take(seen),
                                    ).push(v.tree()));
                                    assert(nodes_view(children_vec@.push(v.node)) =~= nodes_view(
                                        children_vec@,
                                    ).push(v.node@));
                                    assert((trees_before + view_trees(list.take(seen))).push(
                                        v.tree(),
                                    ) =~= trees_before + view_trees(list.take(seen + 1)));
                                }
                                handler_map.extend(v.handler_map);
                                children_vec.push(v.node);
                            },
                            None => {},
                        }
                    }
                    proof {
                        assert(list.take(size as int) =~= list);
                        assert(view_trees(before + list) =~= view_trees(before) + view_trees(list));
                        lemma_gathered_concat(base, before, list);
                    }
                },
                None => {},
            }
        }
        proof {
            assert(listed.take(count as int) =~= listed);
        }
        View { node: Node::Element(Element::new(name, attributes, bound, children_vec)), handler_map }
    }

    /// The view of a text.
    pub fn text(s: String) -> (res: View<A>)
        ensures
            res.tree() == NodeView::Text(s@),
            res.callbacks() == Map::<Seq<char>, HandlerFunction<A>>::empty(),
    {
        View { node: Node::Text(s), handler_map: HandlerMap::new() }
    }

    /// The view of nothing.
    pub fn null() -> (res: View<A>)
        ensures
            res.tree() == NodeView::Null,
            res.callbacks() == Map::<Seq<char>, HandlerFunction<A>>::empty(),
    {
        View { node: Node::Null, handler_map: HandlerMap::new() }
    }

    /// The tree of the view.
    pub fn node(&self) -> (res: &Node)
        ensures
            res@ == self.tree(),
    {
        &self.node
    }

    /// The registry of the view.
    pub fn handler_map(&self) -> (res: &HandlerMap<A>)
        ensures
            res@ == self.callbacks(),
    {
        &self.handler_map
    }

    /// The tree and the registry of the view.
    pub fn into_parts(self) -> (res: (Node, HandlerMap<A>))
        ensures
            res.0@ == self.tree(),
            res.1@ == self.callbacks(),
    {
        (self.node, self.handler_map)
    }
}

} // verus!
