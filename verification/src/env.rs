//! The reactive environment: the state of an application, the tree of its
//! last render, the registry of that render and the flag that tells whether
//! a render is queued, with the steps of the render cycle and of a callback.

use crate::diff::diff_option_view;
use crate::edits::diff_node_spec;
use crate::node::{Diff, Node, NodeView};
use crate::roundtrip::{aligned, lemma_round_trip};
use crate::surface::{apply_at_root, shown, Surface};
use crate::view::{HandlerArg, HandlerFunction, HandlerMap, View};
use vstd::prelude::*;
use vstd::std_specs::cmp::PartialEqSpec;
use vstd::view::View as _;

verus! {

/// What an application supplies: how its state changes with an action, and
/// what its interface looks like in a state.
pub trait App: Clone + Default + 'static {
    type State: Clone + core::fmt::Debug + PartialEq + 'static;

    type Action: Clone + core::fmt::Debug + 'static;

    /// The state that follows `state` when `action` happens.
    fn reducer(&self, state: Self::State, action: Self::Action) -> Self::State;

    /// The interface in `state`.
    fn view(&self, state: Self::State) -> View<Self::Action>;
}

/// The environment of one running application.
#[verifier::reject_recursive_types(A)]
pub struct Env<A: App> {
    app: A,
    state: A::State,
    node: Node,
    handler_map: HandlerMap<A::Action>,
    scheduled: bool,
}

/// What an environment holds.
#[verifier::reject_recursive_types(A)]
pub ghost struct EnvView<A: App> {
    pub app: A,
    pub state: A::State,
    pub tree: NodeView,
    pub callbacks: Map<Seq<char>, HandlerFunction<A::Action>>,
    pub queued: bool,
}

impl<A: App> vstd::view::View for Env<A> {
    type V = EnvView<A>;

    closed spec fn view(&self) -> EnvView<A> {
        EnvView {
            app: self.app,
            state: self.state,
            tree: self.node@,
            callbacks: self.handler_map@,
            queued: self.scheduled,
        }
    }
}

/// The environment after a state has been committed: it holds the state,
/// and a render is queued.
pub open spec fn committed<A: App>(env: EnvView<A>, state: A::State) -> EnvView<A> {
    EnvView { state, queued: true, ..env }
}

/// Whether a commit in this environment asks the host to schedule a render:
/// it does unless a render is queued already.
pub open spec fn asks_render<A: App>(env: EnvView<A>) -> bool {
    !env.queued
}

/// The environment after a render cycle that got the given tree and
/// registry from the application.
pub open spec fn rendered<A: App>(
    env: EnvView<A>,
    tree: NodeView,
    callbacks: Map<Seq<char>, HandlerFunction<A::Action>>,
) -> EnvView<A> {
    EnvView { tree, callbacks, queued: false, ..env }
}

/// Whether settling the candidate in the environment `before` gives the
/// environment `after` and the request `schedule`.
///
/// Either nothing changes and nothing is asked, or the candidate is
/// committed. Where the comparison of states obeys its specification, the
/// first holds exactly when the candidate is equal to the current state.
pub open spec fn settled<A: App>(
    before: EnvView<A>,
    candidate: A::State,
    after: EnvView<A>,
    schedule: bool,
) -> bool {
    &&& (after == before && !schedule) || (after == committed(before, candidate) && schedule
        == asks_render(before))
    &&& A::State::obeys_eq_spec() ==> if before.state.eq_spec(&candidate) {
        after == before && !schedule
    } else {
        after == committed(before, candidate) && schedule == asks_render(before)
    }
}

/// Whether the reducer, asked with the copy `handed` of the current state
/// and with the action, has given the state `given`, and settling that
/// state has given `after` and `schedule`.
pub open spec fn reduced<A: App>(
    before: EnvView<A>,
    handed: A::State,
    action: A::Action,
    given: A::State,
    after: EnvView<A>,
    schedule: bool,
) -> bool {
    &&& cloned(before.state, handed)
    &&& call_ensures(A::reducer, (&before.app, handed, action), given)
    &&& settled(before, given, after, schedule)
}

/// Whether dispatching the answer of a callback in the environment `before`
/// gives the environment `after` and the request `schedule`.
///
/// Without an action nothing changes and nothing is asked. With an action,
/// the state that is settled is one that the reducer gives for a copy of
/// the current state and the action.
pub open spec fn dispatched<A: App>(
    before: EnvView<A>,
    action: Option<A::Action>,
    after: EnvView<A>,
    schedule: bool,
) -> bool {
    match action {
        None => after == before && !schedule,
        Some(action) => exists|handed: A::State, given: A::State| #[trigger]
            reduced(before, handed, action, given, after, schedule),
    }
}

/// Whether the callback has given the answer `action` to the payload, and
/// dispatching that answer has given `after` and `schedule`.
pub open spec fn answered<A: App>(
    before: EnvView<A>,
    handler: HandlerFunction<A::Action>,
    arg: HandlerArg,
    action: Option<A::Action>,
    after: EnvView<A>,
    schedule: bool,
) -> bool {
    &&& handler.answers(arg, action)
    &&& dispatched(before, action, after, schedule)
}

/// Whether handling the payload with the callback in the environment
/// `before` gives the environment `after` and the request `schedule`: what
/// is dispatched is an answer of the callback to the payload.
pub open spec fn handled<A: App>(
    before: EnvView<A>,
    handler: HandlerFunction<A::Action>,
    arg: HandlerArg,
    after: EnvView<A>,
    schedule: bool,
) -> bool {
    exists|action: Option<A::Action>| #[trigger]
        answered(before, handler, arg, action, after, schedule)
}

/// Whether the application, asked with the copy `handed` of the current
/// state, has given the view, and the render cycle has left the tree and
/// the registry of that view in the environment `after`, with no render
/// queued.
pub open spec fn viewed<A: App>(
    before: EnvView<A>,
    handed: A::State,
    view: View<A::Action>,
    after: EnvView<A>,
) -> bool {
    &&& cloned(before.state, handed)
    &&& call_ensures(A::view, (&before.app, handed), view)
    &&& after == rendered(before, view.tree(), view.callbacks())
}

impl<A: App> Env<A> {
    /// An environment in the given state, with the application's default
    /// value, an empty tree, an empty registry and no render queued.
    pub fn new(state: A::State) -> (env: Env<A>)
        ensures
            call_ensures(A::default, (), env@.app),
            env@.state == state,
            env@.tree == NodeView::Null,
            env@.callbacks == Map::<Seq<char>, HandlerFunction<A::Action>>::empty(),
            !env@.queued,
    {
        Env {
            app: A::default(),
            state,
            node: Node::Null,
            handler_map: HandlerMap::new(),
            scheduled: false,
        }
    }

    /// A copy of the current state.
    pub fn get_state(&self) -> (res: A::State)
        ensures
            cloned(self@.state, res),
    {
        self.state.clone()
    }

    /// Puts the state in place of the current one.
    pub(crate) fn set_state(&mut self, state: A::State)
        ensures
            final(self)@ == (EnvView { state, ..old(self)@ }),
    {
        self.state = state;
    }

    /// A copy of the tree of the last render.
    pub fn get_node(&self) -> (res: Node)
        ensures
            res@ == self@.tree,
    {
        self.node.clone()
    }

    /// Puts the tree in place of that of the last render.
    pub(crate) fn set_node(&mut self, node: Node)
        ensures
            final(self)@ == (EnvView { tree: node@, ..old(self)@ }),
    {
        self.node = node;
    }

    /// Whether a render is queued.
    pub fn is_scheduled(&self) -> (res: bool)
        ensures
            res == self@.queued,
    {
        self.scheduled
    }

    /// Takes the callback of the handler id out of the registry. The result
    /// is `None` where the registry of the last render has no callback for
    /// the id, or where the callback has been taken before.
    pub fn pop_handler(&mut self, id: &str) -> (res: Option<HandlerFunction<A::Action>>)
        ensures
            final(self)@ == (EnvView { callbacks: old(self)@.callbacks.remove(id@), ..old(self)@ }),
            res == if old(self)@.callbacks.contains_key(id@) {
                Some(old(self)@.callbacks[id@])
            } else {
                None::<HandlerFunction<A::Action>>
            },
    {
        self.handler_map.remove(id)
    }

    /// Ends a render cycle with the view that the application has given.
    ///
    /// The registry of the view takes the place of the old one. The result
    /// is the edit that turns the tree of the last render into that of the
    /// view, for the host to apply, or `None` where nothing has changed. In
    /// both cases the tree of the view is the tree of the last render from
    /// now on. Where the two trees are aligned, the edit turns what the host
    /// shows for the one into what it shows for the other.
    pub fn install(&mut self, view: View<A::Action>) -> (res: Option<Diff>)
        ensures
            final(self)@ == (EnvView {
                tree: view.tree(),
                callbacks: view.callbacks(),
                ..old(self)@
            }),
            diff_option_view(res) == diff_node_spec(old(self)@.tree, view.tree(), 0),
            aligned(old(self)@.tree, view.tree()) ==> apply_at_root(
                shown(old(self)@.tree),
                diff_option_view(res),
            ) == shown(view.tree()),
    {
        proof {
            if aligned(self@.tree, view.tree()) {
                lemma_round_trip(self@.tree, view.tree());
            }
        }
        let (node, handler_map) = view.into_parts();
        self.handler_map = handler_map;
        let mut position: usize = 0;
        let res = Node::diff(&mut self.node, &node, &mut position);
        self.set_node(node);
        res
    }

    /// Runs a render cycle: no render is queued any more, the application
    /// gives the view of the current state, and the view is installed.
    ///
    /// The tree and the registry that the environment holds afterwards are
    /// those of a view that the application gives for a copy of the current
    /// state. The result is the edit between the tree of the last render
    /// and that tree. Where the two trees are aligned, the edit turns what
    /// the host shows for the one into what it shows for the other.
    pub fn render(&mut self) -> (res: Option<Diff>)
        ensures
            exists|handed: A::State, view: View<A::Action>| #[trigger]
                viewed(old(self)@, handed, view, final(self)@),
            final(self)@ == rendered(old(self)@, final(self)@.tree, final(self)@.callbacks),
            diff_option_view(res) == diff_node_spec(old(self)@.tree, final(self)@.tree, 0),
            aligned(old(self)@.tree, final(self)@.tree) ==> apply_at_root(
                shown(old(self)@.tree),
                diff_option_view(res),
            ) == shown(final(self)@.tree),
    {
        self.scheduled = false;
        let copy = self.get_state();
        let ghost handed = copy;
        let view = self.app.view(copy);
        let ghost given = view;
        let res = self.install(view);
        assert(viewed(old(self)@, handed, given, self@));
        res
    }

    /// Commits a state that differs from the current one. The result tells
    /// whether the host is to schedule a render: it is unless one is queued
    /// already.
    pub fn commit(&mut self, state: A::State) -> (schedule: bool)
        ensures
            final(self)@ == committed(old(self)@, state),
            schedule == asks_render(old(self)@),
    {
        self.set_state(state);
        if self.scheduled {
            return false;
        }
        self.scheduled = true;
        true
    }

    /// Takes the state that the reducer has given: a state equal to the
    /// current one changes nothing, another one is committed.
    pub fn settle(&mut self, candidate: A::State) -> (schedule: bool)
        ensures
            settled(old(self)@, candidate, final(self)@, schedule),
    {
        if self.state == candidate {
            return false;
        }
        self.commit(candidate)
    }

    /// Takes the answer of a callback: without an action nothing happens;
    /// with one, the reducer is asked for the state that follows a copy of
    /// the current state when the action happens, and that state is
    /// settled.
    pub fn dispatch(&mut self, action: Option<A::Action>) -> (schedule: bool)
        ensures
            dispatched(old(self)@, action, final(self)@, schedule),
    {
        match action {
            None => false,
            Some(action) => {
                let copy = self.get_state();
                let ghost handed = copy;
                let candidate = self.app.reducer(copy, action);
                let ghost given = candidate;
                let schedule = self.settle(candidate);
                assert(reduced(old(self)@, handed, action, given, self@, schedule));
                schedule
            },
        }
    }

    /// Handles one event: the callback is asked for its answer to the
    /// payload, and the answer is dispatched. The result tells whether the
    /// host is to schedule a render.
    pub fn handle(&mut self, handler: &HandlerFunction<A::Action>, arg: HandlerArg) -> (schedule:
        bool)
        ensures
            handled(old(self)@, *handler, arg, final(self)@, schedule),
    {
        let action = handler.call(arg);
        let schedule = self.dispatch(action);
        assert(answered(old(self)@, *handler, arg, action, self@, schedule));
        schedule
    }
}

/// What a host supplies: the two things that the core asks of it.
pub trait Runtime<A: App> {
    /// Applies the edit of a render cycle to the live surface.
    fn handle_diff(&mut self, diff: Diff);

    /// Queues a render cycle on the host's event loop.
    fn schedule_render(&mut self);
}

/// An application on a host: the environment of the application, and the
/// host that shows it.
///
/// The driver alone reaches the environment, so that a host changes
/// nothing in it.
#[verifier::reject_recursive_types(A)]
pub struct Driver<A: App, R: Runtime<A>> {
    env: Env<A>,
    runtime: R,
    requests: Ghost<nat>,
    surface: Ghost<Seq<Surface>>,
}

impl<A: App, R: Runtime<A>> Driver<A, R> {
    /// What the environment holds.
    pub closed spec fn env(&self) -> EnvView<A> {
        self.env@
    }

    /// The host.
    pub closed spec fn host(&self) -> R {
        self.runtime
    }

    /// How often the driver has asked the host to schedule a render.
    pub closed spec fn requests(&self) -> nat {
        self.requests@
    }

    /// What a host shows that has applied every edit that the driver has
    /// handed to it.
    pub closed spec fn surface(&self) -> Seq<Surface> {
        self.surface@
    }

    /// Whether the host shows the tree of the last render.
    pub open spec fn in_step(&self) -> bool {
        self.surface() == shown(self.env().tree)
    }

    /// A driver for the host, with a new environment in the given state.
    pub fn new(runtime: R, state: A::State) -> (res: Driver<A, R>)
        ensures
            call_ensures(A::default, (), res.env().app),
            res.env().state == state,
            res.env().tree == NodeView::Null,
            res.env().callbacks == Map::<Seq<char>, HandlerFunction<A::Action>>::empty(),
            !res.env().queued,
            res.host() == runtime,
            res.requests() == 0,
            res.surface() == Seq::<Surface>::empty(),
            res.in_step(),
    {
        Driver {
            env: Env::new(state),
            runtime,
            requests: Ghost(0),
            surface: Ghost(Seq::empty()),
        }
    }

    /// The environment.
    pub fn get_env(&self) -> (res: &Env<A>)
        ensures
            res@ == self.env(),
    {
        &self.env
    }

    /// The host.
    pub fn runtime(&self) -> (res: &R)
        ensures
            *res == self.host(),
    {
        &self.runtime
    }

    /// Runs a render cycle, and hands the edit of the cycle to the host
    /// where there is one.
    ///
    /// The new tree and the new registry are those of a view that the
    /// application gives for a copy of the current state. The edit is the one
    /// between the tree of the last render and the new tree. A host that
    /// showed the tree of the last render shows the new tree afterwards,
    /// where the two trees are aligned.
    pub fn run(&mut self)
        ensures
            exists|handed: A::State, view: View<A::Action>| #[trigger]
                viewed(old(self).env(), handed, view, final(self).env()),
            final(self).env() == rendered(
                old(self).env(),
                final(self).env().tree,
                final(self).env().callbacks,
            ),
            final(self).requests() == old(self).requests(),
            final(self).surface() == apply_at_root(
                old(self).surface(),
                diff_node_spec(old(self).env().tree, final(self).env().tree, 0),
            ),
            old(self).in_step() && aligned(old(self).env().tree, final(self).env().tree)
                ==> final(self).in_step(),
    {
        let edit = self.env.render();
        proof {
            self.surface@ = apply_at_root(self.surface@, diff_option_view(edit));
        }
        match edit {
            Some(diff) => self.runtime.handle_diff(diff),
            None => {},
        }
    }

    /// Takes the callback of the handler id out of the registry, for the
    /// host to bind it. The result is `None` where the registry of the last
    /// render has no callback for the id, or where the callback has been
    /// taken before.
    pub fn pop_handler(&mut self, id: &str) -> (res: Option<HandlerFunction<A::Action>>)
        ensures
            final(self).env() == (EnvView {
                callbacks: old(self).env().callbacks.remove(id@),
                ..old(self).env()
            }),
            res == if old(self).env().callbacks.contains_key(id@) {
                Some(old(self).env().callbacks[id@])
            } else {
                None::<HandlerFunction<A::Action>>
            },
            final(self).host() == old(self).host(),
            final(self).requests() == old(self).requests(),
            final(self).surface() == old(self).surface(),
    {
        self.env.pop_handler(id)
    }

    /// Delivers one event to a callback that the host has bound.
    ///
    /// The environment handles the payload with the callback, and the host
    /// is asked to schedule a render exactly when the environment says so:
    /// when a state is committed while no render is queued.
    pub fn fire(&mut self, handler: &HandlerFunction<A::Action>, arg: HandlerArg)
        ensures
            final(self).surface() == old(self).surface(),
            fired(
                old(self).env(),
                *handler,
                arg,
                final(self).env(),
                final(self).requests() - old(self).requests(),
            ),
    {
        let schedule = self.env.handle(handler, arg);
        if schedule {
            self.runtime.schedule_render();
            proof {
                self.requests@ = self.requests@ + 1;
            }
        }
    }
}

/// Whether delivering the payload to the callback in the environment
/// `before` gives the environment `after` and asks the host `asked` times to
/// schedule a render: once where handling the payload says so, else never.
pub open spec fn fired<A: App>(
    before: EnvView<A>,
    handler: HandlerFunction<A::Action>,
    arg: HandlerArg,
    after: EnvView<A>,
    asked: int,
) -> bool {
    ||| asked == 1 && handled(before, handler, arg, after, true)
    ||| asked == 0 && handled(before, handler, arg, after, false)
}

/// Whether the event changes the state for certain: every answer of the
/// callback to the payload is an action, and every state that the reducer
/// gives for a copy of the current state and that action differs from the
/// current state.
pub open spec fn changes_state<A: App>(
    env: EnvView<A>,
    handler: HandlerFunction<A::Action>,
    arg: HandlerArg,
) -> bool {
    forall|action: Option<A::Action>| #[trigger]
        handler.answers(arg, action) ==> {
            &&& action is Some
            &&& forall|handed: A::State, given: A::State|
                cloned(env.state, handed) && #[trigger] call_ensures(
                    A::reducer,
                    (&env.app, handed, action->0),
                    given,
                ) ==> !env.state.eq_spec(&given)
        }
}

/// Whether the environment `after` is `before` with a state committed that
/// the reducer gives for a copy of the state of `before` and an action
/// that the callback answers to the payload.
pub open spec fn committed_by<A: App>(
    before: EnvView<A>,
    handler: HandlerFunction<A::Action>,
    arg: HandlerArg,
    after: EnvView<A>,
) -> bool {
    exists|action: A::Action, handed: A::State, given: A::State|
        {
            &&& handler.answers(arg, Some(action))
            &&& cloned(before.state, handed)
            &&& #[trigger] call_ensures(A::reducer, (&before.app, handed, action), given)
            &&& after == committed(before, given)
        }
}

/// An event that changes the state for certain commits a state, and the
/// host is asked to schedule a render exactly where none is queued.
pub proof fn lemma_state_changing_event<A: App>(
    before: EnvView<A>,
    handler: HandlerFunction<A::Action>,
    arg: HandlerArg,
    after: EnvView<A>,
    asked: int,
)
    requires
        A::State::obeys_eq_spec(),
        fired(before, handler, arg, after, asked),
        changes_state(before, handler, arg),
    ensures
        committed_by(before, handler, arg, after),
        after.queued,
        asked == if before.queued {
            0int
        } else {
            1int
        },
{
    let schedule = asked == 1;
    assert(handled(before, handler, arg, after, schedule));
    let answer = choose|answer: Option<A::Action>| #[trigger]
        answered(before, handler, arg, answer, after, schedule);
    assert(handler.answers(arg, answer));
    let action = answer->0;
    let (handed, given) = choose|handed: A::State, given: A::State| #[trigger]
        reduced(before, handed, action, given, after, schedule);
    assert(call_ensures(A::reducer, (&before.app, handed, action), given));
    assert(after == committed(before, given));
}

/// Two events that change the state for certain, delivered while no render
/// cycle runs between them, ask the host for one render only: the first
/// asks, the second does not. Each commits a state that the reducer gives
/// for the state before it, so that the render cycle that follows finds the
/// state of the second.
pub proof fn lemma_events_coalesce<A: App>(
    start: EnvView<A>,
    handler: HandlerFunction<A::Action>,
    first: HandlerArg,
    between: EnvView<A>,
    asked_first: int,
    second: HandlerArg,
    end: EnvView<A>,
    asked_second: int,
)
    requires
        A::State::obeys_eq_spec(),
        !start.queued,
        fired(start, handler, first, between, asked_first),
        changes_state(start, handler, first),
        fired(between, handler, second, end, asked_second),
        changes_state(between, handler, second),
    ensures
        asked_first == 1,
        asked_second == 0,
        committed_by(start, handler, first, between),
        committed_by(between, handler, second, end),
        end.queued,
        end.tree == start.tree,
        end.callbacks == start.callbacks,
{
    lemma_state_changing_event(start, handler, first, between, asked_first);
    lemma_state_changing_event(between, handler, second, end, asked_second);
}

/// The environment after the states have been committed one after another.
pub open spec fn after_commits<A: App>(env: EnvView<A>, states: Seq<A::State>) -> EnvView<A>
    decreases states.len(),
{
    if states.len() == 0 {
        env
    } else {
        committed(after_commits(env, states.drop_last()), states.last())
    }
}

/// How often the host is asked to schedule a render while the states are
/// committed one after another.
pub open spec fn render_requests<A: App>(env: EnvView<A>, states: Seq<A::State>) -> nat
    decreases states.len(),
{
    if states.len() == 0 {
        0
    } else {
        let before = render_requests(env, states.drop_last());
        if asks_render(after_commits(env, states.drop_last())) {
            before + 1
        } else {
            before
        }
    }
}

/// Any number of commits before the next render cycle ask the host for one
/// render only. The cycle then finds the state of the last commit, and
/// leaves the environment so that the next commit asks for a render again.
pub proof fn lemma_commits_coalesce<A: App>(
    env: EnvView<A>,
    states: Seq<A::State>,
    tree: NodeView,
    callbacks: Map<Seq<char>, HandlerFunction<A::Action>>,
)
    requires
        !env.queued,
        states.len() > 0,
    ensures
        render_requests(env, states) == 1,
        after_commits(env, states).queued,
        after_commits(env, states).state == states.last(),
        rendered(after_commits(env, states), tree, callbacks).state == states.last(),
        asks_render(rendered(after_commits(env, states), tree, callbacks)),
    decreases states.len(),
{
    if states.len() > 1 {
        lemma_commits_coalesce(env, states.drop_last(), tree, callbacks);
    } else {
        assert(render_requests(env, states.drop_last()) == 0);
        assert(after_commits(env, states.drop_last()) == env);
    }
}

} // verus!
