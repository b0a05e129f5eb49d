use squark::{
    handler, App, AttributeValue, Child, Diff, Driver, Env, HandlerArg, Node, Runtime, View,
};

#[derive(Clone, Default)]
struct Counter;

#[derive(Clone, Debug)]
enum Action {
    Add(i64),
    Nothing,
}

impl App for Counter {
    type State = i64;
    type Action = Action;

    fn reducer(&self, state: i64, action: Action) -> i64 {
        match action {
            Action::Add(n) => state + n,
            Action::Nothing => state,
        }
    }

    fn view(&self, state: i64) -> View<Action> {
        View::new(
            "button".to_string(),
            vec![("class".to_string(), AttributeValue::String("counter".to_string()))],
            vec![(
                "click".to_string(),
                handler(|arg: HandlerArg| match arg.as_i64() {
                    Some(0) => Some(Action::Nothing),
                    Some(n) => Some(Action::Add(n)),
                    None => None,
                }),
            )],
            vec![Child::View(View::text(state.to_string()))],
        )
    }
}

#[derive(Default)]
struct Host {
    applied: Vec<Diff>,
    scheduled: usize,
}

fn start(state: i64) -> Driver<Counter, Host> {
    Driver::new(Host::default(), state)
}

impl Runtime<Counter> for Host {
    fn handle_diff(&mut self, diff: Diff) {
        self.applied.push(diff);
    }

    fn schedule_render(&mut self) {
        self.scheduled += 1;
    }
}

fn click_id(node: &Node) -> String {
    match node {
        Node::Element(el) => el.handlers()[0].1.clone(),
        other => panic!("not an element: {:?}", other),
    }
}

fn shown_count(node: &Node) -> String {
    match node {
        Node::Element(el) => match &el.children()[0] {
            Node::Text(s) => s.clone(),
            other => panic!("not a text: {:?}", other),
        },
        other => panic!("not an element: {:?}", other),
    }
}

#[test]
fn a_new_environment_is_idle_and_empty() {
    let mut env: Env<Counter> = Env::new(3);
    assert_eq!(env.get_state(), 3);
    assert_eq!(env.get_node(), Node::Null);
    assert!(!env.is_scheduled());
    assert!(env.pop_handler("anything").is_none());
}

#[test]
fn the_first_render_adds_the_root() {
    let mut driver = start(5);
    driver.run();
    assert_eq!(driver.runtime().applied.len(), 1);
    match &driver.runtime().applied[0] {
        Diff::AddChild(0, node) => {
            assert_eq!(shown_count(node), "5");
            assert_eq!(node, &driver.get_env().get_node());
        }
        other => panic!("not an added child: {:?}", other),
    }
    assert!(!driver.get_env().is_scheduled());
}

#[test]
fn dispatch_coalesces_renders() {
    let mut driver = start(0);
    driver.run();
    let id = click_id(&driver.get_env().get_node());
    let callback = driver.pop_handler(&id).unwrap();
    driver.fire(&callback, HandlerArg::from(1));
    driver.fire(&callback, HandlerArg::from(2));
    assert_eq!(driver.runtime().scheduled, 1);
    assert!(driver.get_env().is_scheduled());
    assert_eq!(driver.get_env().get_state(), 3);
    driver.run();
    assert!(!driver.get_env().is_scheduled());
    assert_eq!(driver.runtime().applied.len(), 2);
    assert_eq!(shown_count(&driver.get_env().get_node()), "3");
    match &driver.runtime().applied[1] {
        Diff::PatchChild(0, edits) => {
            assert_eq!(edits.len(), 2);
            assert!(matches!(&edits[0], Diff::SetHandler(kind, _) if kind == "click"));
            assert_eq!(edits[1], Diff::ReplaceChild(0, Node::Text("3".to_string())));
        }
        other => panic!("not a patch: {:?}", other),
    }
    driver.fire(&callback, HandlerArg::from(1));
    assert_eq!(driver.runtime().scheduled, 2);
}

#[test]
fn a_declined_event_changes_nothing() {
    let mut driver = start(0);
    driver.run();
    let id = click_id(&driver.get_env().get_node());
    let callback = driver.pop_handler(&id).unwrap();
    driver.fire(&callback, HandlerArg::Null);
    assert_eq!(driver.runtime().scheduled, 0);
    assert!(!driver.get_env().is_scheduled());
    assert_eq!(driver.get_env().get_state(), 0);
}

#[test]
fn an_unchanged_state_asks_for_no_render() {
    let mut driver = start(4);
    driver.run();
    let id = click_id(&driver.get_env().get_node());
    let callback = driver.pop_handler(&id).unwrap();
    driver.fire(&callback, HandlerArg::from(0));
    assert_eq!(driver.runtime().scheduled, 0);
    assert!(!driver.get_env().is_scheduled());
    assert_eq!(driver.get_env().get_state(), 4);
}

#[test]
fn a_handler_id_is_taken_once() {
    let mut driver = start(0);
    driver.run();
    let id = click_id(&driver.get_env().get_node());
    assert!(driver.pop_handler(&id).is_some());
    assert!(driver.pop_handler(&id).is_none());
    assert!(driver.pop_handler("never registered").is_none());
}

#[test]
fn each_render_replaces_the_registry() {
    let mut driver = start(0);
    driver.run();
    let first = click_id(&driver.get_env().get_node());
    driver.run();
    let second = click_id(&driver.get_env().get_node());
    assert_ne!(first, second);
    assert!(driver.pop_handler(&first).is_none());
    assert!(driver.pop_handler(&second).is_some());
}

#[test]
fn the_steps_of_a_callback_one_by_one() {
    let mut env: Env<Counter> = Env::new(1);
    assert!(!env.dispatch(None));
    assert!(!env.settle(1));
    assert!(!env.is_scheduled());
    assert!(env.settle(2));
    assert!(env.is_scheduled());
    assert!(!env.settle(3));
    assert_eq!(env.get_state(), 3);
    assert!(!env.dispatch(Some(Action::Add(4))));
    assert_eq!(env.get_state(), 7);
    assert!(!env.dispatch(Some(Action::Nothing)));
    assert!(env.render().is_some());
    assert!(!env.is_scheduled());
    assert!(env.commit(7));
    assert!(!env.commit(8));
    assert_eq!(env.get_state(), 8);
}

#[test]
fn install_caches_the_tree_even_without_an_edit() {
    let mut env: Env<Counter> = Env::new(0);
    assert_eq!(
        env.install(View::text("a".to_string())),
        Some(Diff::AddChild(0, Node::Text("a".to_string())))
    );
    assert_eq!(env.install(View::text("a".to_string())), None);
    assert_eq!(env.get_node(), Node::Text("a".to_string()));
    assert_eq!(
        env.install(View::text("b".to_string())),
        Some(Diff::ReplaceChild(0, Node::Text("b".to_string())))
    );
    assert_eq!(env.install(View::null()), Some(Diff::RemoveChild(0)));
    assert_eq!(env.install(View::null()), None);
    assert_eq!(env.get_node(), Node::Null);
}

#[derive(Clone)]
struct Labelled {
    label: String,
}

impl Default for Labelled {
    fn default() -> Labelled {
        Labelled { label: "by default".to_string() }
    }
}

impl App for Labelled {
    type State = i64;
    type Action = Action;

    fn reducer(&self, state: i64, _action: Action) -> i64 {
        state
    }

    fn view(&self, state: i64) -> View<Action> {
        View::text(format!("{} {}", self.label, state))
    }
}

#[test]
fn a_new_environment_holds_the_default_application() {
    let mut env: Env<Labelled> = Env::new(7);
    assert_eq!(
        env.render(),
        Some(Diff::AddChild(0, Node::Text("by default 7".to_string())))
    );
}

#[test]
fn a_render_shows_the_view_of_the_current_state() {
    let mut env: Env<Labelled> = Env::new(1);
    env.render();
    env.commit(2);
    env.commit(3);
    assert_eq!(
        env.render(),
        Some(Diff::ReplaceChild(0, Node::Text("by default 3".to_string())))
    );
    assert_eq!(env.get_node(), Node::Text("by default 3".to_string()));
    assert_eq!(env.render(), None);
    assert!(env.pop_handler("any").is_none());
}
