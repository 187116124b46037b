use coat::constraints::{Constraints, Point, Size};
use coat::context::ElementCtx;
use coat::dispatch::handle_event;
use coat::event::{Event, Handled, MouseButton, MouseEvent};
use coat::node::CursorIcon;
use coat::widgets::button_event;
use coat::converge::{run_until_stable, Convergence, Phase};
use coat::key::Key;
use coat::state::{Hook, Mutable};
use coat::tree::{Arrangement, LifeCycle, RenderObject, Tree};
use coat::ui::{BuildError, Ui};

#[derive(Debug, Clone, PartialEq)]
enum Widget {
    Button(String),
    Label(String),
}

impl RenderObject<Click> for Widget {
    fn update(&mut self, ctx: &mut ElementCtx, props: Self) {
        if *self != props {
            *self = props;
            ctx.request_layout();
        }
    }

    fn event(&mut self, ctx: &mut ElementCtx, event: &Event) -> (Handled, Option<Click>) {
        match self {
            Widget::Button(_) => {
                let (h, a) = button_event(ctx, event);
                (h, a.map(|_| Click))
            },
            _ => (Handled(false), None),
        }
    }
    fn lifecycle(&mut self, _ctx: &mut ElementCtx, _event: &LifeCycle) {}

    fn child_constraints(
        &mut self,
        _ctx: &mut ElementCtx,
        constraints: &Constraints,
        _index: usize,
        _count: usize,
    ) -> Constraints {
        *constraints
    }

    fn arrange(&mut self, _ctx: &mut ElementCtx, constraints: &Constraints, sizes: &Vec<Size>) -> Arrangement {
        Arrangement { size: constraints.max, origins: vec![Point::new(0, 0); sizes.len()] }
    }
}

#[derive(Debug, Clone, Copy, PartialEq)]
struct Click;

const BUTTON: u64 = 2;
const LABEL: u64 = 3;
const CELL: u64 = 10;
const STORE: u64 = 11;

type AppTree = Tree<Widget, i64, i64, Click>;
type AppUi = Ui<Widget, i64, i64, Click>;

fn cell_value(ui: &AppUi, r: coat::ui::StateRef) -> i64 {
    match ui.hook(r) {
        Some(Hook::Cell(v)) => *v,
        _ => panic!("not a cell"),
    }
}

fn set_cell(ui: &mut AppUi, r: coat::ui::StateRef, value: i64) {
    match ui.hook_mut(r) {
        Some(Hook::Cell(v)) => *v = value,
        _ => panic!("not a cell"),
    }
}

/// A label showing a count, and a button that adds one to it.
fn counter_app(tree: AppTree) -> (AppTree, bool) {
    let mut ui = Ui::new(tree);
    let count = ui.use_cell(Key::new(1, CELL), 0).unwrap();
    let shown = cell_value(&ui, count);
    ui.begin_node(Key::new(2, LABEL), Widget::Label(shown.to_string())).unwrap();
    ui.end_node().unwrap();
    let clicked = ui.begin_node(Key::new(3, BUTTON), Widget::Button("+".to_string())).unwrap();
    ui.end_node().unwrap();
    if clicked.is_some() {
        set_cell(&mut ui, count, shown + 1);
    }
    ui.finish().unwrap()
}

/// A button counting clicks, and while the count is odd, a label with a
/// cell of its own.
fn conditional_app(tree: AppTree) -> (AppTree, bool) {
    let mut ui = Ui::new(tree);
    let count = Mutable::with(0).use_in(&mut ui, Key::new(1, CELL)).unwrap();
    let n = cell_value(&ui, count);
    let clicked = ui.begin_node(Key::new(2, BUTTON), Widget::Button("toggle".to_string())).unwrap();
    ui.end_node().unwrap();
    if n % 2 == 1 {
        ui.use_cell(Key::new(3, CELL), 100).unwrap();
        ui.begin_node(Key::new(4, LABEL), Widget::Label("odd".to_string())).unwrap();
        ui.end_node().unwrap();
    }
    if clicked.is_some() {
        set_cell(&mut ui, count, n + 1);
    }
    ui.finish().unwrap()
}

fn label_text(tree: &AppTree) -> String {
    match &tree.root.renders[0].item.object {
        Widget::Label(t) => t.clone(),
        other => panic!("not a label: {:?}", other),
    }
}

#[test]
fn counter_button_settles_on_new_count() {
    let out = run_until_stable(&counter_app, Tree::new(), 10);
    assert!(out.stable);
    assert_eq!(out.passes, 1);
    let mut tree = out.value;
    assert_eq!(label_text(&tree), "0");

    tree.root.renders[1].item.emit_action(Click);
    let out = run_until_stable(&counter_app, tree, 10);
    assert!(out.stable);
    assert_eq!(out.passes, 2);
    assert_eq!(label_text(&out.value), "1");
}

#[test]
fn second_action_replaces_the_first() {
    let out = run_until_stable(&counter_app, Tree::new(), 10);
    let mut tree = out.value;
    tree.root.renders[1].item.emit_action(Click);
    tree.root.renders[1].item.emit_action(Click);
    let out = run_until_stable(&counter_app, tree, 10);
    assert_eq!(label_text(&out.value), "1");
}

#[test]
fn conditional_child_comes_and_goes() {
    let out = run_until_stable(&conditional_app, Tree::new(), 10);
    let mut tree = out.value;
    let slots_before = tree.root.states.len();
    assert_eq!(slots_before, 1);
    assert_eq!(tree.root.renders.len(), 1);

    tree.root.renders[0].item.emit_action(Click);
    let out = run_until_stable(&conditional_app, tree, 10);
    assert!(out.stable);
    let mut tree = out.value;
    assert_eq!(tree.root.states.len(), 2);
    assert_eq!(tree.root.renders.len(), 2);
    assert_eq!(tree.root.renders[1].item.object, Widget::Label("odd".to_string()));

    tree.root.renders[0].item.emit_action(Click);
    let out = run_until_stable(&conditional_app, tree, 10);
    assert!(out.stable);
    let tree = out.value;
    assert_eq!(tree.root.states.len(), slots_before);
    assert_eq!(tree.root.renders.len(), 1);
    assert!(tree.root.renders.iter().all(|s| s.key.location != 4));
}

#[test]
fn capped_counter_settles_after_its_steps() {
    let cap: u64 = 5;
    let step = move |c: u64| if c < cap { (c + 1, true) } else { (c, false) };
    let out = run_until_stable(&step, 2, 100);
    assert!(out.stable);
    assert_eq!(out.passes, 4);
    assert_eq!(out.value, 5);

    let out = run_until_stable(&step, 5, 100);
    assert!(out.stable);
    assert_eq!(out.passes, 1);
}

#[test]
fn unsettled_loop_stops_at_the_pass_limit() {
    let toggle = |b: bool| (!b, true);
    let out = run_until_stable(&toggle, false, 7);
    assert!(!out.stable);
    assert_eq!(out.passes, 7);
    assert!(out.value);
}

#[test]
fn convergence_phases() {
    let mut c = Convergence::new();
    assert_eq!(c.phase, Phase::Building);
    assert_eq!(c.after_pass(true), Phase::Building);
    assert!(!c.is_stable());
    assert_eq!(c.after_pass(false), Phase::Stable);
    assert!(c.is_stable());
    assert_eq!(c.passes, 2);
}

fn store_app(tree: AppTree, push: &[i64]) -> (AppTree, i64, i64) {
    let reduce = |s: &i64, m: i64| s * 10 + m;
    let mut ui = Ui::new(tree);
    let r = ui.use_store(Key::new(1, STORE), 0, &reduce).unwrap();
    let seen = match ui.hook(r) {
        Some(Hook::Store(o)) => o.state,
        _ => panic!("not a store"),
    };
    if let Some(Hook::Store(o)) = ui.hook_mut(r) {
        for &m in push {
            o.msg.push(m);
        }
    }
    let after_push = match ui.hook(r) {
        Some(Hook::Store(o)) => o.state,
        _ => panic!("not a store"),
    };
    (ui.finish().unwrap().0, seen, after_push)
}

#[test]
fn store_folds_messages_in_order() {
    let (tree, seen, after) = store_app(Tree::new(), &[]);
    assert_eq!((seen, after), (0, 0));
    let (tree, seen, after) = store_app(tree, &[3, 7]);
    assert_eq!(seen, 0);
    assert_eq!(after, 0);
    let (_, seen, _) = store_app(tree, &[]);
    assert_eq!(seen, 37);
}

#[test]
fn cell_and_store_at_one_location_conflict() {
    let reduce = |s: &i64, m: i64| s + m;
    let mut ui: AppUi = Ui::new(Tree::new());
    ui.use_cell(Key::new(1, CELL), 0).unwrap();
    let (tree, _) = ui.finish().unwrap();

    let mut ui = Ui::new(tree);
    assert_eq!(ui.use_store(Key::new(1, CELL), 0, &reduce), Err(BuildError::HookMismatch));
    assert_eq!(ui.finish().err(), Some(BuildError::HookMismatch));

    let mut ui: AppUi = Ui::new(Tree::new());
    ui.use_cell(Key::new(1, CELL), 0).unwrap();
    let (tree, _) = ui.finish().unwrap();
    let mut ui = Ui::new(tree);
    assert_eq!(
        ui.use_store(Key::new(1, STORE), 0, &reduce),
        Err(BuildError::KindMismatch { expected: STORE, found: CELL })
    );
}

#[test]
fn store_keeps_state_across_passes() {
    let reduce = |s: &i64, m: i64| s - m;
    let mut ui: AppUi = Ui::new(Tree::new());
    let r = ui.use_store(Key::new(1, STORE), 50, &reduce).unwrap();
    if let Some(Hook::Store(o)) = ui.hook_mut(r) {
        o.msg.push(8);
    }
    let (tree, _) = ui.finish().unwrap();
    let mut ui = Ui::new(tree);
    let r = ui.use_store(Key::new(1, STORE), 0, &reduce).unwrap();
    match ui.hook(r) {
        Some(Hook::Store(o)) => {
            assert_eq!(o.state, 42);
            assert_eq!(o.msg.len(), 0);
        },
        _ => panic!("not a store"),
    }
}

fn mouse_down(x: i64, y: i64) -> Event {
    Event::MouseDown(MouseEvent {
        pos: Point::new(x, y),
        window_pos: Point::new(x, y),
        button: MouseButton::Left,
        count: 1,
        focus: false,
    })
}

fn mouse_up(x: i64, y: i64) -> Event {
    Event::MouseUp(MouseEvent {
        pos: Point::new(x, y),
        window_pos: Point::new(x, y),
        button: MouseButton::Left,
        count: 0,
        focus: false,
    })
}

#[test]
fn click_through_the_tree_drives_the_next_frame() {
    let out = run_until_stable(&counter_app, Tree::new(), 10);
    let mut tree = out.value;
    // a layout would place the label above the button
    tree.root.renders[0].item.state.size = Size::new(100, 20);
    tree.root.renders[1].item.state.origin = Point::new(0, 20);
    tree.root.renders[1].item.state.size = Size::new(100, 20);

    let missed = handle_event(&mut tree, &mouse_up(50, 50), Size::new(100, 40), None);
    assert!(!missed.handled);
    assert!(!missed.rebuild);
    assert_eq!(missed.cursor, None);

    let press = handle_event(&mut tree, &mouse_down(50, 30), Size::new(100, 40), None);
    assert!(!press.handled);
    assert!(!press.rebuild);
    assert!(press.gathered.has_active);
    assert!(tree.root.renders[1].item.state.is_active);

    let hit = handle_event(&mut tree, &mouse_up(50, 30), Size::new(100, 40), None);
    assert!(hit.handled);
    assert!(hit.rebuild);
    assert!(!tree.root.renders[1].item.state.is_active);
    assert!(hit.gathered.requests.requires_paint);
    assert!(tree.root.renders[1].item.state.is_hot);
    assert!(!tree.root.renders[0].item.state.is_hot);

    let out = run_until_stable(&counter_app, tree, 10);
    assert!(out.stable);
    assert_eq!(out.passes, 2);
    assert_eq!(label_text(&out.value), "1");
    let mut tree = out.value;
    let quiet = handle_event(&mut tree, &Event::MouseLeave, Size::new(100, 40), None);
    assert!(!quiet.rebuild);
    assert_eq!(quiet.cursor, Some(CursorIcon::Arrow));
    assert!(!tree.root.renders[1].item.state.is_hot);
}
