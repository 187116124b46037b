use coat::context::ElementCtx;
use coat::constraints::{Constraints, Point, Size};
use coat::event::{Event, Handled};
use coat::id::ChildCounter;
use coat::key::Key;
use coat::tree::{Arrangement, LifeCycle, RenderObject, Tree};
use coat::ui::{BuildError, Ui};

#[derive(Debug, Clone, PartialEq)]
enum Widget {
    Column,
    Button(String),
}

impl RenderObject<()> for Widget {
    fn update(&mut self, ctx: &mut ElementCtx, props: Self) {
        if *self != props {
            *self = props;
            ctx.request_layout();
        }
    }

    fn event(&mut self, _ctx: &mut ElementCtx, _event: &Event) -> (Handled, Option<()>) {
        (Handled(false), None)
    }
    fn lifecycle(&mut self, _ctx: &mut ElementCtx, _event: &LifeCycle) {}

    fn child_constraints(
        &mut self,
        _ctx: &mut ElementCtx,
        constraints: &Constraints,
        _index: usize,
        _count: usize,
    ) -> Constraints {
        *constraints
    }

    fn arrange(&mut self, _ctx: &mut ElementCtx, constraints: &Constraints, sizes: &Vec<Size>) -> Arrangement {
        Arrangement { size: constraints.max, origins: vec![Point::new(0, 0); sizes.len()] }
    }
}

const COLUMN: u64 = 1;
const BUTTON: u64 = 2;
const CELL: u64 = 10;

type TestTree = Tree<Widget, i64, i64, ()>;
type TestUi = Ui<Widget, i64, i64, ()>;

fn button(ui: &mut TestUi, location: u64, text: &str) {
    ui.begin_node(Key::new(location, BUTTON), Widget::Button(text.to_string())).unwrap();
    ui.end_node().unwrap();
}

fn root_ids(tree: &TestTree) -> Vec<usize> {
    tree.root.renders.iter().map(|s| s.item.state.id.0).collect()
}

fn root_locations(tree: &TestTree) -> Vec<u64> {
    tree.root.renders.iter().map(|s| s.key.location).collect()
}

fn pass_of_buttons(tree: TestTree, locations: &[u64]) -> TestTree {
    let mut ui = Ui::new(tree);
    for &l in locations {
        button(&mut ui, l, "b");
    }
    ui.finish().unwrap().0
}

#[test]
fn single_insert() {
    let tree: TestTree = Tree::new();
    assert_eq!(tree.root.renders.len(), 0);
    let mut ui = Ui::new(tree);
    button(&mut ui, 1, "red");
    let (tree, consumed) = ui.finish().unwrap();
    assert!(!consumed);
    assert_eq!(tree.root.renders.len(), 1);
    assert_eq!(tree.root.renders[0].key, Key::new(1, BUTTON));
    assert_eq!(tree.root.renders[0].item.children.renders.len(), 0);
}

#[test]
fn double_insert() {
    let tree: TestTree = Tree::new();
    let mut ui = Ui::new(tree);
    button(&mut ui, 1, "red");
    button(&mut ui, 2, "blue");
    let (tree, _) = ui.finish().unwrap();
    assert_eq!(root_locations(&tree), vec![1, 2]);
    assert_eq!(tree.root.renders[0].item.children.renders.len(), 0);
    assert_eq!(tree.root.renders[1].item.children.renders.len(), 0);
    assert_eq!(tree.root.renders[1].item.object, Widget::Button("blue".to_string()));
}

#[test]
fn insert_single_child() {
    let tree: TestTree = Tree::new();
    let mut ui = Ui::new(tree);
    ui.begin_node(Key::new(1, BUTTON), Widget::Button("red".to_string())).unwrap();
    button(&mut ui, 2, "blue");
    ui.end_node().unwrap();
    let (tree, _) = ui.finish().unwrap();
    assert_eq!(tree.root.renders.len(), 1);
    let outer = &tree.root.renders[0].item;
    assert_eq!(outer.children.renders.len(), 1);
    assert_eq!(outer.children.renders[0].item.children.renders.len(), 0);
    assert_eq!(outer.children.renders[0].item.object, Widget::Button("blue".to_string()));
}

#[test]
fn update_single_child() {
    let build = |tree: TestTree, inner: &str| {
        let mut ui = Ui::new(tree);
        ui.begin_node(Key::new(1, BUTTON), Widget::Button("red".to_string())).unwrap();
        button(&mut ui, 2, inner);
        ui.end_node().unwrap();
        ui.finish().unwrap().0
    };
    let tree = build(Tree::new(), "blue");
    let inner_id = tree.root.renders[0].item.children.renders[0].item.state.id;
    let tree = build(tree, "green");
    assert_eq!(tree.root.renders.len(), 1);
    let outer = &tree.root.renders[0].item;
    assert_eq!(outer.children.renders.len(), 1);
    let inner = &outer.children.renders[0].item;
    assert_eq!(inner.state.id, inner_id);
    assert!(inner.state.requests.requires_layout);
    assert_eq!(inner.object, Widget::Button("green".to_string()));
    assert_eq!(inner.children.renders.len(), 0);
}

#[test]
fn remove_single_child() {
    let mut ui = Ui::new(Tree::new());
    ui.begin_node(Key::new(1, BUTTON), Widget::Button("red".to_string())).unwrap();
    button(&mut ui, 2, "blue");
    ui.end_node().unwrap();
    let (tree, _) = ui.finish().unwrap();
    assert_eq!(tree.root.renders[0].item.children.renders.len(), 1);

    let mut ui = Ui::new(tree);
    ui.begin_node(Key::new(1, BUTTON), Widget::Button("red".to_string())).unwrap();
    ui.end_node().unwrap();
    let (tree, _) = ui.finish().unwrap();
    assert_eq!(tree.root.renders.len(), 1);
    assert_eq!(tree.root.renders[0].item.children.renders.len(), 0);
    assert_eq!(tree.root.renders[0].item.object, Widget::Button("red".to_string()));
}

#[test]
fn single_element() {
    let mut ui: TestUi = Ui::new(Tree::new());
    button(&mut ui, 7, "test");
    let (tree, _) = ui.finish().unwrap();
    assert_eq!(tree.root.renders.len(), 1);
    assert_eq!(tree.root.renders[0].item.children.renders.len(), 0);
    assert_eq!(tree.root.renders[0].item.object, Widget::Button("test".to_string()));
}

#[test]
fn rebuild_with_same_description_changes_nothing() {
    let build = |tree: TestTree| {
        let mut ui = Ui::new(tree);
        ui.begin_node(Key::new(1, COLUMN), Widget::Column).unwrap();
        button(&mut ui, 2, "a");
        button(&mut ui, 3, "b");
        ui.end_node().unwrap();
        ui.use_cell(Key::new(4, CELL), 5).unwrap();
        ui.finish().unwrap().0
    };
    let tree = build(Tree::new());
    let counter = tree.counter.0;
    let inner: Vec<usize> =
        tree.root.renders[0].item.children.renders.iter().map(|s| s.item.state.id.0).collect();
    let tree = build(tree);
    assert_eq!(tree.counter.0, counter);
    assert_eq!(root_ids(&tree), vec![1]);
    let again: Vec<usize> =
        tree.root.renders[0].item.children.renders.iter().map(|s| s.item.state.id.0).collect();
    assert_eq!(again, inner);
    assert!(tree.root.renders.iter().all(|s| !s.dead));
    assert_eq!(tree.root.states.len(), 1);
    assert!(!tree.root.states[0].dead);
}

#[test]
fn new_location_creates_exactly_one_node() {
    let tree = pass_of_buttons(Tree::new(), &[1, 3]);
    let before = root_ids(&tree);
    let counter = tree.counter.0;
    let tree = pass_of_buttons(tree, &[1, 2, 3]);
    assert_eq!(tree.counter.0, counter + 1);
    let after = root_ids(&tree);
    assert_eq!(after.len(), 3);
    assert_eq!(after[0], before[0]);
    assert_eq!(after[2], before[1]);
    assert_eq!(after[1], counter + 1);
    assert_eq!(root_locations(&tree), vec![1, 2, 3]);
}

#[test]
fn omitted_node_is_pruned_with_its_subtree() {
    let mut ui = Ui::new(Tree::new());
    ui.begin_node(Key::new(1, COLUMN), Widget::Column).unwrap();
    ui.use_cell(Key::new(9, CELL), 1).unwrap();
    button(&mut ui, 2, "inner");
    ui.end_node().unwrap();
    button(&mut ui, 3, "kept");
    let (tree, _) = ui.finish().unwrap();
    let kept = tree.root.renders[1].item.state.id;
    let inner = tree.root.renders[0].item.children.renders[0].item.state.id;
    assert_eq!(tree.root.renders[0].item.children.states.len(), 1);
    assert_eq!(tree.root.slot_count(), 1);
    assert!(tree.root.path_to(inner).is_some());

    let tree = pass_of_buttons(tree, &[3]);
    assert_eq!(tree.root.slot_count(), 0);
    assert_eq!(tree.root.path_to(inner), None);
    assert_eq!(tree.root.renders.len(), 1);
    assert_eq!(tree.root.renders[0].item.state.id, kept);
    assert_eq!(tree.root.renders[0].key.location, 3);
}

#[test]
fn omitted_last_node_is_cut_at_the_cursor() {
    let tree = pass_of_buttons(Tree::new(), &[1, 2]);
    let first = root_ids(&tree)[0];
    let tree = pass_of_buttons(tree, &[1]);
    assert_eq!(root_ids(&tree), vec![first]);
}

#[test]
fn swapped_siblings_lose_one_identity() {
    let tree = pass_of_buttons(Tree::new(), &[1, 2]);
    let ids = root_ids(&tree);
    let counter = tree.counter.0;
    let tree = pass_of_buttons(tree, &[2, 1]);
    assert_eq!(root_locations(&tree), vec![2, 1]);
    let after = root_ids(&tree);
    assert_eq!(after[0], ids[1]);
    assert_ne!(after[1], ids[0]);
    assert_eq!(after[1], counter + 1);
}

#[test]
fn location_reused_for_another_kind_is_refused() {
    let tree = pass_of_buttons(Tree::new(), &[1]);
    let mut ui = Ui::new(tree);
    let refusal = BuildError::KindMismatch { expected: COLUMN, found: BUTTON };
    let r = ui.begin_node(Key::new(1, COLUMN), Widget::Column);
    assert_eq!(r, Err(refusal));
    assert_eq!(ui.use_cell(Key::new(5, CELL), 0), Err(refusal));
    assert_eq!(ui.end_node(), Err(refusal));
    assert_eq!(ui.finish().err(), Some(refusal));
}

#[test]
fn end_without_open_node_is_refused() {
    let mut ui: TestUi = Ui::new(Tree::new());
    assert_eq!(ui.end_node(), Err(BuildError::NoOpenNode));
    assert_eq!(ui.finish().err(), Some(BuildError::NoOpenNode));
}

#[test]
fn exhausted_identities_are_refused() {
    let tree: TestTree = Tree { root: coat::tree::Scope::new(), counter: ChildCounter(usize::MAX) };
    let mut ui = Ui::new(tree);
    let r = ui.begin_node(Key::new(1, BUTTON), Widget::Button("x".to_string()));
    assert_eq!(r, Err(BuildError::IdsExhausted));
}

#[test]
fn unfinished_nodes_are_closed_at_finish() {
    let mut ui: TestUi = Ui::new(Tree::new());
    ui.begin_node(Key::new(1, COLUMN), Widget::Column).unwrap();
    button(&mut ui, 2, "x");
    let (tree, _) = ui.finish().unwrap();
    assert_eq!(tree.root.renders.len(), 1);
    assert_eq!(tree.root.renders[0].item.children.renders.len(), 1);
}

#[test]
fn parent_filter_holds_descendants() {
    let mut ui: TestUi = Ui::new(Tree::new());
    ui.begin_node(Key::new(1, COLUMN), Widget::Column).unwrap();
    ui.begin_node(Key::new(2, COLUMN), Widget::Column).unwrap();
    button(&mut ui, 3, "deep");
    ui.end_node().unwrap();
    ui.end_node().unwrap();
    let (tree, _) = ui.finish().unwrap();
    let outer = &tree.root.renders[0].item;
    let middle = &outer.children.renders[0].item;
    let deep = &middle.children.renders[0].item;
    assert!(outer.state.children.may_contain(middle.state.id));
    assert!(outer.state.children.may_contain(deep.state.id));
    assert!(middle.state.children.may_contain(deep.state.id));
    assert!(!deep.state.children.may_contain(outer.state.id));
}

#[test]
fn path_search_finds_nested_nodes() {
    let mut ui: TestUi = Ui::new(Tree::new());
    button(&mut ui, 1, "first");
    ui.begin_node(Key::new(2, COLUMN), Widget::Column).unwrap();
    ui.use_cell(Key::new(8, CELL), 0).unwrap();
    button(&mut ui, 3, "a");
    button(&mut ui, 4, "b");
    ui.end_node().unwrap();
    ui.use_cell(Key::new(9, CELL), 0).unwrap();
    let (tree, _) = ui.finish().unwrap();
    let target = tree.root.renders[1].item.children.renders[1].item.state.id;
    assert_eq!(tree.root.path_to(target), Some(vec![1, 1]));
    assert_eq!(tree.root.path_to(tree.root.renders[0].item.state.id), Some(vec![0]));
    assert_eq!(tree.root.path_to(coat::id::ChildId(99)), None);
    assert_eq!(tree.root.slot_count(), 2);
}

#[test]
fn swapped_state_slots_reset_the_one_passed_over() {
    let mut ui: TestUi = Ui::new(Tree::new());
    let a = ui.use_cell(Key::new(1, CELL), 0).unwrap();
    let b = ui.use_cell(Key::new(2, CELL), 0).unwrap();
    for (r, v) in [(a, 11), (b, 22)] {
        if let Some(coat::state::Hook::Cell(c)) = ui.hook_mut(r) {
            *c = v;
        }
    }
    let (tree, _) = ui.finish().unwrap();

    let mut ui = Ui::new(tree);
    let b = ui.use_cell(Key::new(2, CELL), 0).unwrap();
    let a = ui.use_cell(Key::new(1, CELL), 0).unwrap();
    let read = |ui: &TestUi, r| match ui.hook(r) {
        Some(coat::state::Hook::Cell(c)) => *c,
        _ => panic!("not a cell"),
    };
    assert_eq!(read(&ui, b), 22);
    assert_eq!(read(&ui, a), 0);
    let (tree, _) = ui.finish().unwrap();
    assert_eq!(tree.root.states.len(), 2);
    assert_eq!(tree.root.states[0].key.location, 2);
    assert_eq!(tree.root.states[1].key.location, 1);
}
