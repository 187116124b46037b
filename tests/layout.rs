use coat::constraints::{Constraints, Point, Size};
use coat::context::ElementCtx;
use coat::event::{Event, Handled};
use coat::id::ChildId;
use coat::key::Key;
use coat::paint::{paint_plan, PaintCommand};
use coat::layout::{apply_arrangement, layout_root, LayoutError};
use coat::tree::{Arrangement, LifeCycle, RenderObject, Tree};
use coat::ui::Ui;

#[derive(Debug, Clone, PartialEq)]
enum Widget {
    Column,
    Padding(i64),
    Button,
    Fixed(i64, i64),
}

impl RenderObject<()> for Widget {
    fn update(&mut self, ctx: &mut ElementCtx, props: Self) {
        if *self != props {
            *self = props;
            ctx.request_layout();
        }
    }

    fn event(&mut self, _ctx: &mut ElementCtx, _event: &Event) -> (Handled, Option<()>) {
        (Handled(false), None)
    }

    fn lifecycle(&mut self, _ctx: &mut ElementCtx, _event: &LifeCycle) {}

    fn child_constraints(
        &mut self,
        _ctx: &mut ElementCtx,
        constraints: &Constraints,
        _index: usize,
        count: usize,
    ) -> Constraints {
        match self {
            Widget::Column => {
                let h = constraints.max.height / count as i64;
                Constraints { min: Size::new(0, 0), max: Size::new(constraints.max.width, h) }
            },
            Widget::Padding(p) => constraints.shrink(Size::new(2 * *p, 2 * *p)),
            Widget::Button | Widget::Fixed(..) => *constraints,
        }
    }

    fn arrange(&mut self, _ctx: &mut ElementCtx, constraints: &Constraints, sizes: &Vec<Size>) -> Arrangement {
        match self {
            Widget::Column => {
                let mut y = 0;
                let mut origins = Vec::new();
                for s in sizes {
                    origins.push(Point::new(0, y));
                    y += s.height;
                }
                Arrangement { size: constraints.max, origins }
            },
            Widget::Padding(p) => {
                let inner = sizes.first().copied().unwrap_or(Size::new(0, 0));
                Arrangement {
                    size: constraints.constrain(Size::new(inner.width + 2 * *p, inner.height + 2 * *p)),
                    origins: vec![Point::new(*p, *p); sizes.len()],
                }
            },
            Widget::Button => Arrangement { size: constraints.max, origins: Vec::new() },
            Widget::Fixed(w, h) => Arrangement { size: Size::new(*w, *h), origins: Vec::new() },
        }
    }
}

type TestTree = Tree<Widget, i64, i64, ()>;

fn build(tree: TestTree) -> TestTree {
    let mut ui = Ui::new(tree);
    ui.begin_node(Key::new(1, 1), Widget::Column).unwrap();
    for loc in [10u64, 20] {
        ui.begin_node(Key::new(loc, 2), Widget::Padding(10)).unwrap();
        ui.begin_node(Key::new(loc + 1, 3), Widget::Button).unwrap();
        ui.end_node().unwrap();
        ui.end_node().unwrap();
    }
    ui.end_node().unwrap();
    ui.finish().unwrap().0
}

#[test]
fn layout_sizes_and_places_every_node() {
    let mut tree = build(Tree::new());
    let root = layout_root(&mut tree, Size::new(200, 120)).unwrap();
    assert_eq!(root, Size::new(200, 120));
    let column = &tree.root.renders[0].item;
    assert_eq!(column.state.size, Size::new(200, 120));
    assert!(!column.state.requests.requires_layout);
    assert!(column.state.requests.requires_paint);
    let second = &column.children.renders[1].item;
    assert_eq!(second.state.origin, Point::new(0, 60));
    assert_eq!(second.state.size, Size::new(200, 60));
    let button = &second.children.renders[0].item;
    assert_eq!(button.state.origin, Point::new(10, 10));
    assert_eq!(button.state.size, Size::new(180, 40));
}

#[test]
fn layout_without_root_is_refused() {
    let mut tree: TestTree = Tree::new();
    assert_eq!(layout_root(&mut tree, Size::new(10, 10)), Err(LayoutError::MissingRoot));
}

#[test]
fn unchanged_size_asks_for_no_paint() {
    let mut tree = build(Tree::new());
    layout_root(&mut tree, Size::new(200, 120)).unwrap();
    tree.root.renders[0].item.state.requests.requires_paint = false;
    layout_root(&mut tree, Size::new(200, 120)).unwrap();
    assert!(!tree.root.renders[0].item.state.requests.requires_paint);
    layout_root(&mut tree, Size::new(100, 120)).unwrap();
    assert!(tree.root.renders[0].item.state.requests.requires_paint);
}

#[test]
fn root_that_misses_the_window_size_is_reported() {
    let mut ui = Ui::new(Tree::new());
    ui.begin_node(Key::new(1, 4), Widget::Fixed(30, 20)).unwrap();
    ui.end_node().unwrap();
    let mut tree: TestTree = ui.finish().unwrap().0;
    assert_eq!(
        layout_root(&mut tree, Size::new(60, 40)),
        Err(LayoutError::RootSize { window: Size::new(60, 40), took: Size::new(30, 20) })
    );
    assert_eq!(tree.root.renders[0].item.state.size, Size::new(30, 20));
    assert!(!tree.root.renders[0].item.state.requests.requires_layout);
}

#[test]
fn arrangement_places_children_and_settles_layout() {
    let mut tree = build(Tree::new());
    let column = &mut tree.root.renders[0].item;
    column.state.size = Size::new(5, 5);
    column.state.requests.requires_paint = false;
    let arr = Arrangement { size: Size::new(7, 9), origins: vec![Point::new(1, 2)] };
    assert_eq!(apply_arrangement(column, &arr), Size::new(7, 9));
    assert_eq!(column.state.size, Size::new(7, 9));
    assert!(column.state.requests.requires_paint);
    assert!(!column.state.requests.requires_layout);
    assert_eq!(column.children.renders[0].item.state.origin, Point::new(1, 2));
    assert_eq!(column.children.renders[1].item.state.origin, Point::new(0, 0));
}

#[test]
fn paint_pass_enters_every_node_at_its_origin() {
    let mut tree = build(Tree::new());
    layout_root(&mut tree, Size::new(200, 120)).unwrap();
    let mut plan = Vec::new();
    paint_plan(&tree.root, &mut plan);
    let ids: Vec<ChildId> = vec![ChildId(1), ChildId(2), ChildId(3), ChildId(4), ChildId(5)];
    assert_eq!(
        plan,
        vec![
            PaintCommand::Enter { id: ids[0], offset: Point::new(0, 0) },
            PaintCommand::Enter { id: ids[1], offset: Point::new(0, 0) },
            PaintCommand::Enter { id: ids[2], offset: Point::new(10, 10) },
            PaintCommand::Leave,
            PaintCommand::Leave,
            PaintCommand::Enter { id: ids[3], offset: Point::new(0, 60) },
            PaintCommand::Enter { id: ids[4], offset: Point::new(10, 10) },
            PaintCommand::Leave,
            PaintCommand::Leave,
            PaintCommand::Leave,
        ]
    );
}
