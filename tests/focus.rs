use coat::constraints::{Constraints, Point, Size};
use coat::context::ElementCtx;
use coat::dispatch::{apply_focus_change, deliver_focus, handle_event};
use coat::event::{Event, FocusMoved, Handled, MouseButton, MouseEvent};
use coat::id::ChildId;
use coat::key::Key;
use coat::node::{CursorIcon, CursorRequest, FocusChange};
use coat::tree::{Arrangement, LifeCycle, RenderObject, Tree};
use coat::ui::Ui;

#[derive(Debug, Clone, PartialEq)]
enum Widget {
    Group(Option<CursorRequest>),
    Field { focused: bool, told: u32 },
    Counter(u32),
}

impl RenderObject<()> for Widget {
    fn update(&mut self, _ctx: &mut ElementCtx, _props: Self) {}

    fn event(&mut self, ctx: &mut ElementCtx, event: &Event) -> (Handled, Option<()>) {
        match (self, event) {
            (Widget::Counter(n), _) => {
                *n += 1;
                (Handled(true), None)
            },
            (Widget::Group(Some(c)), _) => {
                ctx.set_cursor(*c);
                (Handled(false), None)
            },
            (Widget::Field { .. }, Event::MouseDown(_)) => {
                ctx.request_focus(FocusChange::Focus(ChildId(2)));
                ctx.set_cursor(CursorRequest { icon: CursorIcon::IBeam, overriding: false });
                (Handled(true), None)
            },
            _ => (Handled(false), None),
        }
    }

    fn lifecycle(&mut self, ctx: &mut ElementCtx, event: &LifeCycle) {
        if let (Widget::Field { focused, told }, LifeCycle::FocusChanged(f)) = (self, event) {
            *focused = *f;
            *told += 1;
            ctx.request_paint();
        }
    }

    fn child_constraints(
        &mut self,
        _ctx: &mut ElementCtx,
        constraints: &Constraints,
        _index: usize,
        _count: usize,
    ) -> Constraints {
        *constraints
    }

    fn arrange(&mut self, _ctx: &mut ElementCtx, constraints: &Constraints, sizes: &Vec<Size>) -> Arrangement {
        Arrangement { size: constraints.max, origins: vec![Point::new(0, 0); sizes.len()] }
    }
}

type FocusTree = Tree<Widget, i64, i64, ()>;

fn build() -> FocusTree {
    build_with(None)
}

fn build_with(cursor: Option<CursorRequest>) -> FocusTree {
    let mut ui = Ui::new(Tree::new());
    ui.begin_node(Key::new(1, 1), Widget::Group(cursor)).unwrap();
    ui.begin_node(Key::new(2, 2), Widget::Field { focused: false, told: 0 }).unwrap();
    ui.end_node().unwrap();
    ui.end_node().unwrap();
    ui.finish().unwrap().0
}

fn down(x: i64, y: i64) -> Event {
    Event::MouseDown(MouseEvent {
        pos: Point::new(x, y),
        window_pos: Point::new(x, y),
        button: MouseButton::Left,
        count: 1,
        focus: false,
    })
}

#[test]
fn click_moves_focus_and_tells_the_node() {
    let mut tree = build();
    coat::layout::layout_root(&mut tree, Size::new(50, 50)).unwrap();
    let field_id = tree.root.renders[0].item.children.renders[0].item.state.id;
    assert_eq!(field_id, ChildId(2));

    let out = handle_event(&mut tree, &down(5, 5), Size::new(50, 50), None);
    assert!(out.handled);
    assert_eq!(out.focus.focus, Some(field_id));
    assert_eq!(out.focus.changed, Some(FocusMoved { old: None, new: Some(field_id) }));
    assert_eq!(out.cursor, Some(CursorIcon::IBeam));
    assert!(!tree.root.renders[0].item.children.renders[0].item.state.has_focus);
    assert_eq!(apply_focus_change(&mut tree, &out.focus), (true, true));
    let group = &tree.root.renders[0].item;
    assert!(group.state.has_focus);
    let field = &group.children.renders[0].item;
    assert!(field.state.has_focus);
    assert_eq!(field.object, Widget::Field { focused: true, told: 1 });

    let again = handle_event(&mut tree, &down(5, 5), Size::new(50, 50), Some(field_id));
    assert_eq!(again.focus.changed, None);
    assert_eq!(apply_focus_change(&mut tree, &again.focus), (true, true));
    assert_eq!(tree.root.renders[0].item.children.renders[0].item.object, Widget::Field { focused: true, told: 1 });
}

#[test]
fn focus_delivery_finds_only_present_nodes() {
    let mut tree = build();
    assert!(deliver_focus(&mut tree.root, ChildId(2), true));
    assert!(tree.root.renders[0].item.state.has_focus);
    assert!(!deliver_focus(&mut tree.root, ChildId(9), true));
    assert!(deliver_focus(&mut tree.root, ChildId(2), false));
    assert!(!tree.root.renders[0].item.state.has_focus);
    assert_eq!(tree.root.renders[0].item.children.renders[0].item.object, Widget::Field { focused: false, told: 2 });
}

#[test]
fn descendant_cursor_wins_unless_overridden() {
    let arrow = CursorRequest { icon: CursorIcon::Arrow, overriding: false };
    let mut tree = build_with(Some(arrow));
    coat::layout::layout_root(&mut tree, Size::new(50, 50)).unwrap();
    let out = handle_event(&mut tree, &down(5, 5), Size::new(50, 50), None);
    assert_eq!(out.cursor, Some(CursorIcon::IBeam));

    let cross = CursorRequest { icon: CursorIcon::Crosshair, overriding: true };
    let mut tree = build_with(Some(cross));
    coat::layout::layout_root(&mut tree, Size::new(50, 50)).unwrap();
    let out = handle_event(&mut tree, &down(5, 5), Size::new(50, 50), None);
    assert_eq!(out.cursor, Some(CursorIcon::Crosshair));
}

#[test]
fn handled_event_still_updates_later_nodes_without_reaching_their_objects() {
    let mut ui = Ui::new(Tree::new());
    ui.begin_node(Key::new(1, 1), Widget::Group(None)).unwrap();
    ui.begin_node(Key::new(2, 3), Widget::Counter(0)).unwrap();
    ui.end_node().unwrap();
    ui.begin_node(Key::new(3, 3), Widget::Counter(0)).unwrap();
    ui.end_node().unwrap();
    ui.end_node().unwrap();
    let mut tree: FocusTree = ui.finish().unwrap().0;
    coat::layout::layout_root(&mut tree, Size::new(50, 50)).unwrap();
    let out = handle_event(&mut tree, &down(5, 5), Size::new(50, 50), None);
    assert!(out.handled);
    let kids = &tree.root.renders[0].item.children.renders;
    assert_eq!(kids[0].item.object, Widget::Counter(1));
    assert_eq!(kids[1].item.object, Widget::Counter(0));
    assert!(kids[0].item.state.is_hot && kids[1].item.state.is_hot);
}

#[test]
fn focus_change_to_a_missing_node_is_reported() {
    let mut tree = build();
    let update = coat::event::FocusUpdate {
        focus: Some(ChildId(40)),
        changed: Some(FocusMoved { old: Some(ChildId(2)), new: Some(ChildId(40)) }),
    };
    assert_eq!(apply_focus_change(&mut tree, &update), (true, false));
}
