use coat::action::{same_symbol, Selector};
use coat::bloom::Bloom;
use coat::dispatch::apply_answer;
use coat::constraints::{Constraints, Point, Rect, Size};
use coat::context::ElementCtx;
use coat::event::{plan_after_event, resolve_focus, route_event, Event, FocusMoved, Handled, MouseButton, MouseEvent};
use coat::id::{ChildCounter, ChildId};
use coat::node::{ChildState, CursorIcon, CursorRequest, FocusChange, NodeRequests};
use coat::paint::paint_order;
use coat::state::{MsgQueue, StoreObject};
use coat::widgets::{button_event, ButtonAction, LineBreaking};

#[test]
fn counter_hands_out_increasing_ids() {
    let mut c = ChildCounter::new();
    assert_eq!(c.generate_id(), ChildId(1));
    assert_eq!(c.generate_id(), ChildId(2));
    assert!(c.can_generate());
    assert!(!ChildCounter(usize::MAX).can_generate());
}

#[test]
fn bloom_never_forgets() {
    let mut b = Bloom::new();
    assert!(!b.may_contain(ChildId(3)));
    b.add(ChildId(3));
    assert!(b.may_contain(ChildId(3)));
    assert!(!b.may_contain(ChildId(4)));
    assert_eq!(b.bits, 1 << 3);
    let mut other = Bloom::new();
    other.add(ChildId(70));
    let u = b.union(other);
    assert!(u.may_contain(ChildId(3)));
    assert!(u.may_contain(ChildId(70)));
    assert_eq!(u.bits, (1 << 3) | (1 << 6));
}

#[test]
fn constraints_shrink_and_clip() {
    let c = Constraints { min: Size::new(50, 10), max: Size::new(100, 40) };
    let s = c.shrink(Size::new(20, 30));
    assert_eq!(s.max, Size::new(80, 10));
    assert_eq!(s.min, Size::new(30, 0));
    let s = c.shrink(Size::new(120, 5));
    assert_eq!(s.max, Size::new(0, 35));
    assert_eq!(s.min, Size::new(0, 5));
    let odd = Constraints { min: Size::new(-5, 70), max: Size::new(60, 60) };
    let k = odd.clipped();
    assert_eq!(k.min, Size::new(0, 60));
    assert_eq!(k.max, Size::new(60, 60));
    assert_eq!(c.constrain(Size::new(7, 90)), Size::new(50, 40));
    assert_eq!(c.with_max_height(3).max, Size::new(100, 3));
    assert_eq!(c.with_min(Size::new(1, 2)).min, Size::new(1, 2));
    assert_eq!(c.with_max(Size::new(9, 9)).max, Size::new(9, 9));
    assert_eq!(Constraints::tight(Size::new(4, 5)).min, Size::new(4, 5));
}

#[test]
fn rect_operations() {
    let a = Rect { x0: 0, y0: 0, x1: 10, y1: 10 };
    let b = Rect { x0: 5, y0: -5, x1: 20, y1: 8 };
    assert_eq!(a.intersect(&b), Rect { x0: 5, y0: 0, x1: 10, y1: 8 });
    assert_eq!(a.union(&b), Rect { x0: 0, y0: -5, x1: 20, y1: 10 });
    assert!(a.contains(Point::new(0, 9)));
    assert!(!a.contains(Point::new(10, 0)));
    assert_eq!(a.translate(Point::new(3, -1)), Rect { x0: 3, y0: -1, x1: 13, y1: 9 });
    assert!(Rect { x0: 4, y0: 0, x1: 4, y1: 9 }.is_empty());
}

fn mouse(x: i64, y: i64) -> MouseEvent {
    MouseEvent {
        pos: Point::new(x, y),
        window_pos: Point::new(x, y),
        button: MouseButton::Left,
        count: 1,
        focus: false,
    }
}

#[test]
fn pointer_events_reach_only_the_node_under_them() {
    let origin = Point::new(10, 20);
    let size = Size::new(30, 40);
    let inside = route_event(&Event::MouseDown(mouse(15, 25)), origin, size);
    match inside {
        Some(Event::MouseDown(m)) => {
            assert_eq!(m.pos, Point::new(5, 5));
            assert_eq!(m.window_pos, Point::new(15, 25));
        },
        other => panic!("unexpected {:?}", other),
    }
    assert_eq!(route_event(&Event::MouseUp(mouse(40, 25)), origin, size), None);
    assert_eq!(route_event(&Event::MouseMove(mouse(9, 25)), origin, size), None);
    assert_eq!(route_event(&Event::MouseLeave, origin, size), Some(Event::MouseLeave));
    assert_eq!(Handled(true).handled(), true);
    assert_eq!(Handled::from(true), Handled(true));
    assert!(!bool::from(Handled(false)));
}

#[test]
fn focus_requests_resolve_once() {
    let a = Some(ChildId(1));
    let b = Some(ChildId(2));
    let kept = resolve_focus(a, None);
    assert_eq!(kept.focus, a);
    assert_eq!(kept.changed, None);
    let moved = resolve_focus(a, Some(FocusChange::Focus(ChildId(2))));
    assert_eq!(moved.focus, b);
    assert_eq!(moved.changed, Some(FocusMoved { old: a, new: b }));
    let same = resolve_focus(b, Some(FocusChange::Focus(ChildId(2))));
    assert_eq!(same.changed, None);
    let resigned = resolve_focus(b, Some(FocusChange::Resign));
    assert_eq!(resigned.focus, None);
    assert_eq!(resigned.changed, Some(FocusMoved { old: b, new: None }));
}

#[test]
fn after_event_repaints_what_changed() {
    let win = Size::new(100, 50);
    let r = plan_after_event(true, None, win);
    assert!(r.relayout);
    assert_eq!(r.repaint, Some(Rect { x0: 0, y0: 0, x1: 100, y1: 50 }));
    let r = plan_after_event(false, Some(Rect { x0: 1, y0: 2, x1: 3, y1: 4 }), win);
    assert!(!r.relayout);
    assert_eq!(r.repaint, Some(Rect { x0: 1, y0: 2, x1: 3, y1: 4 }));
    let r = plan_after_event(false, Some(Rect { x0: 1, y0: 2, x1: 1, y1: 4 }), win);
    assert_eq!(r.repaint, None);
    let r = plan_after_event(false, None, win);
    assert_eq!(r.repaint, None);
}

#[test]
fn overlays_paint_by_z_then_queue_order() {
    assert_eq!(paint_order(&vec![3, 1, 2, 1, 0]), vec![4, 1, 3, 2, 0]);
    assert_eq!(paint_order(&vec![]), Vec::<usize>::new());
    assert_eq!(paint_order(&vec![5, 5, 5]), vec![0, 1, 2]);
}

#[test]
fn actions_answer_to_their_selector() {
    let click: Selector<u32> = Selector::new("click");
    let other: Selector<u32> = Selector::new("other");
    let a = Selector::<u32>::new("click").with(7);
    assert!(a.is(&click));
    assert!(!a.is(&other));
    assert_eq!(a.get(&click), Some(&7));
    assert_eq!(a.get(&other), None);
    assert_eq!(*a.get_unchecked(&click), 7);
    assert_eq!(click.symbol(), "click");
    assert!(same_symbol("ab", "ab"));
    assert!(!same_symbol("ab", "abc"));
    assert!(!same_symbol("ab", "ac"));
}

fn state(id: usize) -> ChildState {
    ChildState::new(ChildId(id), Some(Size::new(100, 100)))
}

#[test]
fn child_state_merges_into_parent() {
    let mut parent = state(1);
    parent.requests = NodeRequests::none();
    let mut child = state(2);
    child.origin = Point::new(90, 10);
    child.invalid = Some(Rect { x0: 0, y0: 0, x1: 20, y1: 5 });
    child.is_active = true;
    child.requests = NodeRequests { requires_im_pass: true, requires_layout: false, requires_paint: false };
    child.cursor = Some(CursorRequest { icon: CursorIcon::Pointer, overriding: false });
    child.request_focus = Some(FocusChange::Focus(ChildId(2)));
    parent.merge_up(&child);
    assert!(parent.has_active);
    assert!(parent.requests.requires_im_pass);
    assert!(!parent.requests.requires_layout);
    assert_eq!(parent.invalid, Some(Rect { x0: 90, y0: 10, x1: 100, y1: 15 }));
    assert_eq!(parent.cursor, Some(CursorRequest { icon: CursorIcon::Pointer, overriding: false }));
    assert_eq!(parent.request_focus, Some(FocusChange::Focus(ChildId(2))));
    assert!(parent.needs_update());

    let mut second = state(3);
    second.is_hot = true;
    second.cursor = Some(CursorRequest { icon: CursorIcon::IBeam, overriding: false });
    second.invalid = Some(Rect { x0: -50, y0: -50, x1: -40, y1: -40 });
    parent.merge_up(&second);
    assert_eq!(parent.cursor, Some(CursorRequest { icon: CursorIcon::Pointer, overriding: false }));
    assert_eq!(parent.invalid, Some(Rect { x0: 90, y0: 10, x1: 100, y1: 15 }));
}

#[test]
fn idle_child_does_not_set_cursor() {
    let mut parent = state(1);
    let mut child = state(2);
    child.cursor = Some(CursorRequest { icon: CursorIcon::Crosshair, overriding: true });
    parent.merge_up(&child);
    assert_eq!(parent.cursor, None);
    assert!(!parent.has_active);
}

#[test]
fn element_context_requests_reach_the_node() {
    let st = state(1);
    let mut ctx = ElementCtx::for_state(&st);
    assert_eq!(ctx.size(), Size::new(100, 100));
    ctx.request_paint();
    ctx.request_im_pass();
    let mut req = NodeRequests::none();
    ctx.apply_to(&mut req);
    assert!(req.requires_paint && req.requires_im_pass && !req.requires_layout);
    ctx.request_layout();
    ctx.apply_to(&mut req);
    assert!(req.requires_layout);
    let mut merged = NodeRequests::initial();
    merged.merge(NodeRequests::none());
    assert_eq!(merged, NodeRequests::initial());
}

#[test]
fn store_object_applies_queue() {
    let mut s = StoreObject::new(String::from("a"));
    s.msg.push('b');
    s.msg.push('c');
    assert_eq!(s.state, "a");
    s.apply_pending(&|st: &String, m: char| format!("{}{}", st, m));
    assert_eq!(s.state, "abc");
    assert_eq!(s.msg.len(), 0);
    let q: MsgQueue<u8> = MsgQueue::new();
    assert_eq!(q.len(), 0);
}

#[test]
fn line_breaking_defaults_to_clip() {
    assert_eq!(LineBreaking::default(), LineBreaking::Clip);
}

#[test]
fn button_clicks_on_release_over_it() {
    let st = state(1);
    let mut ctx = ElementCtx::for_state(&st);
    let down = Event::MouseDown(mouse(1, 1));
    let up = Event::MouseUp(mouse(1, 1));
    assert_eq!(button_event(&mut ctx, &up), (Handled(false), None));
    assert!(!ctx.requires_paint);
    assert_eq!(button_event(&mut ctx, &down), (Handled(false), None));
    assert!(ctx.is_active() && ctx.requires_paint);
    ctx.is_hot = true;
    assert_eq!(button_event(&mut ctx, &up), (Handled(true), Some(ButtonAction::Clicked)));
    assert!(!ctx.is_active() && ctx.requires_im_pass);

    let mut away = ElementCtx::for_state(&st);
    button_event(&mut away, &down);
    assert_eq!(button_event(&mut away, &up), (Handled(false), None));
    assert!(!away.is_active() && !away.requires_im_pass);
}

#[test]
fn answer_records_action_and_handled() {
    let mut st = state(1);
    st.requests = NodeRequests::none();
    let mut pending: Option<u8> = Some(1);
    assert!(!apply_answer(&mut st, &mut pending, (Handled(false), None)));
    assert_eq!(pending, Some(1));
    assert!(!st.requests.requires_im_pass);
    assert!(apply_answer(&mut st, &mut pending, (Handled(true), Some(2))));
    assert_eq!(pending, Some(2));
    assert!(st.requests.requires_im_pass);
}

#[test]
fn window_state_follows_events() {
    let mut w = coat::event::WindowState { size: Size::new(10, 10), last_mouse_pos: None };
    assert!(!w.observe(&Event::MouseMove(mouse(3, 4))));
    assert_eq!(w.last_mouse_pos, Some(Point::new(3, 4)));
    assert!(!w.observe(&Event::WindowSize(Size::new(20, 30))));
    assert_eq!(w.size, Size::new(20, 30));
    assert!(!w.observe(&Event::MouseLeave));
    assert_eq!(w.last_mouse_pos, None);
    assert!(w.observe(&Event::WindowCloseRequested));
    assert_eq!(w.size, Size::new(20, 30));
}
