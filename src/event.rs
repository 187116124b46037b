//! Events, how they reach a node, and what the driver does once one has
//! been handled.
use crate::constraints::{Point, Rect, Size};
use crate::id::ChildId;
use crate::node::FocusChange;
use vstd::prelude::*;

verus! {

/// Whether an event was handled.
#[derive(Clone, Copy, Debug, Default, PartialEq, Eq, Structural)]
pub struct Handled(pub bool);

impl Handled {
    pub fn handled(self) -> (r: bool)
        ensures
            r == self.0,
    {
        self.0
    }
}

impl From<bool> for Handled {
    fn from(b: bool) -> (r: Handled) {
        Handled(b)
    }
}

impl vstd::std_specs::convert::FromSpecImpl<bool> for Handled {
    open spec fn obeys_from_spec() -> bool {
        true
    }

    open spec fn from_spec(b: bool) -> Handled {
        Handled(b)
    }
}

impl From<Handled> for bool {
    fn from(h: Handled) -> (r: bool) {
        h.0
    }
}

impl vstd::std_specs::convert::FromSpecImpl<Handled> for bool {
    open spec fn obeys_from_spec() -> bool {
        true
    }

    open spec fn from_spec(h: Handled) -> bool {
        h.0
    }
}

#[derive(Clone, Copy, Debug, PartialEq, Eq, Structural)]
pub enum MouseButton {
    NoButton,
    Left,
    Right,
    Middle,
}

#[derive(Clone, Copy, Debug, PartialEq, Eq, Structural)]
pub struct MouseEvent {
    /// The position in the coordinate space of the receiver.
    pub pos: Point,
    /// The position in the coordinate space of the window.
    pub window_pos: Point,
    /// The button pressed or released; `None` for a move.
    pub button: MouseButton,
    /// The number of clicks; 0 for a release or a move.
    pub count: u8,
    /// Whether this click gave the window focus.
    pub focus: bool,
}

#[derive(Clone, Copy, Debug, PartialEq, Eq, Structural)]
pub enum Event {
    WindowSize(Size),
    MouseDown(MouseEvent),
    MouseUp(MouseEvent),
    MouseMove(MouseEvent),
    MouseLeave,
    WindowCloseRequested,
}

/// `e` with its position moved into the space of a node at `origin`.
pub open spec fn localized(e: MouseEvent, origin: Point) -> MouseEvent {
    MouseEvent {
        pos: Point { x: (e.pos.x - origin.x) as i64, y: (e.pos.y - origin.y) as i64 },
        ..e
    }
}

/// A pointer at `pos` falls inside a node at `origin` with `size`; all three
/// must lie within the coordinate bounds.
pub open spec fn hits(pos: Point, origin: Point, size: Size) -> bool {
    &&& pos.wf()
    &&& origin.wf()
    &&& size.wf()
    &&& (Rect {
        x0: origin.x,
        y0: origin.y,
        x1: (origin.x + size.width) as i64,
        y1: (origin.y + size.height) as i64,
    }).has(pos)
}

/// What a node at `origin` with `size` receives of `event`: a pointer event
/// only when it falls inside the node, moved into the node's coordinates;
/// any other event as it is.
pub open spec fn routed(event: Event, origin: Point, size: Size) -> Option<Event> {
    match event {
        Event::MouseDown(m) => if hits(m.pos, origin, size) {
            Some(Event::MouseDown(localized(m, origin)))
        } else {
            None
        },
        Event::MouseUp(m) => if hits(m.pos, origin, size) {
            Some(Event::MouseUp(localized(m, origin)))
        } else {
            None
        },
        Event::MouseMove(m) => if hits(m.pos, origin, size) {
            Some(Event::MouseMove(localized(m, origin)))
        } else {
            None
        },
        _ => Some(event),
    }
}

fn localize(m: MouseEvent, origin: Point, size: Size) -> (r: Option<MouseEvent>)
    ensures
        hits(m.pos, origin, size) ==> r == Some(localized(m, origin)),
        !hits(m.pos, origin, size) ==> r is None,
{
    if !(m.pos.is_wf() && origin.is_wf() && size.is_wf()) {
        return None;
    }
    let bounds = Rect::from_origin_size(origin, size);
    if bounds.contains(m.pos) {
        Some(
            MouseEvent {
                pos: Point { x: m.pos.x - origin.x, y: m.pos.y - origin.y },
                ..m
            },
        )
    } else {
        None
    }
}

/// Routes `event` to a child laid out at `origin` with `size`.
pub fn route_event(event: &Event, origin: Point, size: Size) -> (r: Option<Event>)
    ensures
        r == routed(*event, origin, size),
{
    match event {
        Event::MouseDown(m) => match localize(*m, origin, size) {
            Some(l) => Some(Event::MouseDown(l)),
            None => None,
        },
        Event::MouseUp(m) => match localize(*m, origin, size) {
            Some(l) => Some(Event::MouseUp(l)),
            None => None,
        },
        Event::MouseMove(m) => match localize(*m, origin, size) {
            Some(l) => Some(Event::MouseMove(l)),
            None => None,
        },
        _ => Some(*event),
    }
}

/// The outcome of a focus request: the focus to keep, and, when it
/// changed, the notification to send first (old focus, new focus).
#[derive(Clone, Copy, Debug, PartialEq, Eq, Structural)]
pub struct FocusUpdate {
    pub focus: Option<ChildId>,
    pub changed: Option<FocusMoved>,
}

/// A change of focus to announce: from `old` to `new`.
#[derive(Clone, Copy, Debug, PartialEq, Eq, Structural)]
pub struct FocusMoved {
    pub old: Option<ChildId>,
    pub new: Option<ChildId>,
}

/// The focus that `request` asks for: the named node, or none; moving
/// along a focus chain is not offered and also leaves no node focused.
pub open spec fn requested_focus(request: FocusChange) -> Option<ChildId> {
    match request {
        FocusChange::Focus(c) => Some(c),
        _ => None,
    }
}

/// What a focus request resolves to: no request keeps the focus; a request
/// for the focus already held changes nothing; any other moves the focus
/// and reports the change.
pub open spec fn focus_resolution(current: Option<ChildId>, request: Option<FocusChange>) -> FocusUpdate {
    match request {
        None => FocusUpdate { focus: current, changed: None },
        Some(q) => if requested_focus(q) == current {
            FocusUpdate { focus: current, changed: None }
        } else {
            FocusUpdate {
                focus: requested_focus(q),
                changed: Some(FocusMoved { old: current, new: requested_focus(q) }),
            }
        },
    }
}

/// Resolves the focus request a pass left, once per pass.
pub fn resolve_focus(current: Option<ChildId>, request: Option<FocusChange>) -> (r: FocusUpdate)
    ensures
        r == focus_resolution(current, request),
{
    match request {
        None => FocusUpdate { focus: current, changed: None },
        Some(q) => {
            let new = match q {
                FocusChange::Focus(c) => Some(c),
                _ => None,
            };
            let same = match (current, new) {
                (Some(a), Some(b)) => a.0 == b.0,
                (None, None) => true,
                _ => false,
            };
            if same {
                FocusUpdate { focus: current, changed: None }
            } else {
                FocusUpdate { focus: new, changed: Some(FocusMoved { old: current, new }) }
            }
        },
    }
}

/// What the driver does once an event has gone through the tree.
#[derive(Clone, Copy, Debug, PartialEq, Eq, Structural)]
pub struct AfterEvent {
    pub relayout: bool,
    /// The area of the window to repaint, if any.
    pub repaint: Option<Rect>,
}

/// The area to repaint after an event: what was invalidated, grown to the
/// whole window when a layout is due.
pub open spec fn damaged(needs_layout: bool, invalid: Option<Rect>, window: Size) -> Option<Rect> {
    let whole = Rect { x0: 0, y0: 0, x1: window.width, y1: window.height };
    if needs_layout {
        match invalid {
            Some(i) => Some(crate::node::cover(i, whole)),
            None => Some(whole),
        }
    } else {
        invalid
    }
}

/// After an event: a layout request relayouts and adds the whole window to
/// what is repainted; the area is repainted unless it is empty.
pub fn plan_after_event(needs_layout: bool, invalid: Option<Rect>, window: Size) -> (r: AfterEvent)
    ensures
        r.relayout == needs_layout,
        r.repaint == (match damaged(needs_layout, invalid, window) {
            Some(d) => if d.is_empty_spec() {
                None
            } else {
                Some(d)
            },
            None => None,
        }),
{
    let mut region = invalid;
    if needs_layout {
        let whole = window.to_rect();
        region = match region {
            Some(i) => Some(i.union(&whole)),
            None => Some(whole),
        };
    }
    let repaint = match region {
        Some(i) => if i.is_empty() {
            None
        } else {
            Some(i)
        },
        None => None,
    };
    AfterEvent { relayout: needs_layout, repaint }
}

/// What the driver keeps of the window between events: its size, and where
/// the pointer was last seen over it.
#[derive(Clone, Copy, Debug, PartialEq, Eq, Structural)]
pub struct WindowState {
    pub size: Size,
    pub last_mouse_pos: Option<Point>,
}

impl WindowState {
    /// Takes note of `event` before it is sent through the tree: a pointer
    /// event records where the pointer is, the pointer leaving forgets it,
    /// a resize records the new size. Returns whether the window is asked
    /// to close.
    pub fn observe(&mut self, event: &Event) -> (close: bool)
        ensures
            close == (*event is WindowCloseRequested),
            *final(self) == (match *event {
                Event::MouseDown(m) | Event::MouseUp(m) | Event::MouseMove(m) => WindowState {
                    last_mouse_pos: Some(m.pos),
                    ..*old(self)
                },
                Event::MouseLeave => WindowState { last_mouse_pos: None, ..*old(self) },
                Event::WindowSize(s) => WindowState { size: s, ..*old(self) },
                _ => *old(self),
            }),
    {
        match event {
            Event::MouseDown(m) | Event::MouseUp(m) | Event::MouseMove(m) => {
                self.last_mouse_pos = Some(m.pos);
                false
            },
            Event::MouseLeave => {
                self.last_mouse_pos = None;
                false
            },
            Event::WindowSize(s) => {
                self.size = *s;
                false
            },
            Event::WindowCloseRequested => true,
        }
    }
}

} // verus!
