//! The transient state that every structural node carries, and how a
//! child's state is merged into its parent's.
use crate::bloom::Bloom;
use crate::constraints::{Point, Rect, Size};
use crate::id::ChildId;
use vstd::prelude::*;

verus! {

/// What a node asks of the driver.
#[derive(Clone, Copy, Debug, Default, PartialEq, Eq, Structural)]
pub struct NodeRequests {
    pub requires_im_pass: bool,
    pub requires_layout: bool,
    pub requires_paint: bool,
}

impl NodeRequests {
    /// Asks for nothing.
    pub fn none() -> (r: Self)
        ensures
            !r.requires_im_pass,
            !r.requires_layout,
            !r.requires_paint,
    {
        NodeRequests { requires_im_pass: false, requires_layout: false, requires_paint: false }
    }

    /// What a node just created asks for: a layout and a paint.
    pub fn initial() -> (r: Self)
        ensures
            !r.requires_im_pass,
            r.requires_layout,
            r.requires_paint,
    {
        NodeRequests { requires_im_pass: false, requires_layout: true, requires_paint: true }
    }

    /// Adds what `other` asks for.
    pub fn merge(&mut self, other: NodeRequests)
        ensures
            final(self).requires_im_pass == (old(self).requires_im_pass || other.requires_im_pass),
            final(self).requires_layout == (old(self).requires_layout || other.requires_layout),
            final(self).requires_paint == (old(self).requires_paint || other.requires_paint),
    {
        self.requires_im_pass = self.requires_im_pass || other.requires_im_pass;
        self.requires_layout = self.requires_layout || other.requires_layout;
        self.requires_paint = self.requires_paint || other.requires_paint;
    }
}

/// A change of keyboard focus that a node asks for.
#[derive(Clone, Copy, Debug, PartialEq, Eq, Structural)]
pub enum FocusChange {
    /// Give focus up.
    Resign,
    /// Give focus to the node with this identity.
    Focus(ChildId),
    /// Move focus to the next node that takes it.
    Next,
    /// Move focus to the previous node that takes it.
    Previous,
}

/// The pointer glyph a node asks for.
#[derive(Clone, Copy, Debug, PartialEq, Eq, Structural)]
pub enum CursorIcon {
    Arrow,
    IBeam,
    Pointer,
    Crosshair,
    NotAllowed,
    ResizeLeftRight,
    ResizeUpDown,
}

/// A request for a pointer glyph; an overriding one wins over whatever the
/// node's descendants ask for.
#[derive(Clone, Copy, Debug, PartialEq, Eq, Structural)]
pub struct CursorRequest {
    pub icon: CursorIcon,
    pub overriding: bool,
}

/// The per-node state the engine keeps besides the render object.
#[derive(Clone, Copy, Debug, PartialEq, Eq, Structural)]
pub struct ChildState {
    pub id: ChildId,
    /// Offset from the parent's origin; valid after a layout pass.
    pub origin: Point,
    /// Valid after a layout pass.
    pub size: Size,
    /// What needs repainting, in this node's coordinates.
    pub invalid: Option<Rect>,
    pub is_hot: bool,
    pub is_active: bool,
    /// Some descendant is active.
    pub has_active: bool,
    /// This node or some descendant has keyboard focus.
    pub has_focus: bool,
    pub request_focus: Option<FocusChange>,
    pub cursor: Option<CursorRequest>,
    pub requests: NodeRequests,
    /// The identities of the descendants, approximately.
    pub children: Bloom,
    /// The node's object handled the last event that reached it.
    pub handled: bool,
}

/// `r`, translated by `by` and cut to `bounds`.
pub open spec fn moved_into(r: Rect, by: Point, bounds: Rect) -> Rect {
    let t = Rect {
        x0: (r.x0 + by.x) as i64,
        y0: (r.y0 + by.y) as i64,
        x1: (r.x1 + by.x) as i64,
        y1: (r.y1 + by.y) as i64,
    };
    Rect {
        x0: if t.x0 >= bounds.x0 { t.x0 } else { bounds.x0 },
        y0: if t.y0 >= bounds.y0 { t.y0 } else { bounds.y0 },
        x1: if t.x1 <= bounds.x1 { t.x1 } else { bounds.x1 },
        y1: if t.y1 <= bounds.y1 { t.y1 } else { bounds.y1 },
    }
}

/// The bounding box of `a` and `b`.
pub open spec fn cover(a: Rect, b: Rect) -> Rect {
    Rect {
        x0: if a.x0 <= b.x0 { a.x0 } else { b.x0 },
        y0: if a.y0 <= b.y0 { a.y0 } else { b.y0 },
        x1: if a.x1 >= b.x1 { a.x1 } else { b.x1 },
        y1: if a.y1 >= b.y1 { a.y1 } else { b.y1 },
    }
}

/// A parent's invalid region once a child's region has been merged in.
/// Regions are tracked while every coordinate involved lies within bounds;
/// a child region outside them is not merged.
pub open spec fn merged_invalid(parent: ChildState, child: ChildState) -> Option<Rect> {
    match child.invalid {
        None => parent.invalid,
        Some(c) => if !(parent.size.wf() && child.origin.wf() && c.wf() && (parent.invalid matches Some(p) ==> p.wf())) {
            parent.invalid
        } else {
            let m = moved_into(c, child.origin, Rect { x0: 0, y0: 0, x1: parent.size.width, y1: parent.size.height });
            if m.x1 <= m.x0 || m.y1 <= m.y0 {
                parent.invalid
            } else {
                match parent.invalid {
                    None => Some(m),
                    Some(p) => Some(cover(p, m)),
                }
            }
        },
    }
}

/// A parent's cursor request once a child's has been merged in: an
/// overriding request of the parent stays; otherwise the first request of
/// a hot or active child wins.
pub open spec fn merged_cursor(parent: ChildState, child: ChildState) -> Option<CursorRequest> {
    match parent.cursor {
        Some(c) => Some(c),
        None => if child.is_hot || child.is_active || child.has_active {
            child.cursor
        } else {
            None
        },
    }
}

/// A parent's state once a child's state has been merged into it, as
/// `merge_up` does it.
pub open spec fn merged(parent: ChildState, child: ChildState) -> ChildState {
    ChildState {
        requests: NodeRequests {
            requires_im_pass: parent.requests.requires_im_pass || child.requests.requires_im_pass,
            requires_layout: parent.requests.requires_layout || child.requests.requires_layout,
            requires_paint: parent.requests.requires_paint || child.requests.requires_paint,
        },
        has_active: parent.has_active || child.is_active || child.has_active,
        has_focus: parent.has_focus || child.has_focus,
        request_focus: match child.request_focus {
            Some(f) => Some(f),
            None => parent.request_focus,
        },
        cursor: merged_cursor(parent, child),
        invalid: merged_invalid(parent, child),
        ..parent
    }
}

fn merge_invalid(parent: &ChildState, child: &ChildState) -> (r: Option<Rect>)
    ensures
        r == merged_invalid(*parent, *child),
        (parent.invalid matches Some(p) ==> p.wf()) ==> (r matches Some(q) ==> q.wf()),
{
    let parent_ok = match parent.invalid {
        Some(p) => p.is_wf(),
        None => true,
    };
    match child.invalid {
        None => parent.invalid,
        Some(c) => {
            if !(parent.size.is_wf() && child.origin.is_wf() && c.is_wf() && parent_ok) {
                return parent.invalid;
            }
            let bounds = parent.size.to_rect();
            let m = c.translate(child.origin).intersect(&bounds);
            if m.is_empty() {
                parent.invalid
            } else {
                match parent.invalid {
                    None => Some(m),
                    Some(p) => Some(p.union(&m)),
                }
            }
        },
    }
}

impl ChildState {
    /// The state of a node that was just created.
    pub fn new(id: ChildId, size: Option<Size>) -> (r: Self)
        ensures
            r.id == id,
            r.origin == (Point { x: 0, y: 0 }),
            r.size == (match size { Some(s) => s, None => Size { width: 0, height: 0 } }),
            r.invalid is None,
            !r.is_hot && !r.is_active && !r.has_active && !r.has_focus,
            r.request_focus is None,
            r.cursor is None,
            r.requests == (NodeRequests { requires_im_pass: false, requires_layout: true, requires_paint: true }),
            r.children.bits == 0,
            !r.handled,
    {
        ChildState {
            id,
            origin: Point { x: 0, y: 0 },
            size: match size {
                Some(s) => s,
                None => Size { width: 0, height: 0 },
            },
            invalid: None,
            is_hot: false,
            is_active: false,
            has_active: false,
            has_focus: false,
            request_focus: None,
            cursor: None,
            requests: NodeRequests::initial(),
            children: Bloom::new(),
            handled: false,
        }
    }

    /// Whether the node's pending work calls for another build pass.
    pub fn needs_update(&self) -> (r: bool)
        ensures
            r == self.requests.requires_im_pass,
    {
        self.requests.requires_im_pass
    }

    /// Merges what a child's traversal left in `child` into this, its
    /// parent's state: requests and activity are or-ed in, the child's
    /// invalid region is moved into this node's coordinates and cut to its
    /// bounds, a focus request of the child replaces this one, and the
    /// cursor request follows `merged_cursor`.
    pub fn merge_up(&mut self, child: &ChildState)
        ensures
            *final(self) == merged(*old(self), *child),
            (old(self).invalid matches Some(r) ==> r.wf()) ==> (final(self).invalid matches Some(r) ==> r.wf()),
    {
        let invalid = merge_invalid(self, child);
        let cursor = if self.cursor.is_none() && (child.is_hot || child.is_active || child.has_active) {
            child.cursor
        } else {
            self.cursor
        };
        let request_focus = if child.request_focus.is_some() {
            child.request_focus
        } else {
            self.request_focus
        };
        *self = ChildState {
            requests: NodeRequests {
                requires_im_pass: self.requests.requires_im_pass || child.requests.requires_im_pass,
                requires_layout: self.requests.requires_layout || child.requests.requires_layout,
                requires_paint: self.requests.requires_paint || child.requests.requires_paint,
            },
            has_active: self.has_active || child.is_active || child.has_active,
            has_focus: self.has_focus || child.has_focus,
            request_focus,
            cursor,
            invalid,
            ..*self
        };
    }
}

} // verus!
