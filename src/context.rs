//! What a render object sees of its node while it is being updated.
use crate::constraints::Size;
use crate::node::{ChildState, CursorRequest, FocusChange, NodeRequests};
use vstd::prelude::*;

verus! {

/// A render object's window onto its node: its size, and the requests it
/// makes of the driver.
pub struct ElementCtx {
    pub size: Size,
    /// The pointer is over the node.
    pub is_hot: bool,
    /// The node holds the pointer (a press began on it).
    pub is_active: bool,
    pub requires_im_pass: bool,
    pub requires_layout: bool,
    pub requires_paint: bool,
    /// A change of focus the object asks for.
    pub focus_change: Option<FocusChange>,
    /// The pointer glyph the object asks for.
    pub cursor: Option<CursorRequest>,
}

impl ElementCtx {
    /// A context for the node whose state is `state`, with nothing requested yet.
    pub fn for_state(state: &ChildState) -> (r: Self)
        ensures
            r.size == state.size,
            r.is_hot == state.is_hot,
            r.is_active == state.is_active,
            !r.requires_im_pass && !r.requires_layout && !r.requires_paint,
            r.focus_change is None,
            r.cursor is None,
    {
        ElementCtx {
            size: state.size,
            is_hot: state.is_hot,
            is_active: state.is_active,
            requires_im_pass: false,
            requires_layout: false,
            requires_paint: false,
            focus_change: None,
            cursor: None,
        }
    }

    pub fn size(&self) -> (r: Size)
        ensures
            r == self.size,
    {
        self.size
    }

    pub fn is_hot(&self) -> (r: bool)
        ensures
            r == self.is_hot,
    {
        self.is_hot
    }

    pub fn is_active(&self) -> (r: bool)
        ensures
            r == self.is_active,
    {
        self.is_active
    }

    /// Takes or releases the pointer.
    pub fn set_active(&mut self, active: bool)
        ensures
            *final(self) == (ElementCtx { is_active: active, ..*old(self) }),
    {
        self.is_active = active;
    }

    /// Asks for a change of keyboard focus; the last request wins.
    pub fn request_focus(&mut self, change: FocusChange)
        ensures
            *final(self) == (ElementCtx { focus_change: Some(change), ..*old(self) }),
    {
        self.focus_change = Some(change);
    }

    /// Asks for a pointer glyph; the last request wins.
    pub fn set_cursor(&mut self, cursor: CursorRequest)
        ensures
            *final(self) == (ElementCtx { cursor: Some(cursor), ..*old(self) }),
    {
        self.cursor = Some(cursor);
    }

    /// Asks for another build pass within the current frame.
    pub fn request_im_pass(&mut self)
        ensures
            *final(self) == (ElementCtx { requires_im_pass: true, ..*old(self) }),
    {
        self.requires_im_pass = true;
    }

    pub fn request_layout(&mut self)
        ensures
            *final(self) == (ElementCtx { requires_layout: true, ..*old(self) }),
    {
        self.requires_layout = true;
    }

    pub fn request_paint(&mut self)
        ensures
            *final(self) == (ElementCtx { requires_paint: true, ..*old(self) }),
    {
        self.requires_paint = true;
    }

    /// Writes back to the node's state what was requested or changed
    /// through this context.
    pub fn apply_to_state(&self, state: &mut ChildState)
        ensures
            *final(state) == (ChildState {
                is_active: self.is_active,
                request_focus: if self.focus_change is Some {
                    self.focus_change
                } else {
                    old(state).request_focus
                },
                cursor: if self.cursor is Some {
                    self.cursor
                } else {
                    old(state).cursor
                },
                requests: NodeRequests {
                    requires_im_pass: old(state).requests.requires_im_pass || self.requires_im_pass,
                    requires_layout: old(state).requests.requires_layout || self.requires_layout,
                    requires_paint: old(state).requests.requires_paint || self.requires_paint,
                },
                ..*old(state)
            }),
    {
        state.is_active = self.is_active;
        if self.focus_change.is_some() {
            state.request_focus = self.focus_change;
        }
        if self.cursor.is_some() {
            state.cursor = self.cursor;
        }
        self.apply_to(&mut state.requests);
    }

    /// Adds what was requested through this context to `requests`.
    pub fn apply_to(&self, requests: &mut NodeRequests)
        ensures
            final(requests).requires_im_pass == (old(requests).requires_im_pass
                || self.requires_im_pass),
            final(requests).requires_layout == (old(requests).requires_layout
                || self.requires_layout),
            final(requests).requires_paint == (old(requests).requires_paint || self.requires_paint),
    {
        requests.merge(
            NodeRequests {
                requires_im_pass: self.requires_im_pass,
                requires_layout: self.requires_layout,
                requires_paint: self.requires_paint,
            },
        );
    }
}

} // verus!
