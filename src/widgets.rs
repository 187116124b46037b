//! Small vocabulary shared by widgets.
use crate::constraints::{Point, Size};
use crate::context::ElementCtx;
use crate::event::{Event, Handled, MouseButton};
use crate::id::{ChildId, WindowId};
use vstd::prelude::*;

verus! {

/// What a button reports.
#[derive(Clone, Copy, Debug, PartialEq, Eq, Structural)]
pub enum ButtonAction {
    Clicked,
}

/// How a label treats lines wider than itself.
#[derive(Clone, Copy, Debug, PartialEq, Eq, Structural)]
pub enum LineBreaking {
    /// Lines break at word boundaries.
    WordWrap,
    /// Lines are cut at the label's width.
    Clip,
    /// Lines run past the label.
    Overflow,
}

impl Default for LineBreaking {
    fn default() -> (r: Self)
        ensures
            r == LineBreaking::Clip,
    {
        LineBreaking::Clip
    }
}

/// What a window reports.
#[derive(Clone, Copy, Debug, PartialEq, Eq, Structural)]
pub enum WindowEvent {
    Noop,
    Close,
    RequestFocus,
}

/// The description of a window.
pub struct Window {
    pub id: WindowId,
    pub title: String,
    pub initial_size: Size,
}

/// A window's retained object: its description, the node that holds
/// keyboard focus, and where the pointer was last seen.
pub struct WindowObject {
    pub props: Window,
    pub focus_widget: Option<ChildId>,
    pub mouse_pos: Option<Point>,
}

/// How a button answers `event`: a left press takes the pointer and asks
/// for a paint; a left release while holding the pointer lets it go and
/// asks for a paint, and if the pointer is still over the button it is a
/// click, which is handled and asks for another build pass.
pub fn button_event(ctx: &mut ElementCtx, event: &Event) -> (r: (Handled, Option<ButtonAction>))
    ensures
        match *event {
            Event::MouseDown(m) if m.button == MouseButton::Left => {
                &&& *final(ctx) == (ElementCtx { is_active: true, requires_paint: true, ..*old(ctx) })
                &&& r == (Handled(false), None::<ButtonAction>)
            },
            Event::MouseUp(m) if m.button == MouseButton::Left && old(ctx).is_active => {
                if old(ctx).is_hot {
                    &&& *final(ctx) == (ElementCtx {
                        is_active: false,
                        requires_paint: true,
                        requires_im_pass: true,
                        ..*old(ctx)
                    })
                    &&& r == (Handled(true), Some(ButtonAction::Clicked))
                } else {
                    &&& *final(ctx) == (ElementCtx { is_active: false, requires_paint: true, ..*old(ctx) })
                    &&& r == (Handled(false), None::<ButtonAction>)
                }
            },
            _ => *final(ctx) == *old(ctx) && r == (Handled(false), None::<ButtonAction>),
        },
{
    match event {
        Event::MouseDown(m) => {
            if m.button == MouseButton::Left {
                ctx.set_active(true);
                ctx.request_paint();
            }
            (Handled(false), None)
        },
        Event::MouseUp(m) => {
            if ctx.is_active() && m.button == MouseButton::Left {
                ctx.set_active(false);
                let clicked = ctx.is_hot();
                if clicked {
                    ctx.request_im_pass();
                }
                ctx.request_paint();
                if clicked {
                    return (Handled(true), Some(ButtonAction::Clicked));
                }
            }
            (Handled(false), None)
        },
        _ => (Handled(false), None),
    }
}

} // verus!
