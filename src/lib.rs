//! A declarative UI-construction core: a retained tree of keyed nodes and
//! state slots that is reconciled, pass after pass, against what the
//! application describes.
//!
//! - `cursor`: forward-only matching of one keyed collection, and its model.
//! - `laws`: what a pass does to a collection, proved over that model.
//! - `tree`, `ui`: the retained tree, and the build pass that rebuilds it.
//! - `state`: cells and stores kept in state slots.
//! - `converge`: repeating passes within a frame until they settle.
//! - `dispatch`, `layout`, `paint`, `event`, `node`: events, layout, the
//!   paint pass and the per-node state that is merged up the tree.
pub mod action;
pub mod bloom;
pub mod constraints;
pub mod context;
pub mod converge;
pub mod cursor;
pub mod dispatch;
pub mod event;
pub mod id;
pub mod key;
pub mod laws;
pub mod layout;
pub mod node;
pub mod paint;
pub mod state;
pub mod tree;
pub mod ui;
pub mod widgets;
