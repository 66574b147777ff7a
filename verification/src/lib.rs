//! Event and state core for a widget-tree GUI toolkit.
//!
//! The crate tracks per-widget derived state (hot, active, focus, child
//! membership) and propagates input events and lifecycle notifications
//! through a tree of widgets, with the ordering and consistency rules
//! stated as contracts and proved.

pub mod checkbox;
pub mod event;
pub mod fastset;
pub mod geom;
pub mod mouse;
pub mod tree;
