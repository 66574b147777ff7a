//! Input events, lifecycle notifications, and the delivery trace.

use vstd::prelude::*;
use crate::mouse::{ClickEvent, MoveEvent};

verus! {

/// An input event fed into the dispatch engine at the tree root.
#[derive(Clone, Copy, PartialEq, Eq, Structural, Debug)]
pub enum Event {
    /// The pointer moved.
    MouseMoved(MoveEvent),
    /// A mouse button was pressed.
    MouseDown(ClickEvent),
    /// A mouse button was released.
    MouseUp(ClickEvent),
    /// An addressed or broadcast command; the selector identifies the
    /// intent.
    Command(u64),
    /// The window this tree lives in was connected to the shell.
    WindowConnected,
}

/// A lifecycle notification, distinct from raw input: it reports a
/// structural or derived-state change to the widget it concerns.
#[derive(Clone, Copy, PartialEq, Eq, Structural, Debug)]
pub enum LifeCycle {
    /// The widget was attached to a connected tree.
    WidgetAdded,
    /// The widget's hotness changed to the carried value.
    HotChanged(bool),
    /// The widget gained (`true`) or lost (`false`) keyboard focus.
    FocusChanged(bool),
}

/// The kind of an input event, without its payload; used in the
/// delivery trace.
#[derive(Clone, Copy, PartialEq, Eq, Structural, Debug)]
pub enum EventKind {
    MouseMoved,
    MouseDown,
    MouseUp,
    /// A command with the carried selector.
    Command(u64),
    WindowConnected,
}

/// One delivery a dispatch pass made: either an input event or a
/// lifecycle notification reached a widget.
#[derive(Clone, Copy, PartialEq, Eq, Structural, Debug)]
pub enum Record {
    /// An input event of this kind was delivered.
    E(EventKind),
    /// This lifecycle notification was delivered.
    L(LifeCycle),
}

/// A delivery trace entry: which widget received which record. A
/// dispatch pass returns its deliveries in order, so callers can check
/// exactly what each widget saw.
#[derive(Clone, Copy, PartialEq, Eq, Structural, Debug)]
pub struct TraceRecord {
    pub id: u64,
    pub rec: Record,
}

} // verus!
