//! Common types for representing mouse events and state.

use vstd::prelude::*;

verus! {

/// A position in the window, in integer pixel units.
#[derive(Clone, Copy, PartialEq, Eq, Structural, Debug)]
pub struct Point {
    pub x: i64,
    pub y: i64,
}

/// Keyboard modifiers held at the time of an event.
#[derive(Clone, Copy, PartialEq, Eq, Structural, Debug, Default)]
pub struct KeyModifiers {
    pub shift: bool,
    pub alt: bool,
    pub ctrl: bool,
    pub meta: bool,
}

/// Information about the mouse move event.
#[derive(Clone, Copy, PartialEq, Eq, Structural, Debug)]
pub struct MoveEvent {
    /// The location of the mouse in the current window.
    pub pos: Point,
    /// Mouse buttons being held down at the time of the event.
    pub buttons: MouseButtons,
    /// Keyboard modifiers at the time of the event.
    pub mods: KeyModifiers,
}

/// Information about the mouse click event.
#[derive(Clone, Copy, PartialEq, Eq, Structural, Debug)]
pub struct ClickEvent {
    /// The location of the mouse in the current window.
    pub pos: Point,
    /// Mouse buttons being held down after the event: the `button` that
    /// triggered a mouse-down is in the set, the one that triggered a
    /// mouse-up is not.
    pub buttons: MouseButtons,
    /// Keyboard modifiers at the time of the event.
    pub mods: KeyModifiers,
    /// The number of mouse clicks associated with this event; always `0`
    /// for a mouse-up event.
    pub count: u8,
    /// The button that was pressed or released.
    pub button: MouseButton,
}

/// An indicator of which mouse button was pressed.
#[derive(PartialEq, Eq, Structural, Clone, Copy, Debug)]
pub enum MouseButton {
    /// Left mouse button.
    Left,
    /// Right mouse button.
    Right,
    /// Middle mouse button.
    Middle,
    /// First X button.
    X1,
    /// Second X button.
    X2,
    /// Some other unknown button.
    Other,
}

impl MouseButton {
    /// The bit position this button occupies inside a [`MouseButtons`] set.
    pub open spec fn code_spec(self) -> u8 {
        match self {
            MouseButton::Left => 0,
            MouseButton::Right => 1,
            MouseButton::Middle => 2,
            MouseButton::X1 => 3,
            MouseButton::X2 => 4,
            MouseButton::Other => 5,
        }
    }

    /// The bit position this button occupies inside a [`MouseButtons`] set.
    #[verifier::when_used_as_spec(code_spec)]
    pub fn code(self) -> (r: u8)
        ensures
            r == self.code_spec(),
            r < 6,
    {
        match self {
            MouseButton::Left => 0,
            MouseButton::Right => 1,
            MouseButton::Middle => 2,
            MouseButton::X1 => 3,
            MouseButton::X2 => 4,
            MouseButton::Other => 5,
        }
    }

    /// Returns `true` if this is `MouseButton::Left`.
    pub fn is_left(self) -> (r: bool)
        ensures
            r == (self == MouseButton::Left),
    {
        self == MouseButton::Left
    }

    /// Returns `true` if this is `MouseButton::Right`.
    pub fn is_right(self) -> (r: bool)
        ensures
            r == (self == MouseButton::Right),
    {
        self == MouseButton::Right
    }

    /// Returns `true` if this is `MouseButton::Middle`.
    pub fn is_middle(self) -> (r: bool)
        ensures
            r == (self == MouseButton::Middle),
    {
        self == MouseButton::Middle
    }

    /// Returns `true` if this is `MouseButton::X1`.
    pub fn is_x1(self) -> (r: bool)
        ensures
            r == (self == MouseButton::X1),
    {
        self == MouseButton::X1
    }

    /// Returns `true` if this is `MouseButton::X2`.
    pub fn is_x2(self) -> (r: bool)
        ensures
            r == (self == MouseButton::X2),
    {
        self == MouseButton::X2
    }

    /// Returns `true` if this is `MouseButton::Other`.
    pub fn is_other(self) -> (r: bool)
        ensures
            r == (self == MouseButton::Other),
    {
        self == MouseButton::Other
    }
}

/// The button whose bit position is `c`.
pub open spec fn button_of_code(c: u8) -> MouseButton {
    if c == 0 {
        MouseButton::Left
    } else if c == 1 {
        MouseButton::Right
    } else if c == 2 {
        MouseButton::Middle
    } else if c == 3 {
        MouseButton::X1
    } else if c == 4 {
        MouseButton::X2
    } else {
        MouseButton::Other
    }
}

/// Distinct buttons occupy distinct bit positions: decoding a button's
/// code gives the button back.
pub proof fn lemma_code_roundtrip(b: MouseButton)
    ensures
        button_of_code(b.code_spec()) == b,
{
    match b {
        MouseButton::Left => {},
        MouseButton::Right => {},
        MouseButton::Middle => {},
        MouseButton::X1 => {},
        MouseButton::X2 => {},
        MouseButton::Other => {},
    }
}

/// A set of [`MouseButton`]s, stored as one bit per button.
#[derive(PartialEq, Eq, Structural, Clone, Copy, Debug)]
pub struct MouseButtons {
    bits: u8,
}

impl MouseButtons {
    /// Only the six button bits may be set; every constructor and method
    /// of this type preserves this.
    pub closed spec fn wf(self) -> bool {
        self.bits < 64
    }

    /// Whether `button` is in the set.
    pub closed spec fn has_spec(self, button: MouseButton) -> bool {
        self.bits & (1u8 << button.code_spec()) != 0
    }

    /// Create a new empty set.
    pub fn new() -> (r: MouseButtons)
        ensures
            r.wf(),
            forall|b: MouseButton| !(#[trigger] r.has_spec(b)),
    {
        let r = MouseButtons { bits: 0 };
        proof {
            assert forall|b: MouseButton| !(#[trigger] r.has_spec(b)) by {
                let c = b.code_spec();
                assert(0u8 & (1u8 << c) == 0) by (bit_vector);
            }
        }
        r
    }

    /// Add the `button` to the set.
    pub fn add(&mut self, button: MouseButton)
        requires
            old(self).wf(),
        ensures
            final(self).wf(),
            forall|b: MouseButton|
                (#[trigger] final(self).has_spec(b)) == (b == button || old(self).has_spec(b)),
    {
        let ghost pre = *self;
        self.bits = self.bits | (1u8 << button.code());
        proof {
            let c = button.code_spec();
            let x = pre.bits;
            assert(x < 64 && c < 6 ==> (x | (1u8 << c)) < 64) by (bit_vector);
            assert forall|b: MouseButton|
                (#[trigger] self.has_spec(b)) == (b == button || pre.has_spec(b)) by {
                let c2 = b.code_spec();
                lemma_code_roundtrip(b);
                lemma_code_roundtrip(button);
                assert(c < 6 && c2 < 6 ==> ((x | (1u8 << c)) & (1u8 << c2) != 0)
                    == (c == c2 || x & (1u8 << c2) != 0)) by (bit_vector);
            }
        }
    }

    /// Remove the `button` from the set.
    pub fn remove(&mut self, button: MouseButton)
        requires
            old(self).wf(),
        ensures
            final(self).wf(),
            forall|b: MouseButton|
                (#[trigger] final(self).has_spec(b)) == (b != button && old(self).has_spec(b)),
    {
        let ghost pre = *self;
        self.bits = self.bits & !(1u8 << button.code());
        proof {
            let c = button.code_spec();
            let x = pre.bits;
            assert(x < 64 ==> (x & !(1u8 << c)) < 64) by (bit_vector);
            assert forall|b: MouseButton|
                (#[trigger] self.has_spec(b)) == (b != button && pre.has_spec(b)) by {
                let c2 = b.code_spec();
                lemma_code_roundtrip(b);
                lemma_code_roundtrip(button);
                assert(c < 6 && c2 < 6 ==> ((x & !(1u8 << c)) & (1u8 << c2) != 0)
                    == (c != c2 && x & (1u8 << c2) != 0)) by (bit_vector);
            }
        }
    }

    /// Builder-style method for adding the `button` to the set.
    pub fn with(self, button: MouseButton) -> (r: MouseButtons)
        requires
            self.wf(),
        ensures
            r.wf(),
            forall|b: MouseButton| (#[trigger] r.has_spec(b)) == (b == button || self.has_spec(b)),
    {
        let mut s = self;
        s.add(button);
        s
    }

    /// Builder-style method for removing the `button` from the set.
    pub fn without(self, button: MouseButton) -> (r: MouseButtons)
        requires
            self.wf(),
        ensures
            r.wf(),
            forall|b: MouseButton| (#[trigger] r.has_spec(b)) == (b != button && self.has_spec(b)),
    {
        let mut s = self;
        s.remove(button);
        s
    }

    /// Returns `true` if the `button` is in the set.
    pub fn has(self, button: MouseButton) -> (r: bool)
        ensures
            r == self.has_spec(button),
    {
        (self.bits & (1u8 << button.code())) != 0
    }

    /// Returns `true` if any button is in the set.
    pub fn has_any(self) -> (r: bool)
        requires
            self.wf(),
        ensures
            r == exists|b: MouseButton| self.has_spec(b),
    {
        let r = self.bits != 0;
        proof {
            if r {
                let bits = self.bits;
                assert(bits < 64 && bits != 0 ==> (bits & (1u8 << 0) != 0 || bits & (1u8 << 1)
                    != 0 || bits & (1u8 << 2) != 0 || bits & (1u8 << 3) != 0 || bits & (1u8
                    << 4) != 0 || bits & (1u8 << 5) != 0)) by (bit_vector);
                if bits & (1u8 << 0) != 0 {
                    assert(self.has_spec(MouseButton::Left));
                } else if bits & (1u8 << 1) != 0 {
                    assert(self.has_spec(MouseButton::Right));
                } else if bits & (1u8 << 2) != 0 {
                    assert(self.has_spec(MouseButton::Middle));
                } else if bits & (1u8 << 3) != 0 {
                    assert(self.has_spec(MouseButton::X1));
                } else if bits & (1u8 << 4) != 0 {
                    assert(self.has_spec(MouseButton::X2));
                } else {
                    assert(self.has_spec(MouseButton::Other));
                }
            } else {
                assert forall|b: MouseButton| !(#[trigger] self.has_spec(b)) by {
                    let c = b.code_spec();
                    assert(0u8 & (1u8 << c) == 0) by (bit_vector);
                }
            }
        }
        r
    }

    /// Returns `true` if the set is empty.
    pub fn has_none(self) -> (r: bool)
        requires
            self.wf(),
        ensures
            r == forall|b: MouseButton| !self.has_spec(b),
    {
        !self.has_any()
    }

    /// Returns `true` if `MouseButton::Left` is in the set.
    pub fn has_left(self) -> (r: bool)
        ensures
            r == self.has_spec(MouseButton::Left),
    {
        self.has(MouseButton::Left)
    }

    /// Returns `true` if `MouseButton::Right` is in the set.
    pub fn has_right(self) -> (r: bool)
        ensures
            r == self.has_spec(MouseButton::Right),
    {
        self.has(MouseButton::Right)
    }

    /// Returns `true` if `MouseButton::Middle` is in the set.
    pub fn has_middle(self) -> (r: bool)
        ensures
            r == self.has_spec(MouseButton::Middle),
    {
        self.has(MouseButton::Middle)
    }

    /// Returns `true` if `MouseButton::X1` is in the set.
    pub fn has_x1(self) -> (r: bool)
        ensures
            r == self.has_spec(MouseButton::X1),
    {
        self.has(MouseButton::X1)
    }

    /// Returns `true` if `MouseButton::X2` is in the set.
    pub fn has_x2(self) -> (r: bool)
        ensures
            r == self.has_spec(MouseButton::X2),
    {
        self.has(MouseButton::X2)
    }

    /// Returns `true` if `MouseButton::Other` is in the set.
    pub fn has_other(self) -> (r: bool)
        ensures
            r == self.has_spec(MouseButton::Other),
    {
        self.has(MouseButton::Other)
    }

    /// Adds all the buttons in `other` to the set.
    pub fn union(&mut self, other: MouseButtons)
        requires
            old(self).wf(),
            other.wf(),
        ensures
            final(self).wf(),
            forall|b: MouseButton|
                (#[trigger] final(self).has_spec(b)) == (old(self).has_spec(b) || other.has_spec(b)),
    {
        let ghost pre = *self;
        self.bits = self.bits | other.bits;
        proof {
            let x = pre.bits;
            let y = other.bits;
            assert(x < 64 && y < 64 ==> (x | y) < 64) by (bit_vector);
            assert forall|b: MouseButton|
                (#[trigger] self.has_spec(b)) == (pre.has_spec(b) || other.has_spec(b)) by {
                let c = b.code_spec();
                assert(((x | y) & (1u8 << c) != 0) == (x & (1u8 << c) != 0 || y & (1u8 << c)
                    != 0)) by (bit_vector);
            }
        }
    }

    /// Builder-style method for adding all the buttons in `other`.
    pub fn with_other(self, other: MouseButtons) -> (r: MouseButtons)
        requires
            self.wf(),
            other.wf(),
        ensures
            r.wf(),
            forall|b: MouseButton| (#[trigger] r.has_spec(b)) == (self.has_spec(b) || other.has_spec(b)),
    {
        let mut s = self;
        s.union(other);
        s
    }

    /// Clear the set.
    pub fn clear(&mut self)
        ensures
            final(self).wf(),
            forall|b: MouseButton| !(#[trigger] final(self).has_spec(b)),
    {
        self.bits = 0;
        proof {
            assert forall|b: MouseButton| !(#[trigger] self.has_spec(b)) by {
                let c = b.code_spec();
                assert(0u8 & (1u8 << c) == 0) by (bit_vector);
            }
        }
    }
}

/// Mouse cursors a widget may request from the shell.
#[derive(Clone, Copy, PartialEq, Eq, Structural, Debug)]
pub enum Cursor {
    /// The default arrow cursor.
    Arrow,
    /// A vertical I-beam, for indicating insertion points in text.
    IBeam,
    Crosshair,
    OpenHand,
    NotAllowed,
    ResizeLeftRight,
    ResizeUpDown,
}

} // verus!
