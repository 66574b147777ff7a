//! Integer geometry for layout: sizes, rectangles and box constraints.

use vstd::prelude::*;

verus! {

/// Upper bound on coordinates and extents, so that sums of two of them
/// stay well inside `i64`.
pub const COORD_LIMIT: i64 = 0x4000_0000;

/// A size returned by layout, in integer pixel units.
#[derive(Clone, Copy, PartialEq, Eq, Structural, Debug)]
pub struct WidgetSize {
    pub width: i64,
    pub height: i64,
}

impl WidgetSize {
    /// Extents are non-negative and bounded.
    pub open spec fn wf(self) -> bool {
        &&& 0 <= self.width <= COORD_LIMIT
        &&& 0 <= self.height <= COORD_LIMIT
    }
}

/// The bounds a parent assigns to a child during layout, with the origin
/// relative to the parent's own origin.
#[derive(Clone, Copy, PartialEq, Eq, Structural, Debug)]
pub struct WidgetRect {
    pub x: i64,
    pub y: i64,
    pub width: i64,
    pub height: i64,
}

impl WidgetRect {
    /// Origin and extents are non-negative and bounded.
    pub open spec fn wf(self) -> bool {
        &&& 0 <= self.x <= COORD_LIMIT
        &&& 0 <= self.y <= COORD_LIMIT
        &&& 0 <= self.width <= COORD_LIMIT
        &&& 0 <= self.height <= COORD_LIMIT
    }

    /// Whether the point `(px, py)`, in the rectangle's own coordinate
    /// space, falls inside it.
    pub open spec fn contains_spec(self, px: int, py: int) -> bool {
        &&& self.x <= px < self.x + self.width
        &&& self.y <= py < self.y + self.height
    }

    /// Build a rectangle; the caller supplies coordinates within
    /// [`COORD_LIMIT`].
    pub fn new(x: i64, y: i64, width: i64, height: i64) -> (r: WidgetRect)
        requires
            0 <= x <= COORD_LIMIT,
            0 <= y <= COORD_LIMIT,
            0 <= width <= COORD_LIMIT,
            0 <= height <= COORD_LIMIT,
        ensures
            r == (WidgetRect { x, y, width, height }),
            r.wf(),
    {
        WidgetRect { x, y, width, height }
    }

    /// Whether the point `(px, py)` falls inside the rectangle.
    pub fn contains(&self, px: i64, py: i64) -> (r: bool)
        requires
            self.wf(),
        ensures
            r == self.contains_spec(px as int, py as int),
    {
        self.x <= px && px < self.x + self.width && self.y <= py && py < self.y + self.height
    }
}

/// The constraints a parent offers a child during size negotiation: the
/// child must answer with a size between `min` and `max`, component-wise.
#[derive(Clone, Copy, PartialEq, Eq, Structural, Debug)]
pub struct BoxConstraints {
    pub min_width: i64,
    pub min_height: i64,
    pub max_width: i64,
    pub max_height: i64,
}

impl BoxConstraints {
    /// Minima are at most the maxima, and all bounds are non-negative
    /// and bounded.
    pub open spec fn wf(self) -> bool {
        &&& 0 <= self.min_width <= self.max_width <= COORD_LIMIT
        &&& 0 <= self.min_height <= self.max_height <= COORD_LIMIT
    }

    /// Whether `size` satisfies the constraints component-wise.
    pub open spec fn satisfied_by_spec(self, size: WidgetSize) -> bool {
        &&& self.min_width <= size.width <= self.max_width
        &&& self.min_height <= size.height <= self.max_height
    }

    /// Build a constraint box from its corner values.
    pub fn new(min_width: i64, min_height: i64, max_width: i64, max_height: i64) -> (r:
        BoxConstraints)
        requires
            0 <= min_width <= max_width <= COORD_LIMIT,
            0 <= min_height <= max_height <= COORD_LIMIT,
        ensures
            r == (BoxConstraints { min_width, min_height, max_width, max_height }),
            r.wf(),
    {
        BoxConstraints { min_width, min_height, max_width, max_height }
    }

    /// Whether `size` satisfies the constraints component-wise. A child
    /// that answers layout with a size for which this is false violates
    /// the protocol; the violation is reported, never silently clamped.
    pub fn is_satisfied_by(&self, size: &WidgetSize) -> (r: bool)
        ensures
            r == self.satisfied_by_spec(*size),
    {
        self.min_width <= size.width && size.width <= self.max_width && self.min_height
            <= size.height && size.height <= self.max_height
    }

    /// Clamp `size` into the constraints, component-wise.
    pub fn constrain(&self, size: &WidgetSize) -> (r: WidgetSize)
        requires
            self.wf(),
        ensures
            r.width == if size.width < self.min_width {
                self.min_width
            } else if size.width > self.max_width {
                self.max_width
            } else {
                size.width
            },
            r.height == if size.height < self.min_height {
                self.min_height
            } else if size.height > self.max_height {
                self.max_height
            } else {
                size.height
            },
            self.satisfied_by_spec(r),
            r.wf(),
    {
        let width = if size.width < self.min_width {
            self.min_width
        } else if size.width > self.max_width {
            self.max_width
        } else {
            size.width
        };
        let height = if size.height < self.min_height {
            self.min_height
        } else if size.height > self.max_height {
            self.max_height
        } else {
            size.height
        };
        WidgetSize { width, height }
    }
}

} // verus!
