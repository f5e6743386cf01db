//! Geometric primitives: integer points and rectangles.
//!
//! All coordinates are integer pixel units. Every produced rectangle is kept
//! inside [`COORD_LIMIT`] so that coordinate arithmetic never overflows.

use vstd::prelude::*;

verus! {

/// Every coordinate the layout engines produce stays within this bound,
/// which leaves ample room for exact `i64` arithmetic on sums of coordinates.
pub const COORD_LIMIT: i64 = 0x8_0000_0000_0000;

/// A point in the plane.
#[derive(Clone, Copy, Debug, PartialEq, Eq, Structural)]
pub struct Point {
    pub x: i64,
    pub y: i64,
}

impl Point {
    /// True when both coordinates lie within the global coordinate bound.
    pub open spec fn in_range(self) -> bool {
        -COORD_LIMIT <= self.x <= COORD_LIMIT && -COORD_LIMIT <= self.y <= COORD_LIMIT
    }

    pub fn new(x: i64, y: i64) -> (p: Point)
        ensures
            p == (Point { x, y }),
    {
        Point { x, y }
    }
}

/// An axis-aligned rectangle given by its origin and its extent.
#[derive(Clone, Copy, Debug, PartialEq, Eq, Structural)]
pub struct Rect {
    pub x: i64,
    pub y: i64,
    pub width: i64,
    pub height: i64,
}

impl Rect {
    /// The x coordinate of the right edge.
    pub open spec fn right(self) -> int {
        self.x + self.width
    }

    /// The y coordinate of the bottom edge.
    pub open spec fn bottom(self) -> int {
        self.y + self.height
    }

    /// A rectangle with positive extent in both dimensions.
    pub open spec fn is_positive(self) -> bool {
        self.width > 0 && self.height > 0
    }

    /// True when origin and extent lie within the global coordinate bound.
    pub open spec fn in_range(self) -> bool {
        &&& -COORD_LIMIT <= self.x <= COORD_LIMIT
        &&& -COORD_LIMIT <= self.y <= COORD_LIMIT
        &&& 0 <= self.width <= COORD_LIMIT
        &&& 0 <= self.height <= COORD_LIMIT
    }

    /// `inner` lies inside `self` (edges may coincide).
    pub open spec fn contains_rect(self, inner: Rect) -> bool {
        &&& self.x <= inner.x
        &&& self.y <= inner.y
        &&& inner.right() <= self.right()
        &&& inner.bottom() <= self.bottom()
    }

    pub fn new(x: i64, y: i64, width: i64, height: i64) -> (r: Rect)
        ensures
            r == (Rect { x, y, width, height }),
    {
        Rect { x, y, width, height }
    }
}

/// The larger of two machine integers.
pub fn imax(a: i64, b: i64) -> (r: i64)
    ensures
        r == spec_imax(a as int, b as int),
{
    if a >= b {
        a
    } else {
        b
    }
}

/// The smaller of two machine integers.
pub fn imin(a: i64, b: i64) -> (r: i64)
    ensures
        r == spec_imin(a as int, b as int),
{
    if a <= b {
        a
    } else {
        b
    }
}

/// Multiplies two bounded nonnegative machine integers exactly.
pub fn mul_nn(a: i64, b: i64, Ghost(ca): Ghost<int>, Ghost(cb): Ghost<int>) -> (r: i64)
    requires
        0 <= a <= ca,
        0 <= b <= cb,
        ca * cb <= 0x4000_0000_0000,
        0 <= ca,
        0 <= cb,
    ensures
        r == a * b,
        0 <= r <= ca * cb,
{
    proof {
        assert(0 <= a * b <= ca * cb) by (nonlinear_arith)
            requires
                0 <= a <= ca,
                0 <= b <= cb,
        ;
    }
    a * b
}

pub open spec fn spec_imax(a: int, b: int) -> int {
    if a >= b {
        a
    } else {
        b
    }
}

pub open spec fn spec_imin(a: int, b: int) -> int {
    if a <= b {
        a
    } else {
        b
    }
}

} // verus!
