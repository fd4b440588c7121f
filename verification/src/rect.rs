//! Axis-aligned tile-space rectangles and their geometry.

use vstd::prelude::*;

verus! {

/// An axis-aligned rectangle in tile space: `(x, y)` is the top-left
/// corner, `w` and `h` the extent in tiles.
#[derive(Clone, Copy, Debug, PartialEq, Eq, Structural)]
pub struct Rect {
    pub x: usize,
    pub y: usize,
    pub w: usize,
    pub h: usize,
}

impl Rect {
    /// One past the right-most column covered by the rectangle.
    pub open spec fn right(self) -> int {
        self.x + self.w
    }

    /// One past the bottom-most row covered by the rectangle.
    pub open spec fn bottom(self) -> int {
        self.y + self.h
    }

    pub open spec fn area(self) -> int {
        self.w * self.h
    }

    /// The tile `(px, py)` lies inside the rectangle.
    pub open spec fn contains(self, px: int, py: int) -> bool {
        self.x <= px < self.right() && self.y <= py < self.bottom()
    }

    /// No tile lies in both rectangles.
    pub open spec fn disjoint(self, other: Rect) -> bool {
        self.right() <= other.x || other.right() <= self.x
            || self.bottom() <= other.y || other.bottom() <= self.y
    }

    /// Every tile of `self` lies in `outer`.
    pub open spec fn within(self, outer: Rect) -> bool {
        &&& outer.x <= self.x
        &&& outer.y <= self.y
        &&& self.right() <= outer.right()
        &&& self.bottom() <= outer.bottom()
    }

    /// Integer midpoint, remainders truncated toward the top-left.
    pub open spec fn center_x(self) -> int {
        self.x + self.w / 2
    }

    /// Integer midpoint, remainders truncated toward the top-left.
    pub open spec fn center_y(self) -> int {
        self.y + self.h / 2
    }

    pub fn new(x: usize, y: usize, w: usize, h: usize) -> (r: Rect)
        ensures
            r == (Rect { x, y, w, h }),
    {
        Rect { x, y, w, h }
    }

    /// Integer midpoint of the rectangle.
    pub fn center(&self) -> (c: (usize, usize))
        requires
            self.x + self.w <= usize::MAX,
            self.y + self.h <= usize::MAX,
        ensures
            c.0 == self.center_x(),
            c.1 == self.center_y(),
    {
        (self.x + self.w / 2, self.y + self.h / 2)
    }
}

} // verus!
