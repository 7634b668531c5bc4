//! Integer rectangles, the coordinate carrier of the block search.

use vstd::prelude::*;

verus! {

/// An axis-aligned rectangle in pixel coordinates, origin at the top left.
#[derive(Clone, Copy, PartialEq, Eq, Structural, Debug)]
pub struct Rect {
    pub x: u32,
    pub y: u32,
    pub w: u32,
    pub h: u32,
}

impl Rect {
    /// Containment, half-open on the high edges.
    pub open spec fn spec_is_in(self, px: int, py: int) -> bool {
        &&& self.x <= px < self.x + self.w
        &&& self.y <= py < self.y + self.h
    }

    pub fn is_in(&self, x: u32, y: u32) -> (r: bool)
        ensures
            r == self.spec_is_in(x as int, y as int),
    {
        x >= self.x && x - self.x < self.w && y >= self.y && y - self.y < self.h
    }
}

} // verus!
