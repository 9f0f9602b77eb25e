//! Integer points.

use vstd::prelude::*;

verus! {

/// A point with `i32` coordinates.
#[derive(Clone, Copy, Debug, Default, PartialEq, Eq, Structural, Hash)]
pub struct PointI32 {
    pub x: i32,
    pub y: i32,
}

impl PointI32 {
    pub fn new(x: i32, y: i32) -> (p: Self)
        ensures
            p.x == x,
            p.y == y,
    {
        PointI32 { x, y }
    }

    /// `self + o`, as mathematical integers.
    pub open spec fn shifted_by(self, o: PointI32) -> PointI32 {
        PointI32 { x: (self.x + o.x) as i32, y: (self.y + o.y) as i32 }
    }

    /// `-self`, as mathematical integers.
    pub open spec fn negated(self) -> PointI32 {
        PointI32 { x: (-self.x) as i32, y: (-self.y) as i32 }
    }

    /// Whether `self + o` fits in `i32` coordinates.
    pub open spec fn can_shift_by(self, o: PointI32) -> bool {
        i32::MIN <= self.x + o.x <= i32::MAX && i32::MIN <= self.y + o.y <= i32::MAX
    }
}

} // verus!
