//! Axis-aligned rectangles with a half-open overlap test.

use vstd::prelude::*;

verus! {

/// An axis-aligned rectangle: a top-left position and a size.
#[derive(Clone, Copy, Debug)]
pub struct Rect {
    pub pos: (u32, u32),
    pub size: (u32, u32),
}

/// Whether two half-open extents `[a, a + la)` and `[b, b + lb)` share a
/// point. An empty extent shares none, and extents that only touch share
/// none either.
pub open spec fn spans_overlap(a: int, la: int, b: int, lb: int) -> bool {
    la > 0 && lb > 0 && a < b + lb && a + la > b
}

impl Rect {
    /// The far corner, `pos + size`, on both axes as mathematical integers.
    pub open spec fn max_x(&self) -> int {
        self.pos.0 + self.size.0
    }

    pub open spec fn max_y(&self) -> int {
        self.pos.1 + self.size.1
    }

    /// Two rectangles intersect when their half-open extents share a point
    /// on both axes; rectangles that only touch along an edge, and empty
    /// rectangles, do not intersect.
    pub open spec fn spec_intersects(&self, other: Rect) -> bool {
        spans_overlap(self.pos.0 as int, self.size.0 as int, other.pos.0 as int, other.size.0 as int)
            && spans_overlap(self.pos.1 as int, self.size.1 as int, other.pos.1 as int, other.size.1 as int)
    }

    /// Whether the rectangle lies strictly inside a bucket of the given size:
    /// its far corner must be smaller than the bucket's size on both axes.
    pub open spec fn strictly_inside(&self, bounds: (u32, u32)) -> bool {
        self.max_x() < bounds.0 && self.max_y() < bounds.1
    }

    pub fn intersects(&self, other: &Rect) -> (r: bool)
        ensures
            r == self.spec_intersects(*other),
    {
        let self_max_x = self.pos.0 as u64 + self.size.0 as u64;
        let self_max_y = self.pos.1 as u64 + self.size.1 as u64;
        let other_max_x = other.pos.0 as u64 + other.size.0 as u64;
        let other_max_y = other.pos.1 as u64 + other.size.1 as u64;

        let not_empty = self.size.0 > 0 && self.size.1 > 0 && other.size.0 > 0 && other.size.1 > 0;
        let x_intersect = (self.pos.0 as u64) < other_max_x && self_max_x > other.pos.0 as u64;
        let y_intersect = (self.pos.1 as u64) < other_max_y && self_max_y > other.pos.1 as u64;

        not_empty && x_intersect && y_intersect
    }

    pub fn max(&self) -> (r: (u32, u32))
        requires
            self.max_x() <= u32::MAX,
            self.max_y() <= u32::MAX,
        ensures
            r.0 == self.max_x(),
            r.1 == self.max_y(),
    {
        (self.pos.0 + self.size.0, self.pos.1 + self.size.1)
    }
}

/// Shrinking two rectangles in place, keeping their positions, cannot make
/// them start to intersect.
pub proof fn lemma_shrink_keeps_disjoint(a: Rect, b: Rect, a2: Rect, b2: Rect)
    requires
        !a.spec_intersects(b),
        a2.pos == a.pos,
        b2.pos == b.pos,
        a2.size.0 <= a.size.0,
        a2.size.1 <= a.size.1,
        b2.size.0 <= b.size.0,
        b2.size.1 <= b.size.1,
    ensures
        !a2.spec_intersects(b2),
{
}

} // verus!
