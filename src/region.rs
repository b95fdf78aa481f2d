use vstd::prelude::*;

use crate::coord::{trunc_div, Coord};

verus! {

/// An axis-aligned box of the integer plane, boundary included.
///
/// A region is meant to have `min.x <= max.x` and `min.y <= max.y`; the
/// operations below do not depend on it unless their contract says so.
#[derive(Debug, Copy, Clone, PartialEq, Eq, Structural)]
pub struct Region {
    pub min: Coord,
    pub max: Coord,
}

/// `min <= max` on both axes.
pub open spec fn well_formed(r: Region) -> bool {
    r.min.x <= r.max.x && r.min.y <= r.max.y
}

/// The extent `max - min` of each axis is an `i32`.
pub open spec fn extent_fits(r: Region) -> bool {
    i32::MIN <= r.max.x - r.min.x <= i32::MAX && i32::MIN <= r.max.y - r.min.y <= i32::MAX
}

/// The closed intervals of `a` and `b` overlap on both axes.
pub open spec fn meets(a: Region, b: Region) -> bool {
    a.min.x <= b.max.x && a.max.x >= b.min.x && a.min.y <= b.max.y && a.max.y >= b.min.y
}

/// The point `(x, y)` lies in `r`, boundary included.
pub open spec fn holds_point(r: Region, x: int, y: int) -> bool {
    r.min.x <= x <= r.max.x && r.min.y <= y <= r.max.y
}

/// The open interiors of `a` and `b` overlap.
pub open spec fn interiors_overlap(a: Region, b: Region) -> bool {
    a.min.x < b.max.x && b.min.x < a.max.x && a.min.y < b.max.y && b.min.y < a.max.y
}

/// Half the width of `r`, rounded toward zero.
pub open spec fn half_width(r: Region) -> int {
    trunc_div(r.max.x - r.min.x, 2)
}

/// Half the height of `r`, rounded toward zero.
pub open spec fn half_height(r: Region) -> int {
    trunc_div(r.max.y - r.min.y, 2)
}

pub open spec fn region_of(min_x: int, min_y: int, max_x: int, max_y: int) -> Region {
    Region {
        min: Coord { x: min_x as i32, y: min_y as i32 },
        max: Coord { x: max_x as i32, y: max_y as i32 },
    }
}

/// The quadrant `i` of `r`, in the order top-left, top-right, bottom-left,
/// bottom-right. All four meet at the midpoint `m = min + (max - min) / 2`,
/// halves rounded toward zero, so that an odd extent leaves the extra unit to
/// the top and right quadrants.
pub open spec fn quadrant(r: Region, i: int) -> Region {
    let mx = r.min.x + half_width(r);
    let my = r.min.y + half_height(r);
    if i == 0 {
        region_of(r.min.x as int, my, mx, r.max.y as int)
    } else if i == 1 {
        region_of(mx, my, r.max.x as int, r.max.y as int)
    } else if i == 2 {
        region_of(r.min.x as int, r.min.y as int, mx, my)
    } else {
        region_of(mx, r.min.y as int, r.max.x as int, my)
    }
}

impl Region {
    pub fn new(min: Coord, max: Coord) -> (r: Region)
        ensures
            r.min == min,
            r.max == max,
    {
        Region { min, max }
    }

    /// The region grown by `margin` on every side.
    pub fn with_margin(&self, margin: i32) -> (r: Region)
        requires
            i32::MIN <= self.min.x - margin <= i32::MAX,
            i32::MIN <= self.min.y - margin <= i32::MAX,
            i32::MIN <= self.max.x + margin <= i32::MAX,
            i32::MIN <= self.max.y + margin <= i32::MAX,
        ensures
            r.min.x == self.min.x - margin,
            r.min.y == self.min.y - margin,
            r.max.x == self.max.x + margin,
            r.max.y == self.max.y + margin,
    {
        Region::new(
            Coord::new(self.min.x - margin, self.min.y - margin),
            Coord::new(self.max.x + margin, self.max.y + margin),
        )
    }

    /// Whether the two regions overlap; touching edges count.
    pub fn intersects(&self, other: &Region) -> (r: bool)
        ensures
            r == meets(*self, *other),
    {
        self.min.x <= other.max.x && self.max.x >= other.min.x && self.min.y <= other.max.y
            && self.max.y >= other.min.y
    }

    /// The four quadrants: top-left, top-right, bottom-left, bottom-right.
    pub fn quad_divide(&self) -> (r: [Region; 4])
        requires
            extent_fits(*self),
        ensures
            forall|i: int| 0 <= i < 4 ==> #[trigger] r@[i] == quadrant(*self, i),
    {
        let diag = self.max.sub(self.min);
        let half = diag.div(2);
        proof {
            lemma_half_between(diag.x as int);
            lemma_half_between(diag.y as int);
        }
        let mid = self.min.add(half);
        [
            Region::new(Coord::new(self.min.x, mid.y), Coord::new(mid.x, self.max.y)),
            Region::new(mid, self.max),
            Region::new(self.min, mid),
            Region::new(Coord::new(mid.x, self.min.y), Coord::new(self.max.x, mid.y)),
        ]
    }
}

/// Half of `d`, rounded toward zero, lies between `0` and `d`.
pub proof fn lemma_half_between(d: int)
    ensures
        d >= 0 ==> 0 <= trunc_div(d, 2) <= d,
        d < 0 ==> d <= trunc_div(d, 2) <= 0,
        d >= 0 ==> trunc_div(d, 2) == d / 2,
{
}

/// Some point lies in all three regions.
pub open spec fn common_point(a: Region, b: Region, c: Region) -> bool {
    &&& well_formed(a) && well_formed(b) && well_formed(c)
    &&& a.min.x <= b.max.x && a.min.x <= c.max.x
    &&& b.min.x <= a.max.x && b.min.x <= c.max.x
    &&& c.min.x <= a.max.x && c.min.x <= b.max.x
    &&& a.min.y <= b.max.y && a.min.y <= c.max.y
    &&& b.min.y <= a.max.y && b.min.y <= c.max.y
    &&& c.min.y <= a.max.y && c.min.y <= b.max.y
}

/// A point common to `a`, `b` and `r` lies in one of the quadrants of `r`.
pub proof fn lemma_common_point_quadrant(a: Region, b: Region, r: Region)
    requires
        extent_fits(r),
        common_point(a, b, r),
    ensures
        exists|i: int| 0 <= i < 4 && common_point(a, b, #[trigger] quadrant(r, i)),
{
    let x = if a.min.x >= b.min.x && a.min.x >= r.min.x {
        a.min.x as int
    } else if b.min.x >= r.min.x {
        b.min.x as int
    } else {
        r.min.x as int
    };
    let y = if a.min.y >= b.min.y && a.min.y >= r.min.y {
        a.min.y as int
    } else if b.min.y >= r.min.y {
        b.min.y as int
    } else {
        r.min.y as int
    };
    assert(holds_point(r, x, y));
    lemma_quadrants_cover(r);
    let i = choose|i: int| 0 <= i < 4 && holds_point(#[trigger] quadrant(r, i), x, y);
    assert(common_point(a, b, quadrant(r, i)));
}

/// The quadrants of a well-formed region that can be split are well formed
/// and can be split in turn.
pub proof fn lemma_quadrant_fits(r: Region)
    requires
        well_formed(r),
        extent_fits(r),
    ensures
        forall|i: int| 0 <= i < 4 ==> well_formed(#[trigger] quadrant(r, i)) && extent_fits(quadrant(r, i)),
{
    lemma_quadrants_cover(r);
    assert forall|i: int| 0 <= i < 4 implies well_formed(#[trigger] quadrant(r, i)) && extent_fits(quadrant(r, i)) by {
        assert(encloses(r, quadrant(r, i)));
    }
}

/// `b` lies within `a`.
pub open spec fn encloses(a: Region, b: Region) -> bool {
    a.min.x <= b.min.x && b.max.x <= a.max.x && a.min.y <= b.min.y && b.max.y <= a.max.y
}

/// Intersection is symmetric, and a well-formed region intersects itself.
pub proof fn lemma_intersects_symmetric(a: Region, b: Region)
    ensures
        meets(a, b) == meets(b, a),
        well_formed(a) ==> meets(a, a),
{
}

/// The four quadrants of a well-formed region tile it: each is a well-formed
/// part of it, together they reach its corners (so the box around their union
/// is the region), and every point of the region lies in one of them.
pub proof fn lemma_quadrants_cover(r: Region)
    requires
        well_formed(r),
        extent_fits(r),
    ensures
        forall|i: int| 0 <= i < 4 ==> well_formed(#[trigger] quadrant(r, i)) && encloses(r, quadrant(r, i)),
        quadrant(r, 2).min == r.min,
        quadrant(r, 1).max == r.max,
        forall|x: int, y: int| #[trigger] holds_point(r, x, y) ==> exists|i: int| 0 <= i < 4 && holds_point(#[trigger] quadrant(r, i), x, y),
{
    lemma_half_between(r.max.x - r.min.x);
    lemma_half_between(r.max.y - r.min.y);
    assert forall|x: int, y: int| #[trigger] holds_point(r, x, y) implies exists|i: int| 0 <= i < 4 && holds_point(#[trigger] quadrant(r, i), x, y) by {
        let w = half_width(r);
        let h = half_height(r);
        if y >= r.min.y + h {
            if x <= r.min.x + w {
                assert(holds_point(quadrant(r, 0), x, y));
            } else {
                assert(holds_point(quadrant(r, 1), x, y));
            }
        } else {
            if x <= r.min.x + w {
                assert(holds_point(quadrant(r, 2), x, y));
            } else {
                assert(holds_point(quadrant(r, 3), x, y));
            }
        }
    }
}

/// No two quadrants share interior points.
pub proof fn lemma_quadrants_disjoint(r: Region)
    requires
        well_formed(r),
        extent_fits(r),
    ensures
        forall|i: int, j: int|
            0 <= i < 4 && 0 <= j < 4 && i != j ==> !interiors_overlap(#[trigger] quadrant(r, i), #[trigger] quadrant(r, j)),
{
    lemma_half_between(r.max.x - r.min.x);
    lemma_half_between(r.max.y - r.min.y);
}

} // verus!
