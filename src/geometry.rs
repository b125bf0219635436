//! Integer points and axis-aligned square regions.

use vstd::prelude::*;

verus! {

/// A 2D integer point `(x, y)`.
pub type Point = (i32, i32);

/// The smaller of two coordinates.
pub open spec fn min_coord(a: i32, b: i32) -> i32 {
    if a <= b {
        a
    } else {
        b
    }
}

/// The larger of two coordinates.
pub open spec fn max_coord(a: i32, b: i32) -> i32 {
    if a <= b {
        b
    } else {
        a
    }
}

/// Creates a "minimal" and a "maximal" point from two points.
///
/// The minimal point has the smaller x and the smaller y coordinate of `a`
/// and `b`, the maximal point the larger ones.
pub fn point_minmax(a: Point, b: Point) -> (r: (Point, Point))
    ensures
        r.0 == (min_coord(a.0, b.0), min_coord(a.1, b.1)),
        r.1 == (max_coord(a.0, b.0), max_coord(a.1, b.1)),
{
    if a.0 < b.0 {
        if a.1 < b.1 {
            ((a.0, a.1), (b.0, b.1))
        } else {
            ((a.0, b.1), (b.0, a.1))
        }
    } else {
        if a.1 < b.1 {
            ((b.0, a.1), (a.0, b.1))
        } else {
            ((b.0, b.1), (a.0, a.1))
        }
    }
}

/// An axis-aligned square: the half-open region
/// `[cx - half_dim, cx + half_dim) x [cy - half_dim, cy + half_dim)`.
///
/// The center is held with 64-bit coordinates so that the quadrants of a
/// region around any 32-bit point can be described as well.
#[derive(Clone, Copy, Debug)]
pub struct AABB {
    pub center: (i64, i64),
    pub half_dim: i64,
}

impl AABB {
    /// Whether `p` lies in the half-open square.
    pub open spec fn contains_spec(self, p: Point) -> bool {
        &&& self.center.0 - self.half_dim <= p.0 < self.center.0 + self.half_dim
        &&& self.center.1 - self.half_dim <= p.1 < self.center.1 + self.half_dim
    }

    /// Whether the x-projections and the y-projections of the two squares
    /// overlap as half-open intervals.
    pub open spec fn intersects_spec(self, other: AABB) -> bool {
        &&& self.center.0 - self.half_dim < other.center.0 + other.half_dim
        &&& other.center.0 - other.half_dim < self.center.0 + self.half_dim
        &&& self.center.1 - self.half_dim < other.center.1 + other.half_dim
        &&& other.center.1 - other.half_dim < self.center.1 + self.half_dim
    }

    /// Creates the square around `center` with the given half-dimension.
    pub fn new(center: (i64, i64), half_dim: i64) -> (r: AABB)
        requires
            half_dim > 0,
        ensures
            r.center == center,
            r.half_dim == half_dim,
    {
        AABB { center, half_dim }
    }

    /// Whether `p` lies in this square.
    pub fn contains(&self, p: Point) -> (r: bool)
        ensures
            r == self.contains_spec(p),
    {
        let cx = self.center.0 as i128;
        let cy = self.center.1 as i128;
        let h = self.half_dim as i128;
        let x = p.0 as i128;
        let y = p.1 as i128;
        cx - h <= x && x < cx + h && cy - h <= y && y < cy + h
    }

    /// Whether this square and `other` overlap.
    pub fn intersects(&self, other: &AABB) -> (r: bool)
        ensures
            r == self.intersects_spec(*other),
    {
        let ax = self.center.0 as i128;
        let ay = self.center.1 as i128;
        let ah = self.half_dim as i128;
        let bx = other.center.0 as i128;
        let by = other.center.1 as i128;
        let bh = other.half_dim as i128;
        ax - ah < bx + bh && bx - bh < ax + ah && ay - ah < by + bh && by - bh < ay + ah
    }
}

/// Intersection does not depend on the order of the two squares.
pub proof fn lemma_intersects_symmetric(a: AABB, b: AABB)
    ensures
        a.intersects_spec(b) == b.intersects_spec(a),
{
}

} // verus!
