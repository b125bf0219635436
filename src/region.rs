//! Square regions as a quadtree uses them: bounds, quadrants,
//! and growth of a region until it holds a point.

use vstd::prelude::*;

use crate::geometry::{Point, AABB};

verus! {

/// Bound on `|center| + 2 * half_dim` along each axis for every region in a
/// tree, so that the bounds of a region and the centers of its quadrants fit
/// in 64-bit integers.
pub const SPAN_LIMIT: i64 = 0x2000_0000_0000_0000;

/// The largest half-dimension a tree may be created with.
pub const MAX_ROOT_HALF_DIM: i64 = 0x0800_0000_0000_0000;

/// A half-dimension from which on every 32-bit point lies in a region around
/// a 32-bit center.
pub const FULL_HALF_DIM: i64 = 0x1_0000_0000;

/// The absolute value of `x`.
pub open spec fn magnitude(x: int) -> int {
    if x < 0 {
        -x
    } else {
        x
    }
}

/// Whether `x` fits in an `i32`.
pub open spec fn fits_i32(x: int) -> bool {
    i32::MIN <= x <= i32::MAX
}

/// A region that can stand anywhere in a tree: a positive half-dimension,
/// with `|center| + 2 * half_dim` bounded so that the region, its quadrants
/// and theirs stay well inside the 64-bit range.
pub open spec fn region_ok(b: AABB) -> bool {
    &&& b.half_dim >= 1
    &&& magnitude(b.center.0 as int) + 2 * b.half_dim <= SPAN_LIMIT
    &&& magnitude(b.center.1 as int) + 2 * b.half_dim <= SPAN_LIMIT
}

/// A region that a whole tree may cover: a 32-bit center and a positive
/// half-dimension of at most `MAX_ROOT_HALF_DIM`.
pub open spec fn root_ok(b: AABB) -> bool {
    &&& 1 <= b.half_dim <= MAX_ROOT_HALF_DIM
    &&& fits_i32(b.center.0 as int)
    &&& fits_i32(b.center.1 as int)
}

/// The quadrant of `p` relative to `c`: north-east (0), north-west (1),
/// south-east (2) or south-west (3). Points on a center line go north or east.
pub open spec fn quadrant_of(c: (i64, i64), p: Point) -> int {
    let north = p.1 >= c.1;
    let east = p.0 >= c.0;
    if north {
        if east {
            0
        } else {
            1
        }
    } else {
        if east {
            2
        } else {
            3
        }
    }
}

/// The half-dimension of the quadrants of a region: half of its own, rounded
/// up, so that for an odd half-dimension the quadrants still cover the region
/// (reaching one cell beyond it on the outer sides).
pub open spec fn quadrant_half(h: int) -> int {
    (h + 1) / 2
}

/// The region of quadrant `q` of `b`: half the half-dimension (rounded up),
/// centered that far from `b`'s center towards the quadrant.
pub open spec fn quadrant_box(b: AABB, q: int) -> AABB {
    let d = quadrant_half(b.half_dim as int);
    let east = q == 0 || q == 2;
    let north = q == 0 || q == 1;
    AABB {
        center: (
            (if east {
                b.center.0 + d
            } else {
                b.center.0 - d
            }) as i64,
            (if north {
                b.center.1 + d
            } else {
                b.center.1 - d
            }) as i64,
        ),
        half_dim: d as i64,
    }
}

/// `r` doubled until it is at least `m`; from `r == 1`, the smallest power
/// of two that is at least `m`.
pub open spec fn pow2_at_least_from(r: int, m: int) -> int
    decreases (if r < m {
        m - r
    } else {
        0
    }),
{
    if r >= m || r < 1 {
        r
    } else {
        pow2_at_least_from(2 * r, m)
    }
}

/// The smallest power of two that is at least `m`.
pub open spec fn pow2_at_least(m: int) -> int {
    pow2_at_least_from(1, m)
}

/// One step of boundary growth for a point outside `b`: the smallest power
/// of two not below the larger coordinate magnitude of `p`, or twice the
/// current half-dimension where that would not grow the region. The center
/// stays.
pub open spec fn grow_step(b: AABB, p: Point) -> AABB {
    let m = if magnitude(p.0 as int) >= magnitude(p.1 as int) {
        magnitude(p.0 as int)
    } else {
        magnitude(p.1 as int)
    };
    let c = pow2_at_least(m);
    AABB {
        center: b.center,
        half_dim: (if c > b.half_dim {
            c
        } else {
            2 * b.half_dim
        }) as i64,
    }
}

/// The region of a tree over `b` once `p` has been inserted: `b` itself if it
/// holds `p`, else grown step by step until it does.
pub open spec fn grown_for(b: AABB, p: Point) -> AABB
    decreases (if b.half_dim < FULL_HALF_DIM {
        FULL_HALF_DIM - b.half_dim
    } else {
        0
    }),
{
    if b.contains_spec(p) || b.half_dim < 1 || b.half_dim >= FULL_HALF_DIM {
        b
    } else {
        let n = grow_step(b, p);
        if n.half_dim <= b.half_dim {
            b
        } else {
            grown_for(n, p)
        }
    }
}

/// The region of a tree over `b` once the points of `s` have been inserted
/// in order.
pub open spec fn grown_over(b: AABB, s: Seq<Point>) -> AABB
    decreases s.len(),
{
    if s.len() == 0 {
        b
    } else {
        grown_for(grown_over(b, s.drop_last()), s.last())
    }
}

/// The quadrants of a region cover it, and a point lies in a quadrant's
/// region only if the quadrant rule picks that quadrant for it.
pub(crate) proof fn lemma_quadrant_box(b: AABB, q: int, p: Point)
    requires
        region_ok(b),
        b.half_dim >= 2,
        0 <= q < 4,
    ensures
        region_ok(quadrant_box(b, q)),
        quadrant_box(b, q).center.0 == (if q == 0 || q == 2 {
            b.center.0 + quadrant_half(b.half_dim as int)
        } else {
            b.center.0 - quadrant_half(b.half_dim as int)
        }),
        quadrant_box(b, q).center.1 == (if q <= 1 {
            b.center.1 + quadrant_half(b.half_dim as int)
        } else {
            b.center.1 - quadrant_half(b.half_dim as int)
        }),
        quadrant_box(b, q).half_dim == quadrant_half(b.half_dim as int),
        quadrant_box(b, q).half_dim < b.half_dim,
        quadrant_box(b, q).contains_spec(p) ==> quadrant_of(b.center, p) == q,
        b.contains_spec(p) && quadrant_of(b.center, p) == q ==> quadrant_box(b, q).contains_spec(
            p,
        ),
{
}

/// Four distinct points in a region of half-dimension one fill it: every
/// point of the region is among them.
pub(crate) proof fn lemma_unit_region_full(b: AABB, v: Seq<Point>, p: Point)
    requires
        b.half_dim == 1,
        v.len() == 4,
        v.no_duplicates(),
        forall|x: Point| #[trigger] v.contains(x) ==> b.contains_spec(x),
        b.contains_spec(p),
    ensures
        v.contains(p),
{
    assert(v.contains(v[0]));
    assert(v.contains(v[1]));
    assert(v.contains(v[2]));
    assert(v.contains(v[3]));
    assert(v[0] != v[1] && v[0] != v[2] && v[0] != v[3]);
    assert(v[1] != v[2] && v[1] != v[3] && v[2] != v[3]);
    if !v.contains(p) {
        assert(v[0] != p && v[1] != p && v[2] != p && v[3] != p);
    }
}

/// The quadrant rule, as executable code.
pub(crate) fn quadrant(c: (i64, i64), p: Point) -> (q: usize)
    ensures
        q == quadrant_of(c, p),
{
    let north = p.1 as i64 >= c.1;
    let east = p.0 as i64 >= c.0;
    if north {
        if east {
            0
        } else {
            1
        }
    } else {
        if east {
            2
        } else {
            3
        }
    }
}

/// The region of quadrant `q` of `b`.
pub(crate) fn quadrant_region(b: &AABB, q: usize) -> (r: AABB)
    requires
        region_ok(*b),
        b.half_dim >= 2,
        q < 4,
    ensures
        r == quadrant_box(*b, q as int),
        region_ok(r),
{
    proof {
        lemma_quadrant_box(*b, q as int, (0, 0));
    }
    let d = (b.half_dim + 1) / 2;
    let x = if q == 0 || q == 2 {
        b.center.0 + d
    } else {
        b.center.0 - d
    };
    let y = if q <= 1 {
        b.center.1 + d
    } else {
        b.center.1 - d
    };
    AABB { center: (x, y), half_dim: d }
}

/// The smallest power of two that is at least `m`.
fn pow2_at_least_exec(m: i64) -> (r: i64)
    requires
        0 <= m <= 0x8000_0000,
    ensures
        r == pow2_at_least(m as int),
        r >= m,
        1 <= r <= 0x1_0000_0000,
{
    let mut r: i64 = 1;
    while r < m
        invariant
            1 <= r,
            r <= 2 * m || r == 1,
            m <= 0x8000_0000,
            pow2_at_least_from(r as int, m as int) == pow2_at_least(m as int),
        decreases (if r < m {
            m - r
        } else {
            0
        }),
    {
        r = 2 * r;
    }
    r
}

/// The magnitude of a coordinate.
fn coord_magnitude(x: i32) -> (r: i64)
    ensures
        r == magnitude(x as int),
{
    let x = x as i64;
    if x < 0 {
        -x
    } else {
        x
    }
}

/// The region of a tree over `b` once `p` has been inserted.
pub(crate) fn grown_region(b: AABB, p: Point) -> (r: AABB)
    requires
        root_ok(b),
    ensures
        r == grown_for(b, p),
        root_ok(r),
        r.contains_spec(p),
        r.center == b.center,
        r.half_dim >= b.half_dim,
{
    let mut cur = b;
    while !cur.contains(p)
        invariant
            root_ok(cur),
            cur.center == b.center,
            cur.half_dim >= b.half_dim,
            grown_for(cur, p) == grown_for(b, p),
        decreases (if cur.half_dim < FULL_HALF_DIM {
            FULL_HALF_DIM - cur.half_dim
        } else {
            0
        }),
    {
        let mx = coord_magnitude(p.0);
        let my = coord_magnitude(p.1);
        let m = if mx >= my {
            mx
        } else {
            my
        };
        let c = pow2_at_least_exec(m);
        let h = if c > cur.half_dim {
            c
        } else {
            2 * cur.half_dim
        };
        cur = AABB { center: cur.center, half_dim: h };
    }
    cur
}

} // verus!
