//! Planar geometry primitives: points and axis-aligned rectangles
//! ("extents") in fixed-point coordinates, with containment, intersection
//! and quadrant classification.

use vstd::prelude::*;

verus! {

/// Largest magnitude a coordinate bound may have. Keeping every bound in
/// `[-COORD_LIMIT, COORD_LIMIT]` makes widths and midpoints free of overflow.
pub const COORD_LIMIT: i64 = 0x1000_0000_0000_0000;

/// A point in the plane, in fixed-point planar coordinates.
#[derive(Clone, Copy, Debug, PartialEq, Eq, Structural)]
pub struct Coordinate {
    pub x: i64,
    pub y: i64,
}

impl Coordinate {
    pub fn new(x: i64, y: i64) -> (c: Self)
        ensures
            c == (Coordinate { x, y }),
    {
        Coordinate { x, y }
    }
}

/// An axis-aligned rectangle, closed on all four bounds.
#[derive(Clone, Copy, Debug, PartialEq, Eq, Structural)]
pub struct Extent {
    pub x_low: i64,
    pub x_high: i64,
    pub y_low: i64,
    pub y_high: i64,
}

impl Extent {
    /// The extent invariant: ordered bounds, within the coordinate limit.
    pub open spec fn wf(self) -> bool {
        &&& -COORD_LIMIT <= self.x_low <= self.x_high <= COORD_LIMIT
        &&& -COORD_LIMIT <= self.y_low <= self.y_high <= COORD_LIMIT
    }

    /// A point lies within the closed bounds on both axes.
    pub open spec fn spec_contains(self, c: Coordinate) -> bool {
        &&& self.x_low <= c.x <= self.x_high
        &&& self.y_low <= c.y <= self.y_high
    }

    /// Two rectangles' projections overlap on both axes; touching edges count.
    pub open spec fn spec_intersects(self, other: Extent) -> bool {
        &&& self.x_low <= other.x_high
        &&& self.x_high >= other.x_low
        &&& self.y_low <= other.y_high
        &&& self.y_high >= other.y_low
    }

    /// Midpoint of the horizontal bounds, rounded down.
    pub open spec fn mid_x(self) -> int {
        self.x_low + (self.x_high - self.x_low) / 2
    }

    /// Midpoint of the vertical bounds, rounded down.
    pub open spec fn mid_y(self) -> int {
        self.y_low + (self.y_high - self.y_low) / 2
    }

    /// Quadrant of a contained point, splitting at the midpoint of each
    /// axis: 0 bottom-left, 1 bottom-right, 2 top-left, 3 top-right.
    /// A point exactly on the vertical midline goes left; exactly on the
    /// horizontal midline goes bottom.
    pub open spec fn spec_quadrant(self, c: Coordinate) -> int {
        if c.x <= self.mid_x() {
            if c.y <= self.mid_y() {
                0
            } else {
                2
            }
        } else {
            if c.y <= self.mid_y() {
                1
            } else {
                3
            }
        }
    }

    /// The sub-extent covering one quadrant; quadrants share their midlines.
    pub open spec fn spec_quad_extent(self, q: int) -> Extent {
        if q == 0 {
            Extent {
                x_low: self.x_low,
                x_high: self.mid_x() as i64,
                y_low: self.y_low,
                y_high: self.mid_y() as i64,
            }
        } else if q == 1 {
            Extent {
                x_low: self.mid_x() as i64,
                x_high: self.x_high,
                y_low: self.y_low,
                y_high: self.mid_y() as i64,
            }
        } else if q == 2 {
            Extent {
                x_low: self.x_low,
                x_high: self.mid_x() as i64,
                y_low: self.mid_y() as i64,
                y_high: self.y_high,
            }
        } else {
            Extent {
                x_low: self.mid_x() as i64,
                x_high: self.x_high,
                y_low: self.mid_y() as i64,
                y_high: self.y_high,
            }
        }
    }

    /// Sum of the two side lengths; the measure that shrinks as quadrants
    /// are split.
    pub open spec fn size(self) -> int {
        (self.x_high - self.x_low) + (self.y_high - self.y_low)
    }

    pub fn new(x_low: i64, y_low: i64, x_high: i64, y_high: i64) -> (e: Self)
        requires
            -COORD_LIMIT <= x_low <= x_high <= COORD_LIMIT,
            -COORD_LIMIT <= y_low <= y_high <= COORD_LIMIT,
        ensures
            e == (Extent { x_low, x_high, y_low, y_high }),
            e.wf(),
    {
        Extent { x_low, x_high, y_low, y_high }
    }

    pub fn contains(&self, coord: &Coordinate) -> (r: bool)
        ensures
            r == self.spec_contains(*coord),
    {
        let x = coord.x;
        let y = coord.y;
        x >= self.x_low && x <= self.x_high && y >= self.y_low && y <= self.y_high
    }

    pub fn intersects(&self, other: &Extent) -> (r: bool)
        ensures
            r == self.spec_intersects(*other),
    {
        self.x_low <= other.x_high && self.x_high >= other.x_low && self.y_low <= other.y_high
            && self.y_high >= other.y_low
    }

    /// Midpoints of both axes, as a point.
    fn midpoint(&self) -> (m: Coordinate)
        requires
            self.wf(),
        ensures
            m.x == self.mid_x(),
            m.y == self.mid_y(),
    {
        let dx: i64 = self.x_high - self.x_low;
        let dy: i64 = self.y_high - self.y_low;
        Coordinate { x: self.x_low + dx / 2, y: self.y_low + dy / 2 }
    }

    /// Quadrant classification of a contained point.
    pub fn quadrant(&self, coord: &Coordinate) -> (q: usize)
        requires
            self.wf(),
            self.spec_contains(*coord),
        ensures
            q == self.spec_quadrant(*coord),
            q < 4,
    {
        let m = self.midpoint();
        if coord.x <= m.x {
            if coord.y <= m.y {
                0
            } else {
                2
            }
        } else {
            if coord.y <= m.y {
                1
            } else {
                3
            }
        }
    }

    /// The sub-extent covering one quadrant.
    pub fn quad_extent(&self, q: usize) -> (e: Extent)
        requires
            self.wf(),
            q < 4,
        ensures
            e == self.spec_quad_extent(q as int),
    {
        let m = self.midpoint();
        if q == 0 {
            Extent { x_low: self.x_low, x_high: m.x, y_low: self.y_low, y_high: m.y }
        } else if q == 1 {
            Extent { x_low: m.x, x_high: self.x_high, y_low: self.y_low, y_high: m.y }
        } else if q == 2 {
            Extent { x_low: self.x_low, x_high: m.x, y_low: m.y, y_high: self.y_high }
        } else {
            Extent { x_low: m.x, x_high: self.x_high, y_low: m.y, y_high: self.y_high }
        }
    }
}

/// Two extents that both contain one point intersect.
pub proof fn lemma_point_in_both_intersects(a: Extent, b: Extent, c: Coordinate)
    requires
        a.spec_contains(c),
        b.spec_contains(c),
    ensures
        a.spec_intersects(b),
        b.spec_intersects(a),
{
}

/// The midpoints stay within the bounds of a well-formed extent.
pub proof fn lemma_mid_in_bounds(e: Extent)
    requires
        e.wf(),
    ensures
        e.x_low <= e.mid_x() <= e.x_high,
        e.y_low <= e.mid_y() <= e.y_high,
{
}

/// Every quadrant of a well-formed extent is itself well formed and lies
/// within the parent extent.
pub proof fn lemma_quad_extent_within(e: Extent, q: int)
    requires
        e.wf(),
        0 <= q < 4,
    ensures
        e.spec_quad_extent(q).wf(),
        forall|c: Coordinate| e.spec_quad_extent(q).spec_contains(c) ==> e.spec_contains(c),
        e.x_low <= e.spec_quad_extent(q).x_low,
        e.spec_quad_extent(q).x_high <= e.x_high,
        e.y_low <= e.spec_quad_extent(q).y_low,
        e.spec_quad_extent(q).y_high <= e.y_high,
{
    lemma_mid_in_bounds(e);
}

/// A contained point lies in the quadrant extent it is classified into.
pub proof fn lemma_quadrant_contains(e: Extent, c: Coordinate)
    requires
        e.wf(),
        e.spec_contains(c),
    ensures
        0 <= e.spec_quadrant(c) < 4,
        e.spec_quad_extent(e.spec_quadrant(c)).wf(),
        e.spec_quad_extent(e.spec_quadrant(c)).spec_contains(c),
{
    lemma_mid_in_bounds(e);
}

/// Tie-break law: the midpoint of a well-formed extent classifies into the
/// bottom-left quadrant, as does any point on the midlines within the
/// bottom-left quadrant extent.
pub proof fn lemma_quadrant_midpoint(e: Extent)
    requires
        e.wf(),
    ensures
        e.spec_quadrant(Coordinate { x: e.mid_x() as i64, y: e.mid_y() as i64 }) == 0,
{
    lemma_mid_in_bounds(e);
}

/// Two distinct points classified into the same quadrant make that quadrant
/// strictly smaller than the parent: the measure that bounds how often a
/// leaf must split before the points diverge.
pub proof fn lemma_same_quadrant_shrinks(e: Extent, c1: Coordinate, c2: Coordinate)
    requires
        e.wf(),
        e.spec_contains(c1),
        e.spec_contains(c2),
        c1 != c2,
        e.spec_quadrant(c1) == e.spec_quadrant(c2),
    ensures
        0 <= e.spec_quad_extent(e.spec_quadrant(c1)).size() < e.size(),
{
    lemma_mid_in_bounds(e);
    let q = e.spec_quadrant(c1);
    let child = e.spec_quad_extent(q);
    let dx = e.x_high - e.x_low;
    let dy = e.y_high - e.y_low;
    assert(dx == 2 * (dx / 2) + dx % 2 && 0 <= dx % 2 < 2);
    assert(dy == 2 * (dy / 2) + dy % 2 && 0 <= dy % 2 < 2);
    // If the child keeps the full width of an axis, both points share that
    // axis value, so they cannot share the other axis value as well.
    if q == 0 || q == 2 {
        // left half: width dx / 2 < dx unless dx == 0
        assert(child.x_high - child.x_low == dx / 2);
    } else {
        // right half: width dx - dx / 2 == dx only if dx / 2 == 0
        assert(child.x_high - child.x_low == dx - dx / 2);
        if dx - dx / 2 == dx && dx > 0 {
            // dx == 1: both points satisfy mid < x <= x_high == x_low + 1
            assert(c1.x == e.x_high && c2.x == e.x_high);
        }
    }
    if q == 0 || q == 1 {
        assert(child.y_high - child.y_low == dy / 2);
    } else {
        assert(child.y_high - child.y_low == dy - dy / 2);
        if dy - dy / 2 == dy && dy > 0 {
            assert(c1.y == e.y_high && c2.y == e.y_high);
        }
    }
    if child.size() >= e.size() {
        assert(c1.x == c2.x && c1.y == c2.y);
        assert(false);
    }
}

} // verus!
