use vstd::prelude::*;

verus! {

/// A point on the integer grid. Coordinates are in a caller-chosen unit.
#[derive(Clone, Copy, Debug, PartialEq, Eq, Structural)]
pub struct Point {
    pub x: i32,
    pub y: i32,
}

/// An axis-aligned rectangle, half-open on its upper edges.
#[derive(Clone, Copy, Debug, PartialEq, Eq, Structural)]
pub struct Rect {
    pub min_x: i32,
    pub min_y: i32,
    pub max_x: i32,
    pub max_y: i32,
}

/// `min <= v < max`
pub open spec fn in_half_open(v: int, min: int, max: int) -> bool {
    min <= v && v < max
}

/// The square of an integer.
pub open spec fn sq(v: int) -> int {
    v * v
}

/// `v` moved into `[min, max]` (for `min <= max`).
pub open spec fn clamp(v: int, min: int, max: int) -> int {
    if v < min {
        min
    } else if v > max {
        max
    } else {
        v
    }
}

/// Squared Euclidean distance between two points.
pub open spec fn point_dist_sq(a: Point, b: Point) -> int {
    sq(a.x - b.x) + sq(a.y - b.y)
}

impl Rect {
    /// Half-open containment: `min <= coordinate < max` on both axes.
    pub open spec fn holds(self, p: Point) -> bool {
        in_half_open(p.x as int, self.min_x as int, self.max_x as int)
            && in_half_open(p.y as int, self.min_y as int, self.max_y as int)
    }

    /// Strict overlap of the open intervals on both axes.
    pub open spec fn overlaps(self, other: Rect) -> bool {
        self.min_x < other.max_x && self.max_x > other.min_x && self.min_y < other.max_y
            && self.max_y > other.min_y
    }

    /// Squared distance from `p` to the nearest point of the closed rectangle.
    pub open spec fn dist_sq_to(self, p: Point) -> int {
        sq(p.x - clamp(p.x as int, self.min_x as int, self.max_x as int)) + sq(
            p.y - clamp(p.y as int, self.min_y as int, self.max_y as int),
        )
    }

    /// Whether `point` lies in the rectangle, min edges included, max edges excluded.
    pub fn contains(&self, point: &Point) -> (r: bool)
        ensures
            r == self.holds(*point),
    {
        point.x >= self.min_x && point.x < self.max_x && point.y >= self.min_y && point.y
            < self.max_y
    }

    /// Whether the two rectangles overlap; touching along an edge or at a corner does
    /// not count.
    pub fn intersects(&self, other: &Rect) -> (r: bool)
        ensures
            r == self.overlaps(*other),
    {
        self.min_x < other.max_x && self.max_x > other.min_x && self.min_y < other.max_y
            && self.max_y > other.min_y
    }
}

/// Distance from `v` to the interval `[min, max]` along one axis, 0 inside.
fn axis_gap(v: i32, min: i32, max: i32) -> (r: u64)
    requires
        min <= max,
    ensures
        r as int == if v < min {
            min - v
        } else if v > max {
            v - max
        } else {
            0
        },
{
    if v < min {
        (min as i64 - v as i64) as u64
    } else if v > max {
        (v as i64 - max as i64) as u64
    } else {
        0
    }
}

/// Absolute difference of two coordinates.
fn abs_diff(a: i32, b: i32) -> (r: u64)
    ensures
        r as int == if a >= b {
            a - b
        } else {
            b - a
        },
{
    if a >= b {
        (a as i64 - b as i64) as u64
    } else {
        (b as i64 - a as i64) as u64
    }
}

/// Sum of two squares of gaps of at most `2^32`.
fn sum_sq(dx: u64, dy: u64) -> (r: u128)
    requires
        dx <= 0x1_0000_0000,
        dy <= 0x1_0000_0000,
    ensures
        r as int == sq(dx as int) + sq(dy as int),
{
    assert((dx as int) * (dx as int) <= 0x1_0000_0000_0000_0000) by (nonlinear_arith)
        requires
            dx <= 0x1_0000_0000,
    ;
    assert((dy as int) * (dy as int) <= 0x1_0000_0000_0000_0000) by (nonlinear_arith)
        requires
            dy <= 0x1_0000_0000,
    ;
    let sx: u128 = (dx as u128) * (dx as u128);
    let sy: u128 = (dy as u128) * (dy as u128);
    sx + sy
}

/// Squared distance between two points, exact.
pub fn dist_sq_points(a: &Point, b: &Point) -> (r: u128)
    ensures
        r as int == point_dist_sq(*a, *b),
{
    let dx = abs_diff(a.x, b.x);
    let dy = abs_diff(a.y, b.y);
    let r = sum_sq(dx, dy);
    assert(sq(dx as int) == sq(a.x - b.x)) by (nonlinear_arith)
        requires
            dx as int == a.x - b.x || dx as int == b.x - a.x,
    ;
    assert(sq(dy as int) == sq(a.y - b.y)) by (nonlinear_arith)
        requires
            dy as int == a.y - b.y || dy as int == b.y - a.y,
    ;
    r
}

/// Squared distance from a point to a rectangle: 0 inside or on it, else to the
/// nearest edge or corner.
pub fn dist_sq_point_to_rect(p: &Point, r: &Rect) -> (d: u128)
    requires
        r.min_x <= r.max_x,
        r.min_y <= r.max_y,
    ensures
        d as int == r.dist_sq_to(*p),
{
    let dx = axis_gap(p.x, r.min_x, r.max_x);
    let dy = axis_gap(p.y, r.min_y, r.max_y);
    let d = sum_sq(dx, dy);
    assert(sq(dx as int) == sq(p.x - clamp(p.x as int, r.min_x as int, r.max_x as int)))
        by (nonlinear_arith)
        requires
            dx as int == clamp(p.x as int, r.min_x as int, r.max_x as int) - p.x || dx as int
                == p.x - clamp(p.x as int, r.min_x as int, r.max_x as int),
    ;
    assert(sq(dy as int) == sq(p.y - clamp(p.y as int, r.min_y as int, r.max_y as int)))
        by (nonlinear_arith)
        requires
            dy as int == clamp(p.y as int, r.min_y as int, r.max_y as int) - p.y || dy as int
                == p.y - clamp(p.y as int, r.min_y as int, r.max_y as int),
    ;
    d
}

/// Rectangles that only touch along an edge or at a corner do not intersect: the
/// overlap test is strict on both axes.
pub proof fn law_touching_rects_do_not_intersect(a: Rect, b: Rect)
    requires
        a.max_x == b.min_x || b.max_x == a.min_x || a.max_y == b.min_y || b.max_y == a.min_y,
    ensures
        !a.overlaps(b),
        !b.overlaps(a),
{
}

/// A point lies in a rectangle exactly when each coordinate is at least the minimum
/// and below the maximum: points on a max edge are outside, on a min edge inside.
pub proof fn law_half_open_containment(r: Rect, p: Point)
    ensures
        r.holds(p) <==> (r.min_x <= p.x < r.max_x && r.min_y <= p.y < r.max_y),
        p.x == r.max_x || p.y == r.max_y ==> !r.holds(p),
        p.x == r.min_x && p.y == r.min_y && r.min_x < r.max_x && r.min_y < r.max_y ==> r.holds(p),
{
}

/// A point inside a rectangle is no closer to `p` than the rectangle's lower bound.
pub proof fn lemma_rect_dist_le(r: Rect, p: Point, q: Point)
    requires
        r.holds(q),
    ensures
        r.dist_sq_to(p) <= point_dist_sq(q, p),
{
    let cx = clamp(p.x as int, r.min_x as int, r.max_x as int);
    let cy = clamp(p.y as int, r.min_y as int, r.max_y as int);
    assert(sq(p.x - cx) <= sq(q.x - p.x)) by (nonlinear_arith)
        requires
            (p.x < r.min_x && cx == r.min_x && q.x >= r.min_x) || (p.x > r.max_x && cx == r.max_x
                && q.x < r.max_x) || (cx == p.x),
    ;
    assert(sq(p.y - cy) <= sq(q.y - p.y)) by (nonlinear_arith)
        requires
            (p.y < r.min_y && cy == r.min_y && q.y >= r.min_y) || (p.y > r.max_y && cy == r.max_y
                && q.y < r.max_y) || (cy == p.y),
    ;
}

} // verus!
