//! Points, segments and bounding boxes on the integer grid, with exact tests.

use vstd::prelude::*;
use crate::math::{
    floor_sqrt, is_floor_sqrt, isqrt, lemma_floor_sqrt_exists, lemma_square_monotone,
    lemma_square_strict,
};

verus! {

/// The number of cost units in one grid unit of length. Lengths of ways are
/// counted in cost units, so that rounding them down loses little.
pub const COST_SCALE: u64 = 100_000;

/// A grid point. Two points are equal exactly when both coordinates are.
#[derive(Clone, Copy, Debug, PartialEq, Eq, Structural, Hash)]
pub struct Point {
    pub x: i32,
    pub y: i32,
}

/// The point that `key` stands for.
pub open spec fn point_of_key(key: u64) -> Point {
    Point {
        x: (key / 0x1_0000_0000 - 0x8000_0000) as i32,
        y: (key % 0x1_0000_0000 - 0x8000_0000) as i32,
    }
}

/// The z-component of the cross product of `(ax, ay)` and `(bx, by)`.
pub open spec fn cross(ax: int, ay: int, bx: int, by: int) -> int {
    ax * by - ay * bx
}

/// The scalar product of `(ax, ay)` and `(bx, by)`.
pub open spec fn dot(ax: int, ay: int, bx: int, by: int) -> int {
    ax * bx + ay * by
}

/// Positive when `r` lies to the left of the line from `p` to `q`, negative
/// when it lies to the right, zero when the three are on one line.
pub open spec fn orient(p: Point, q: Point, r: Point) -> int {
    cross(q.x - p.x, q.y - p.y, r.x - p.x, r.y - p.y)
}

/// `a` and `b` are non-zero and of different sign.
pub open spec fn strictly_opposite(a: int, b: int) -> bool {
    (a < 0 && 0 < b) || (b < 0 && 0 < a)
}

/// `a` and `b` are not both positive and not both negative.
pub open spec fn weakly_opposite(a: int, b: int) -> bool {
    (a <= 0 && 0 <= b) || (b <= 0 && 0 <= a)
}

/// The product of two bounded integers is bounded by the product of the bounds.
pub proof fn lemma_product_bound(a: int, b: int, m: int, n: int)
    by (nonlinear_arith)
    requires
        -m <= a <= m,
        -n <= b <= n,
    ensures
        -(m * n) <= a * b <= m * n,
{
}

impl Point {
    /// The point with the given coordinates.
    pub fn new(x: i32, y: i32) -> (p: Point)
        ensures
            p == (Point { x, y }),
    {
        Point { x, y }
    }

    /// The integer under which hash maps and sets hold this point.
    pub open spec fn key(self) -> u64 {
        ((self.x + 0x8000_0000) * 0x1_0000_0000 + (self.y + 0x8000_0000)) as u64
    }

    /// Computes `key`.
    pub fn hash_key(&self) -> (k: u64)
        ensures
            k == self.key(),
    {
        let high: u64 = (self.x as i64 + 0x8000_0000) as u64;
        let low: u64 = (self.y as i64 + 0x8000_0000) as u64;
        high * 0x1_0000_0000 + low
    }

    /// The square of the Euclidean distance to `other`.
    pub open spec fn dist_sq(self, other: Point) -> int {
        (self.x - other.x) * (self.x - other.x) + (self.y - other.y) * (self.y - other.y)
    }

    /// The Euclidean distance to `other`, rounded down.
    pub open spec fn dist(self, other: Point) -> int {
        floor_sqrt(self.dist_sq(other))
    }

    /// The Euclidean distance to `other` in cost units, rounded down.
    pub open spec fn span(self, other: Point) -> int {
        floor_sqrt(self.dist_sq(other) * COST_SCALE * COST_SCALE)
    }

    /// The Euclidean distance to `other` in cost units, rounded down.
    pub fn span_to(&self, other: Point) -> (d: u64)
        ensures
            d == self.span(other),
            d < 0x4_0000_0000_0000,
    {
        let dx: i64 = self.x as i64 - other.x as i64;
        let dy: i64 = self.y as i64 - other.y as i64;
        proof {
            lemma_product_bound(dx as int, dx as int, 0xffff_ffff, 0xffff_ffff);
            lemma_product_bound(dy as int, dy as int, 0xffff_ffff, 0xffff_ffff);
            assert(dx * dx >= 0 && dy * dy >= 0) by (nonlinear_arith);
            assert(0xffff_ffffint * 0xffff_ffffint < 0x1_0000_0000_0000_0000) by (nonlinear_arith);
            lemma_span_bound(*self, other);
        }
        let sx: u128 = ((dx as i128) * (dx as i128)) as u128;
        let sy: u128 = ((dy as i128) * (dy as i128)) as u128;
        let square: u128 = sx + sy;
        assert(square * 100_000 * 100_000 < 0x4_0000_0000_0000int * 0x4_0000_0000_0000int)
            by (nonlinear_arith)
            requires
                square < 0x2_0000_0000_0000_0000,
        ;
        assert(0x4_0000_0000_0000int * 0x4_0000_0000_0000int < u128::MAX) by (nonlinear_arith);
        let d: u64 = isqrt(square * 100_000 * 100_000);
        d
    }

    /// The Euclidean distance to `other`, rounded down.
    pub fn distance_to(&self, other: Point) -> (d: u64)
        ensures
            d == self.dist(other),
            is_floor_sqrt(self.dist_sq(other), d as int),
            d < 0x2_0000_0000,
    {
        let dx: i64 = self.x as i64 - other.x as i64;
        let dy: i64 = self.y as i64 - other.y as i64;
        proof {
            lemma_product_bound(dx as int, dx as int, 0xffff_ffff, 0xffff_ffff);
            lemma_product_bound(dy as int, dy as int, 0xffff_ffff, 0xffff_ffff);
            assert(dx * dx >= 0 && dy * dy >= 0) by (nonlinear_arith);
            assert(0xffff_ffffint * 0xffff_ffffint < 0x1_0000_0000_0000_0000) by (nonlinear_arith);
        }
        let sx: u128 = ((dx as i128) * (dx as i128)) as u128;
        let sy: u128 = ((dy as i128) * (dy as i128)) as u128;
        let d: u64 = isqrt(sx + sy);
        proof {
            assert(0x2_0000_0000int * 0x2_0000_0000int == 0x4_0000_0000_0000_0000) by (nonlinear_arith);
            lemma_square_strict(d as int, 0x2_0000_0000);
        }
        d
    }
}

/// The distance between two grid points is the rounded-down root of its
/// square, and it is less than 2^33.
pub proof fn lemma_dist_bound(p: Point, q: Point)
    ensures
        is_floor_sqrt(p.dist_sq(q), p.dist(q)),
        0 <= p.dist(q) < 0x2_0000_0000,
{
    let dx = p.x - q.x;
    let dy = p.y - q.y;
    lemma_product_bound(dx, dx, 0xffff_ffff, 0xffff_ffff);
    lemma_product_bound(dy, dy, 0xffff_ffff, 0xffff_ffff);
    assert(dx * dx >= 0 && dy * dy >= 0) by (nonlinear_arith);
    assert(0xffff_ffffint * 0xffff_ffffint < 0x1_0000_0000_0000_0000) by (nonlinear_arith);
    lemma_floor_sqrt_exists(p.dist_sq(q));
    assert(0x2_0000_0000int * 0x2_0000_0000int == 0x4_0000_0000_0000_0000) by (nonlinear_arith);
    lemma_square_strict(p.dist(q), 0x2_0000_0000);
}

/// No two points share a key, and every key stands for a point.
pub proof fn lemma_key_bijective(p: Point, k: u64)
    ensures
        point_of_key(p.key()) == p,
        point_of_key(k).key() == k,
{
}

/// Different points have different keys.
pub proof fn lemma_key_injective(p: Point, q: Point)
    ensures
        p.key() == q.key() <==> p == q,
{
    lemma_key_bijective(p, 0);
    lemma_key_bijective(q, 0);
}

/// An axis-aligned rectangle, its border included.
#[derive(Clone, Copy, Debug, PartialEq, Eq, Structural)]
pub struct Rect {
    pub min_x: i32,
    pub min_y: i32,
    pub max_x: i32,
    pub max_y: i32,
}

impl Rect {
    /// The two rectangles share a point: their extents overlap on both axes.
    pub open spec fn overlaps(self, other: Rect) -> bool {
        &&& self.min_x <= other.max_x
        &&& other.min_x <= self.max_x
        &&& self.min_y <= other.max_y
        &&& other.min_y <= self.max_y
    }

    /// The point lies in the rectangle or on its border.
    pub open spec fn holds(self, p: Point) -> bool {
        self.min_x <= p.x <= self.max_x && self.min_y <= p.y <= self.max_y
    }

    /// Whether the two rectangles share a point.
    pub fn intersects(&self, other: &Rect) -> (r: bool)
        ensures
            r == self.overlaps(*other),
    {
        self.min_x <= other.max_x && other.min_x <= self.max_x && self.min_y <= other.max_y
            && other.min_y <= self.max_y
    }
}

/// The straight segment from `p1` to `p2`.
#[derive(Clone, Copy, Debug, PartialEq, Eq, Structural)]
pub struct LineSegment {
    pub p1: Point,
    pub p2: Point,
}

/// The smaller of two coordinates.
pub open spec fn lesser(a: i32, b: i32) -> i32 {
    if a <= b {
        a
    } else {
        b
    }
}

/// The larger of two coordinates.
pub open spec fn greater(a: i32, b: i32) -> i32 {
    if a <= b {
        b
    } else {
        a
    }
}

impl LineSegment {
    /// The segment from `p1` to `p2`.
    pub fn new(p1: Point, p2: Point) -> (s: LineSegment)
        ensures
            s == (LineSegment { p1, p2 }),
    {
        LineSegment { p1, p2 }
    }

    /// The smallest axis-aligned rectangle that holds both end points.
    pub open spec fn bounds(self) -> Rect {
        Rect {
            min_x: lesser(self.p1.x, self.p2.x),
            min_y: lesser(self.p1.y, self.p2.y),
            max_x: greater(self.p1.x, self.p2.x),
            max_y: greater(self.p1.y, self.p2.y),
        }
    }

    /// The two segments cross: the ends of one lie strictly on different
    /// sides of the line through the other, and the other reaches it, be it
    /// with one of its ends. So a way crosses the wall that it goes through,
    /// the wall whose end it goes over, and the wall within which it starts or
    /// ends. Segments that share an end and no more do not cross, nor do
    /// segments that lie side by side or on one line.
    pub open spec fn crosses(self, other: LineSegment) -> bool {
        let d1 = orient(other.p1, other.p2, self.p1);
        let d2 = orient(other.p1, other.p2, self.p2);
        let d3 = orient(self.p1, self.p2, other.p1);
        let d4 = orient(self.p1, self.p2, other.p2);
        ||| strictly_opposite(d1, d2) && weakly_opposite(d3, d4)
        ||| weakly_opposite(d1, d2) && strictly_opposite(d3, d4)
    }

    /// The smallest axis-aligned rectangle that holds both end points.
    pub fn bounding_rect(&self) -> (r: Rect)
        ensures
            r == self.bounds(),
            r.holds(self.p1),
            r.holds(self.p2),
    {
        let min_x: i32 = if self.p1.x <= self.p2.x { self.p1.x } else { self.p2.x };
        let min_y: i32 = if self.p1.y <= self.p2.y { self.p1.y } else { self.p2.y };
        let max_x: i32 = if self.p1.x <= self.p2.x { self.p2.x } else { self.p1.x };
        let max_y: i32 = if self.p1.y <= self.p2.y { self.p2.y } else { self.p1.y };
        Rect { min_x, min_y, max_x, max_y }
    }

    /// Whether the two segments cross.
    pub fn intersects(&self, other: &LineSegment) -> (r: bool)
        ensures
            r == self.crosses(*other),
    {
        let d1: i128 = orientation(other.p1, other.p2, self.p1);
        let d2: i128 = orientation(other.p1, other.p2, self.p2);
        if !((d1 <= 0 && 0 <= d2) || (d2 <= 0 && 0 <= d1)) {
            return false;
        }
        let d3: i128 = orientation(self.p1, self.p2, other.p1);
        let d4: i128 = orientation(self.p1, self.p2, other.p2);
        let mine_strict: bool = (d1 < 0 && 0 < d2) || (d2 < 0 && 0 < d1);
        let theirs_strict: bool = (d3 < 0 && 0 < d4) || (d4 < 0 && 0 < d3);
        let theirs_weak: bool = (d3 <= 0 && 0 <= d4) || (d4 <= 0 && 0 <= d3);
        (mine_strict && theirs_weak) || theirs_strict
    }
}

/// Computes `orient`.
pub fn orientation(p: Point, q: Point, r: Point) -> (o: i128)
    ensures
        o == orient(p, q, r),
{
    let ax: i128 = (q.x as i64 - p.x as i64) as i128;
    let ay: i128 = (q.y as i64 - p.y as i64) as i128;
    let bx: i128 = (r.x as i64 - p.x as i64) as i128;
    let by: i128 = (r.y as i64 - p.y as i64) as i128;
    proof {
        lemma_product_bound(ax as int, by as int, 0xffff_ffff, 0xffff_ffff);
        lemma_product_bound(ay as int, bx as int, 0xffff_ffff, 0xffff_ffff);
        assert(0xffff_ffffint * 0xffff_ffffint < 0x1_0000_0000_0000_0000) by (nonlinear_arith);
    }
    ax * by - ay * bx
}

/// Two fractions of a positive `d`, one of a span that ends below a level and
/// one of a span that starts above it, never meet: the weighted end of the
/// first span stays below that of the second.
proof fn lemma_spans_apart(d: int, t: int, e: int, ax: int, bx: int, cx: int)
    requires
        0 < d,
        0 <= t <= d,
        0 <= e <= d,
        0 < cx,
        ax < cx,
        0 < cx + bx,
        ax < cx + bx,
    ensures
        t * ax < d * cx + e * bx,
{
    let high = if ax >= 0 { ax } else { 0 };
    let low = if bx >= 0 { cx } else { cx + bx };
    assert(t * ax <= d * high) by (nonlinear_arith)
        requires
            0 <= t <= d,
            high == (if ax >= 0 { ax } else { 0 }),
    ;
    assert(d * high < d * low) by (nonlinear_arith)
        requires
            0 < d,
            high < low,
    ;
    assert(d * low <= d * cx + e * bx) by (nonlinear_arith)
        requires
            0 <= e <= d,
            low == (if bx >= 0 { cx } else { cx + bx }),
    ;
}

/// Cramer's rule in the plane, in the first component: with `a`, `b` and `c`
/// any vectors, `cross(a, b) * c == cross(c, b) * a + cross(a, c) * b`.
proof fn lemma_cramer(ax: int, ay: int, bx: int, by: int, cx: int, cy: int)
    ensures
        cross(ax, ay, bx, by) * cx == cross(cx, cy, bx, by) * ax + cross(ax, ay, cx, cy) * bx,
{
    assert((ax * by - ay * bx) * cx == ax * by * cx - ay * bx * cx) by (nonlinear_arith);
    assert((cx * by - cy * bx) * ax == cx * by * ax - cy * bx * ax) by (nonlinear_arith);
    assert((ax * cy - ay * cx) * bx == ax * cy * bx - ay * cx * bx) by (nonlinear_arith);
    assert(ax * by * cx == cx * by * ax) by (nonlinear_arith);
    assert(cy * bx * ax == ax * cy * bx) by (nonlinear_arith);
    assert(ay * bx * cx == ay * cx * bx) by (nonlinear_arith);
}

/// The cross product is linear in each argument.
proof fn lemma_cross_linear(ax: int, ay: int, bx: int, by: int, cx: int, cy: int)
    ensures
        cross(ax, ay, cx + bx, cy + by) == cross(ax, ay, cx, cy) + cross(ax, ay, bx, by),
        cross(bx, by, ax - cx, ay - cy) == cross(cx, cy, bx, by) - cross(ax, ay, bx, by),
        cross(bx, by, -cx, -cy) == cross(cx, cy, bx, by),
{
    assert(ax * (cy + by) == ax * cy + ax * by) by (nonlinear_arith);
    assert(ay * (cx + bx) == ay * cx + ay * bx) by (nonlinear_arith);
    assert(bx * (ay - cy) == bx * ay - bx * cy) by (nonlinear_arith);
    assert(by * (ax - cx) == by * ax - by * cx) by (nonlinear_arith);
    assert(bx * (-cy) == -(bx * cy)) by (nonlinear_arith);
    assert(by * (-cx) == -(by * cx)) by (nonlinear_arith);
    assert(bx * ay == ay * bx && by * ax == ax * by && bx * cy == cy * bx && by * cx == cx * by)
        by (nonlinear_arith);
}

/// Segments of which one has its ends strictly on different sides of the
/// other, and the other reaches it, do not lie apart along the first axis, the
/// first wholly to the left of the second. Coordinates are plain integers here.
proof fn lemma_not_left_of(
    a1x: int,
    a1y: int,
    a2x: int,
    a2y: int,
    b1x: int,
    b1y: int,
    b2x: int,
    b2y: int,
)
    requires
        weakly_opposite(
            cross(b2x - b1x, b2y - b1y, a1x - b1x, a1y - b1y),
            cross(b2x - b1x, b2y - b1y, a2x - b1x, a2y - b1y),
        ),
        weakly_opposite(
            cross(a2x - a1x, a2y - a1y, b1x - a1x, b1y - a1y),
            cross(a2x - a1x, a2y - a1y, b2x - a1x, b2y - a1y),
        ),
        cross(a2x - a1x, a2y - a1y, b2x - b1x, b2y - b1y) != 0,
    ensures
        !(a1x < b1x && a1x < b2x && a2x < b1x && a2x < b2x),
{
    let ax = a2x - a1x;
    let ay = a2y - a1y;
    let bx = b2x - b1x;
    let by = b2y - b1y;
    let cx = b1x - a1x;
    let cy = b1y - a1y;
    let d = cross(ax, ay, bx, by);
    let d1 = cross(cx, cy, bx, by);
    let d3 = cross(ax, ay, cx, cy);
    lemma_cramer(ax, ay, bx, by, cx, cy);
    lemma_cross_linear(ax, ay, bx, by, cx, cy);
    assert(cross(bx, by, a1x - b1x, a1y - b1y) == d1);
    assert(cross(bx, by, a2x - b1x, a2y - b1y) == d1 - d);
    assert(cross(ax, ay, b2x - a1x, b2y - a1y) == d3 + d);
    assert(d * cx == d1 * ax + d3 * bx);
    if a1x < b1x && a1x < b2x && a2x < b1x && a2x < b2x {
        if d > 0 {
            lemma_spans_apart(d, d1, -d3, ax, bx, cx);
            assert(d3 * bx == -((-d3) * bx)) by (nonlinear_arith);
        } else {
            assert(d < 0);
            lemma_spans_apart(-d, -d1, d3, ax, bx, cx);
            assert((-d) * cx == -(d * cx)) by (nonlinear_arith);
            assert((-d1) * ax == -(d1 * ax)) by (nonlinear_arith);
        }
    }
}

/// The bounding box of a segment is the smallest: every rectangle that holds
/// both end points holds the whole box.
pub proof fn lemma_bounds_minimal(s: LineSegment, other: Rect)
    requires
        other.holds(s.p1),
        other.holds(s.p2),
    ensures
        other.min_x <= s.bounds().min_x,
        other.min_y <= s.bounds().min_y,
        s.bounds().max_x <= other.max_x,
        s.bounds().max_y <= other.max_y,
        s.bounds().holds(s.p1),
        s.bounds().holds(s.p2),
{
}

/// Crossing is mutual.
pub proof fn lemma_crossing_symmetric(a: LineSegment, b: LineSegment)
    ensures
        a.crosses(b) == b.crosses(a),
{
}

/// Segments that cross have bounding boxes that overlap, so testing the boxes
/// first never hides a crossing.
pub proof fn lemma_crossing_boxes_overlap(a: LineSegment, b: LineSegment)
    requires
        a.crosses(b),
    ensures
        a.bounds().overlaps(b.bounds()),
{
    lemma_cross_linear(
        a.p2.x - a.p1.x,
        a.p2.y - a.p1.y,
        b.p2.x - b.p1.x,
        b.p2.y - b.p1.y,
        b.p1.x - a.p1.x,
        b.p1.y - a.p1.y,
    );
    let turn = cross(a.p2.x - a.p1.x, a.p2.y - a.p1.y, b.p2.x - b.p1.x, b.p2.y - b.p1.y);
    assert(turn != 0);
    assert(cross(b.p2.x - b.p1.x, b.p2.y - b.p1.y, a.p2.x - a.p1.x, a.p2.y - a.p1.y) == -turn)
        by (nonlinear_arith)
        requires
            turn == cross(a.p2.x - a.p1.x, a.p2.y - a.p1.y, b.p2.x - b.p1.x, b.p2.y - b.p1.y),
    ;
    assert(cross(a.p2.y - a.p1.y, a.p2.x - a.p1.x, b.p2.y - b.p1.y, b.p2.x - b.p1.x) == -turn);
    assert(cross(b.p2.y - b.p1.y, b.p2.x - b.p1.x, a.p2.y - a.p1.y, a.p2.x - a.p1.x) == turn)
        by (nonlinear_arith)
        requires
            turn == cross(a.p2.x - a.p1.x, a.p2.y - a.p1.y, b.p2.x - b.p1.x, b.p2.y - b.p1.y),
    ;
    lemma_not_left_of(
        a.p1.x as int,
        a.p1.y as int,
        a.p2.x as int,
        a.p2.y as int,
        b.p1.x as int,
        b.p1.y as int,
        b.p2.x as int,
        b.p2.y as int,
    );
    lemma_not_left_of(
        b.p1.x as int,
        b.p1.y as int,
        b.p2.x as int,
        b.p2.y as int,
        a.p1.x as int,
        a.p1.y as int,
        a.p2.x as int,
        a.p2.y as int,
    );
    lemma_not_left_of(
        a.p1.y as int,
        a.p1.x as int,
        a.p2.y as int,
        a.p2.x as int,
        b.p1.y as int,
        b.p1.x as int,
        b.p2.y as int,
        b.p2.x as int,
    );
    lemma_not_left_of(
        b.p1.y as int,
        b.p1.x as int,
        b.p2.y as int,
        b.p2.x as int,
        a.p1.y as int,
        a.p1.x as int,
        a.p2.y as int,
        a.p2.x as int,
    );
}

/// Segments on parallel lines, or on one line, do not cross.
pub proof fn lemma_parallel_never_cross(a: LineSegment, b: LineSegment)
    requires
        cross(a.p2.x - a.p1.x, a.p2.y - a.p1.y, b.p2.x - b.p1.x, b.p2.y - b.p1.y) == 0,
    ensures
        !a.crosses(b),
{
    lemma_cross_linear(
        a.p2.x - a.p1.x,
        a.p2.y - a.p1.y,
        b.p2.x - b.p1.x,
        b.p2.y - b.p1.y,
        b.p1.x - a.p1.x,
        b.p1.y - a.p1.y,
    );
}

/// Segments that share an end do not cross: a way that starts or ends at an
/// end of a wall does not cross the wall.
pub proof fn lemma_shared_end_never_cross(a: LineSegment, b: LineSegment)
    requires
        a.p1 == b.p1 || a.p1 == b.p2 || a.p2 == b.p1 || a.p2 == b.p2,
    ensures
        !a.crosses(b),
{
    assert(forall|x: int, y: int| cross(x, y, 0, 0) == 0) by (nonlinear_arith);
    assert(forall|x: int, y: int| cross(x, y, x, y) == 0) by (nonlinear_arith);
}

/// The square of a product is the product of the squares.
pub proof fn lemma_square_of_product(x: int, y: int)
    by (nonlinear_arith)
    ensures
        (x * x) * (y * y) == (x * y) * (x * y),
{
}

/// A product of two sums, multiplied out.
proof fn lemma_product_of_sums(p: int, q: int, r: int, s: int)
    by (nonlinear_arith)
    ensures
        (p + q) * (r + s) == p * r + p * s + q * r + q * s,
{
}

/// The square of the scalar product of two vectors is at most the product of
/// their squared lengths.
pub proof fn lemma_dot_bound(ux: int, uy: int, vx: int, vy: int)
    ensures
        dot(ux, uy, vx, vy) * dot(ux, uy, vx, vy) <= (ux * ux + uy * uy) * (vx * vx + vy * vy),
{
    let a = ux * vx;
    let b = uy * vy;
    let c = ux * vy;
    let d = uy * vx;
    lemma_product_of_sums(ux * ux, uy * uy, vx * vx, vy * vy);
    lemma_square_of_product(ux, vx);
    lemma_square_of_product(ux, vy);
    lemma_square_of_product(uy, vx);
    lemma_square_of_product(uy, vy);
    assert((ux * ux + uy * uy) * (vx * vx + vy * vy) == a * a + c * c + d * d + b * b);
    assert(a * b == c * d) by (nonlinear_arith)
        requires
            a == ux * vx,
            b == uy * vy,
            c == ux * vy,
            d == uy * vx,
    ;
    lemma_product_of_sums(a, b, a, b);
    lemma_product_of_sums(c, -d, c, -d);
    assert(b * a == a * b && c * (-d) == -(c * d) && (-d) * c == -(c * d) && (-d) * (-d) == d * d)
        by (nonlinear_arith);
    assert((c + (-d)) * (c + (-d)) >= 0) by (nonlinear_arith);
}

/// Rounded-down roots of scaled squares obey the triangle inequality up to
/// one unit: with `w`, `p - 1` and `q - 1` such roots of a sum of two vectors
/// and of the vectors, `w` is less than `p + q`.
proof fn lemma_root_triangle(uu: int, vv: int, t: int, kk: int, p: int, q: int, w: int)
    requires
        0 <= uu,
        0 <= vv,
        t * t <= uu * vv,
        0 <= kk,
        uu * kk < p * p,
        vv * kk < q * q,
        0 < p,
        0 < q,
        0 <= w,
        w * w <= (uu + vv + 2 * t) * kk,
    ensures
        w < p + q,
{
    let big_u = uu * kk;
    let big_v = vv * kk;
    let big_t = t * kk;
    assert(big_t * big_t == (t * t) * (kk * kk) && big_u * big_v == (uu * vv) * (kk * kk))
        by (nonlinear_arith)
        requires
            big_u == uu * kk,
            big_v == vv * kk,
            big_t == t * kk,
    ;
    assert((t * t) * (kk * kk) <= (uu * vv) * (kk * kk)) by (nonlinear_arith)
        requires
            t * t <= uu * vv,
    ;
    assert(0 <= big_u && 0 <= big_v) by (nonlinear_arith)
        requires
            big_u == uu * kk,
            big_v == vv * kk,
            0 <= uu,
            0 <= vv,
            0 <= kk,
    ;
    assert(big_u * big_v < (p * p) * (q * q)) by (nonlinear_arith)
        requires
            0 <= big_u < p * p,
            0 <= big_v < q * q,
    ;
    lemma_square_of_product(p, q);
    assert(p * q > 0) by (nonlinear_arith)
        requires
            p > 0,
            q > 0,
    ;
    if big_t > 0 {
        lemma_square_strict(big_t, p * q);
    }
    assert((uu + vv + 2 * t) * kk == big_u + big_v + 2 * big_t) by (nonlinear_arith)
        requires
            big_u == uu * kk,
            big_v == vv * kk,
            big_t == t * kk,
    ;
    lemma_product_of_sums(p, q, p, q);
    assert(q * p == p * q) by (nonlinear_arith);
    lemma_square_strict(w, p + q);
}

/// The square of the distance from `a` to `c`, in the vectors from `a` to `b`
/// and from `b` to `c`.
proof fn lemma_sum_of_vectors(a: Point, b: Point, c: Point)
    ensures
        a.dist_sq(b) >= 0,
        b.dist_sq(c) >= 0,
        a.dist_sq(c) == a.dist_sq(b) + b.dist_sq(c) + 2 * dot(
            a.x - b.x,
            a.y - b.y,
            b.x - c.x,
            b.y - c.y,
        ),
        dot(a.x - b.x, a.y - b.y, b.x - c.x, b.y - c.y) * dot(
            a.x - b.x,
            a.y - b.y,
            b.x - c.x,
            b.y - c.y,
        ) <= a.dist_sq(b) * b.dist_sq(c),
{
    let ux = a.x - b.x;
    let uy = a.y - b.y;
    let vx = b.x - c.x;
    let vy = b.y - c.y;
    lemma_dot_bound(ux, uy, vx, vy);
    assert(ux * ux + uy * uy >= 0 && vx * vx + vy * vy >= 0) by (nonlinear_arith);
    lemma_product_of_sums(ux, vx, ux, vx);
    lemma_product_of_sums(uy, vy, uy, vy);
    assert(vx * ux == ux * vx && vy * uy == uy * vy) by (nonlinear_arith);
    assert(a.dist_sq(c) == (ux + vx) * (ux + vx) + (uy + vy) * (uy + vy));
}

/// The triangle inequality for rounded-down distances: going through `b` is
/// at most one unit shorter than going straight.
pub proof fn lemma_triangle(a: Point, b: Point, c: Point)
    ensures
        a.dist(c) <= a.dist(b) + b.dist(c) + 1,
{
    lemma_dist_bound(a, b);
    lemma_dist_bound(b, c);
    lemma_dist_bound(a, c);
    lemma_sum_of_vectors(a, b, c);
    let t = dot(a.x - b.x, a.y - b.y, b.x - c.x, b.y - c.y);
    lemma_root_triangle(
        a.dist_sq(b),
        b.dist_sq(c),
        t,
        1,
        a.dist(b) + 1,
        b.dist(c) + 1,
        a.dist(c),
    );
}

/// The length from `p` to `q` in cost units is the rounded-down root of the
/// scaled square of the distance, and it is less than 2^50.
pub proof fn lemma_span_bound(p: Point, q: Point)
    ensures
        is_floor_sqrt(p.dist_sq(q) * COST_SCALE * COST_SCALE, p.span(q)),
        0 <= p.span(q) < 0x4_0000_0000_0000,
        0 <= p.dist_sq(q) < 0x4_0000_0000_0000_0000,
{
    let dx = p.x - q.x;
    let dy = p.y - q.y;
    lemma_product_bound(dx, dx, 0xffff_ffff, 0xffff_ffff);
    lemma_product_bound(dy, dy, 0xffff_ffff, 0xffff_ffff);
    assert(dx * dx >= 0 && dy * dy >= 0) by (nonlinear_arith);
    assert(0xffff_ffffint * 0xffff_ffffint < 0x1_0000_0000_0000_0000) by (nonlinear_arith);
    let scaled = p.dist_sq(q) * COST_SCALE * COST_SCALE;
    assert(0 <= scaled < 0x4_0000_0000_0000int * 0x4_0000_0000_0000int) by (nonlinear_arith)
        requires
            scaled == p.dist_sq(q) * 100_000 * 100_000,
            0 <= p.dist_sq(q) < 0x2_0000_0000_0000_0000,
    ;
    lemma_floor_sqrt_exists(scaled);
    lemma_square_strict(p.span(q), 0x4_0000_0000_0000);
}

/// From a point to itself it is no way.
pub proof fn lemma_span_self(p: Point)
    ensures
        p.span(p) == 0,
{
    assert(p.dist_sq(p) * COST_SCALE * COST_SCALE == 0) by (nonlinear_arith)
        requires
            p.dist_sq(p) == (p.x - p.x) * (p.x - p.x) + (p.y - p.y) * (p.y - p.y),
    ;
    crate::math::lemma_floor_sqrt_zero();
}

/// The length in cost units is the distance, told more finely: it lies
/// between the rounded-down distance in cost units and that of one unit more.
pub proof fn lemma_span_refines_dist(p: Point, q: Point)
    ensures
        p.dist(q) * COST_SCALE <= p.span(q) < (p.dist(q) + 1) * COST_SCALE,
{
    lemma_span_bound(p, q);
    lemma_dist_bound(p, q);
    let k = COST_SCALE as int;
    let d = p.dist(q);
    let big = p.dist_sq(q);
    let s = p.span(q);
    lemma_square_of_product(d, k);
    lemma_square_of_product(d + 1, k);
    assert((d * d) * (k * k) <= big * k * k && big * k * k < ((d + 1) * (d + 1)) * (k * k))
        by (nonlinear_arith)
        requires
            d * d <= big < (d + 1) * (d + 1),
            k > 0,
    ;
    assert(0 <= d * k && 0 <= (d + 1) * k) by (nonlinear_arith)
        requires
            0 <= d,
            0 < k,
    ;
    if s < d * k {
        lemma_square_monotone(s + 1, d * k);
    }
    if s >= (d + 1) * k {
        lemma_square_monotone((d + 1) * k, s);
    }
}

/// The triangle inequality for lengths in cost units: going through `b` is at
/// most one cost unit shorter than going straight.
pub proof fn lemma_span_triangle(a: Point, b: Point, c: Point)
    ensures
        a.span(c) <= a.span(b) + b.span(c) + 1,
{
    lemma_span_bound(a, b);
    lemma_span_bound(b, c);
    lemma_span_bound(a, c);
    lemma_sum_of_vectors(a, b, c);
    let t = dot(a.x - b.x, a.y - b.y, b.x - c.x, b.y - c.y);
    let kk = COST_SCALE * COST_SCALE;
    assert(a.dist_sq(b) * COST_SCALE * COST_SCALE == a.dist_sq(b) * kk && b.dist_sq(c) * COST_SCALE
        * COST_SCALE == b.dist_sq(c) * kk && a.dist_sq(c) * COST_SCALE * COST_SCALE == a.dist_sq(c)
        * kk) by (nonlinear_arith)
        requires
            kk == COST_SCALE * COST_SCALE,
    ;
    lemma_root_triangle(
        a.dist_sq(b),
        b.dist_sq(c),
        t,
        kk,
        a.span(b) + 1,
        b.span(c) + 1,
        a.span(c),
    );
}

} // verus!
