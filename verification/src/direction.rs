//! Directions on the grid: their order by angle, and the offsets of a given
//! length along them.

use vstd::prelude::*;
use vstd::seq_lib::to_multiset_build;
use crate::geometry::{cross, dot, lemma_product_bound, lemma_square_of_product, Point};
use crate::math::{floor_sqrt, isqrt, lemma_floor_sqrt_exists, lemma_square_monotone};

verus! {

/// A vector on the grid. Where it stands for a direction, only its angle counts.
#[derive(Clone, Copy, Debug, PartialEq, Eq, Structural)]
pub struct Direction {
    pub dx: i64,
    pub dy: i64,
}

/// The factor by which a direction is enlarged before its length is taken.
pub open spec fn scale() -> int {
    0x8000_0000
}

/// The size of `c` without its sign.
pub open spec fn magnitude(c: int) -> int {
    if c < 0 {
        -c
    } else {
        c
    }
}

/// `a / n`, rounded up, for `a` that is not negative and positive `n`.
pub open spec fn up_div(a: int, n: int) -> int {
    (a + n - 1) / n
}

/// `c * r / length`, rounded away from zero, where `norm` is `scale()` times
/// the length.
pub open spec fn offset_part(c: int, norm: int, r: int) -> int {
    let m = up_div(r * magnitude(c) * scale(), norm);
    if c < 0 {
        -m
    } else {
        m
    }
}

/// 99 hundredths of `c`, rounded away from zero.
pub open spec fn nearly(c: int) -> int {
    let m = up_div(magnitude(c) * 99, 100);
    if c < 0 {
        -m
    } else {
        m
    }
}

impl Direction {
    /// Both components are differences of grid coordinates.
    pub open spec fn bounded(self) -> bool {
        -0x1_0000_0000 <= self.dx <= 0x1_0000_0000 && -0x1_0000_0000 <= self.dy <= 0x1_0000_0000
    }

    /// The vector has no length, and so no angle.
    pub open spec fn is_zero(self) -> bool {
        self.dx == 0 && self.dy == 0
    }

    /// The direction from `from` to `to`.
    pub open spec fn between(from: Point, to: Point) -> Direction {
        Direction { dx: (to.x - from.x) as i64, dy: (to.y - from.y) as i64 }
    }

    /// The angle lies in the half turn that starts at the positive x-axis.
    pub open spec fn upper(self) -> bool {
        self.dy > 0 || (self.dy == 0 && self.dx > 0)
    }

    /// The angle of `self`, counted from the positive x-axis through a full
    /// turn, is strictly smaller than that of `other`.
    pub open spec fn before(self, other: Direction) -> bool {
        if self.upper() != other.upper() {
            self.upper()
        } else {
            cross(self.dx as int, self.dy as int, other.dx as int, other.dy as int) > 0
        }
    }

    /// Turned by a quarter turn against the clock.
    pub open spec fn left(self) -> Direction {
        Direction { dx: (-self.dy) as i64, dy: self.dx }
    }

    /// Turned by a quarter turn with the clock.
    pub open spec fn right(self) -> Direction {
        Direction { dx: self.dy, dy: (-self.dx) as i64 }
    }

    /// `scale()` times the length, rounded down.
    pub open spec fn norm(self) -> int {
        floor_sqrt((self.dx * self.dx + self.dy * self.dy) * scale() * scale())
    }

    /// The vector of length `r` along `self`, each component rounded away from
    /// zero; the zero vector where `self` is zero.
    pub open spec fn offset(self, r: int) -> Direction {
        if self.is_zero() {
            Direction { dx: 0, dy: 0 }
        } else {
            Direction {
                dx: offset_part(self.dx as int, self.norm(), r) as i64,
                dy: offset_part(self.dy as int, self.norm(), r) as i64,
            }
        }
    }

    /// Going from `self` to `next` against the clock takes more than a half
    /// turn, where `self` does not come after `next` in the order of angles.
    pub open spec fn wide_gap(self, next: Direction) -> bool {
        cross(self.dx as int, self.dy as int, next.dx as int, next.dy as int) < 0
    }

    /// Going from `self`, the last direction in the order of angles, on to
    /// `first` takes more than a half turn. Equal angles are a full turn apart.
    pub open spec fn wide_wrap(self, first: Direction) -> bool {
        let c = cross(self.dx as int, self.dy as int, first.dx as int, first.dy as int);
        c < 0 || (c == 0 && dot(self.dx as int, self.dy as int, first.dx as int, first.dy as int)
            > 0)
    }

    /// The direction from `from` to `to`.
    pub fn from_points(from: Point, to: Point) -> (d: Direction)
        ensures
            d == Direction::between(from, to),
            d.bounded(),
            d.is_zero() <==> from == to,
    {
        Direction { dx: to.x as i64 - from.x as i64, dy: to.y as i64 - from.y as i64 }
    }

    /// Computes `left`.
    pub fn turned_left(&self) -> (d: Direction)
        requires
            self.bounded(),
        ensures
            d == self.left(),
            d.bounded(),
            d.is_zero() == self.is_zero(),
    {
        Direction { dx: -self.dy, dy: self.dx }
    }

    /// Computes `right`.
    pub fn turned_right(&self) -> (d: Direction)
        requires
            self.bounded(),
        ensures
            d == self.right(),
            d.bounded(),
            d.is_zero() == self.is_zero(),
    {
        Direction { dx: self.dy, dy: -self.dx }
    }

    /// The cross product with `other`.
    pub fn cross_with(&self, other: &Direction) -> (c: i128)
        requires
            self.bounded(),
            other.bounded(),
        ensures
            c == cross(self.dx as int, self.dy as int, other.dx as int, other.dy as int),
    {
        proof {
            lemma_product_bound(
                self.dx as int,
                other.dy as int,
                0x1_0000_0000,
                0x1_0000_0000,
            );
            lemma_product_bound(
                self.dy as int,
                other.dx as int,
                0x1_0000_0000,
                0x1_0000_0000,
            );
            assert(0x1_0000_0000int * 0x1_0000_0000int == 0x1_0000_0000_0000_0000)
                by (nonlinear_arith);
        }
        (self.dx as i128) * (other.dy as i128) - (self.dy as i128) * (other.dx as i128)
    }

    /// The scalar product with `other`.
    pub fn dot_with(&self, other: &Direction) -> (c: i128)
        requires
            self.bounded(),
            other.bounded(),
        ensures
            c == dot(self.dx as int, self.dy as int, other.dx as int, other.dy as int),
    {
        proof {
            lemma_product_bound(
                self.dx as int,
                other.dx as int,
                0x1_0000_0000,
                0x1_0000_0000,
            );
            lemma_product_bound(
                self.dy as int,
                other.dy as int,
                0x1_0000_0000,
                0x1_0000_0000,
            );
            assert(0x1_0000_0000int * 0x1_0000_0000int == 0x1_0000_0000_0000_0000)
                by (nonlinear_arith);
        }
        (self.dx as i128) * (other.dx as i128) + (self.dy as i128) * (other.dy as i128)
    }

    /// Whether the angle of `self` is strictly smaller than that of `other`.
    pub fn comes_before(&self, other: &Direction) -> (r: bool)
        requires
            self.bounded(),
            other.bounded(),
        ensures
            r == self.before(*other),
    {
        let mine: bool = self.dy > 0 || (self.dy == 0 && self.dx > 0);
        let theirs: bool = other.dy > 0 || (other.dy == 0 && other.dx > 0);
        if mine != theirs {
            mine
        } else {
            self.cross_with(other) > 0
        }
    }
}

impl Direction {
    /// Computes `offset`: the vector of length `r` along `self`, each component
    /// rounded away from zero. No component of it is larger than `r`; it is no
    /// shorter than `r` and longer by less than three units; and with a radius
    /// of at least one unit it is not zero.
    pub fn offset_along(&self, r: u32) -> (o: Direction)
        requires
            self.bounded(),
            r <= 0x8000_0000,
        ensures
            o == self.offset(r as int),
            -r <= o.dx <= r,
            -r <= o.dy <= r,
            o.dx * o.dx + o.dy * o.dy < (r + 3) * (r + 3),
            !self.is_zero() ==> r * r <= o.dx * o.dx + o.dy * o.dy,
            !self.is_zero() && r >= 1 ==> !o.is_zero(),
    {
        proof {
            lemma_offset(*self, r as int);
        }
        if self.dx == 0 && self.dy == 0 {
            return Direction { dx: 0, dy: 0 };
        }
        let ax: u128 = if self.dx < 0 {
            (-self.dx) as u128
        } else {
            self.dx as u128
        };
        let ay: u128 = if self.dy < 0 {
            (-self.dy) as u128
        } else {
            self.dy as u128
        };
        proof {
            lemma_product_bound(ax as int, ax as int, 0x1_0000_0000, 0x1_0000_0000);
            lemma_product_bound(ay as int, ay as int, 0x1_0000_0000, 0x1_0000_0000);
            assert(0x1_0000_0000int * 0x1_0000_0000int == 0x1_0000_0000_0000_0000)
                by (nonlinear_arith);
            assert(ax * ax == self.dx * self.dx && ay * ay == self.dy * self.dy)
                by (nonlinear_arith)
                requires
                    ax == magnitude(self.dx as int),
                    ay == magnitude(self.dy as int),
            ;
            assert(ax * ax >= 0 && ay * ay >= 0) by (nonlinear_arith);
        }
        let square: u128 = ax * ax + ay * ay;
        let scaled: u128 = square * 0x8000_0000 * 0x8000_0000;
        let norm: u128 = isqrt(scaled) as u128;
        proof {
            lemma_norm(*self);
            lemma_product_bound(r as int, ax as int, 0x8000_0000, 0x1_0000_0000);
            lemma_product_bound(r as int, ay as int, 0x8000_0000, 0x1_0000_0000);
            assert(r * ax >= 0 && r * ay >= 0) by (nonlinear_arith)
                requires
                    r >= 0,
                    ax >= 0,
                    ay >= 0,
            ;
        }
        let mx: u128 = (r as u128 * ax * 0x8000_0000 + norm - 1) / norm;
        let my: u128 = (r as u128 * ay * 0x8000_0000 + norm - 1) / norm;
        proof {
            assert(mx == magnitude(self.offset(r as int).dx as int));
            assert(my == magnitude(self.offset(r as int).dy as int));
        }
        let dx: i64 = if self.dx < 0 {
            -(mx as i64)
        } else {
            mx as i64
        };
        let dy: i64 = if self.dy < 0 {
            -(my as i64)
        } else {
            my as i64
        };
        Direction { dx, dy }
    }

    /// The sum from which the bisector is taken: where the two directions are a
    /// quarter turn or less apart, the opposite of the sum of the vectors of
    /// length `r` along them; otherwise the sum of the vectors of length `r`
    /// along their perpendiculars into the gap.
    pub open spec fn bisector_sum(self, next: Direction, r: int) -> Direction {
        if dot(self.dx as int, self.dy as int, next.dx as int, next.dy as int) >= 0 {
            let a = self.offset(r);
            let b = next.offset(r);
            Direction { dx: (-(a.dx + b.dx)) as i64, dy: (-(a.dy + b.dy)) as i64 }
        } else {
            let a = self.left().offset(r);
            let b = next.right().offset(r);
            Direction { dx: (a.dx + b.dx) as i64, dy: (a.dy + b.dy) as i64 }
        }
    }

    /// The direction half way through the gap that opens from `self`, against
    /// the clock, on to `next`, for a gap of more than a half turn: that of
    /// `bisector_sum`. Where that sum comes to nothing, as it may with a radius
    /// too small to tell the directions apart, the perpendicular of `self` into
    /// the gap stands in for it.
    pub open spec fn bisector(self, next: Direction, r: int) -> Direction {
        let sum = self.bisector_sum(next, r);
        if sum.is_zero() {
            self.left()
        } else {
            sum
        }
    }

    /// Computes `bisector`.
    pub fn bisecting(&self, next: &Direction, r: u32) -> (d: Direction)
        requires
            self.bounded(),
            next.bounded(),
            r <= 0x8000_0000,
        ensures
            d == self.bisector(*next, r as int),
            d.bounded(),
            !self.is_zero() ==> !d.is_zero(),
    {
        let sum: Direction = if self.dot_with(next) >= 0 {
            let a: Direction = self.offset_along(r);
            let b: Direction = next.offset_along(r);
            Direction { dx: -(a.dx + b.dx), dy: -(a.dy + b.dy) }
        } else {
            let a: Direction = self.turned_left().offset_along(r);
            let b: Direction = next.turned_right().offset_along(r);
            Direction { dx: a.dx + b.dx, dy: a.dy + b.dy }
        };
        if sum.dx == 0 && sum.dy == 0 {
            self.turned_left()
        } else {
            sum
        }
    }
}

/// The bisector of a gap is bounded, and it is a direction where the first
/// direction of the gap is one.
pub proof fn lemma_bisector(u: Direction, v: Direction, r: int)
    requires
        u.bounded(),
        v.bounded(),
        0 <= r <= 0x8000_0000,
    ensures
        u.bisector(v, r).bounded(),
        !u.is_zero() ==> !u.bisector(v, r).is_zero(),
{
    lemma_offset(u, r);
    lemma_offset(v, r);
    lemma_offset(u.left(), r);
    lemma_offset(v.right(), r);
}

/// `s` with `d` put in behind every element whose angle is not larger.
pub open spec fn insert_by_angle(s: Seq<Direction>, d: Direction) -> Seq<Direction>
    decreases s.len(),
{
    if s.len() == 0 {
        seq![d]
    } else if d.before(s.last()) {
        insert_by_angle(s.drop_last(), d).push(s.last())
    } else {
        s.push(d)
    }
}

/// `s` in the order of angles; directions of equal angle keep their order.
pub open spec fn sorted_by_angle(s: Seq<Direction>) -> Seq<Direction>
    decreases s.len(),
{
    if s.len() == 0 {
        s
    } else {
        insert_by_angle(sorted_by_angle(s.drop_last()), s.last())
    }
}

/// Every direction of `s` is bounded.
pub open spec fn all_bounded(s: Seq<Direction>) -> bool {
    forall|i: int| 0 <= i < s.len() ==> (#[trigger] s[i]).bounded()
}

/// Putting `d` into the first `j` elements of `s` is putting it into one
/// element fewer, where `d` comes before the last of them.
proof fn lemma_insert_passes(s: Seq<Direction>, j: int, d: Direction)
    requires
        0 < j <= s.len(),
        d.before(s[j - 1]),
    ensures
        insert_by_angle(s.take(j), d) + s.skip(j) == insert_by_angle(s.take(j - 1), d) + s.skip(
            j - 1,
        ),
{
    let head = s.take(j);
    assert(head.last() == s[j - 1]);
    assert(head.drop_last() =~= s.take(j - 1));
    assert(insert_by_angle(head, d) == insert_by_angle(s.take(j - 1), d).push(s[j - 1]));
    assert(insert_by_angle(s.take(j - 1), d).push(s[j - 1]) + s.skip(j) =~= insert_by_angle(
        s.take(j - 1),
        d,
    ) + s.skip(j - 1));
}

/// Putting `d` into the first `j` elements of `s` puts it at their end, where
/// `d` does not come before the last of them.
proof fn lemma_insert_stops(s: Seq<Direction>, j: int, d: Direction)
    requires
        0 <= j <= s.len(),
        j > 0 ==> !d.before(s[j - 1]),
    ensures
        insert_by_angle(s.take(j), d) + s.skip(j) == s.insert(j, d),
{
    let head = s.take(j);
    if j > 0 {
        assert(head.last() == s[j - 1]);
    }
    assert(insert_by_angle(head, d) =~= head.push(d));
    assert(head.push(d) + s.skip(j) =~= s.insert(j, d));
}

/// The first `i + 1` elements in order are the first `i` in order with the
/// next one put in.
proof fn lemma_sorted_grows(s: Seq<Direction>, i: int)
    requires
        0 <= i < s.len(),
    ensures
        sorted_by_angle(s.take(i + 1)) == insert_by_angle(sorted_by_angle(s.take(i)), s[i]),
{
    assert(s.take(i + 1).drop_last() =~= s.take(i));
    assert(s.take(i + 1).last() == s[i]);
}

/// Computes `sorted_by_angle`.
pub fn sort_by_angle(directions: &Vec<Direction>) -> (sorted: Vec<Direction>)
    requires
        all_bounded(directions@),
    ensures
        sorted@ == sorted_by_angle(directions@),
        sorted.len() == directions.len(),
        all_bounded(sorted@),
{
    let mut sorted: Vec<Direction> = Vec::new();
    let mut i: usize = 0;
    while i < directions.len()
        invariant
            i <= directions.len(),
            all_bounded(directions@),
            all_bounded(sorted@),
            sorted.len() == i,
            sorted@ == sorted_by_angle(directions@.take(i as int)),
        decreases directions.len() - i,
    {
        let d: Direction = directions[i];
        let j: usize = insertion_place(&sorted, &d);
        proof {
            lemma_sorted_grows(directions@, i as int);
        }
        sorted.insert(j, d);
        i += 1;
    }
    proof {
        assert(directions@.take(i as int) =~= directions@);
    }
    sorted
}

/// Where `d` goes into `sorted`: behind every element whose angle is not larger.
fn insertion_place(sorted: &Vec<Direction>, d: &Direction) -> (j: usize)
    requires
        all_bounded(sorted@),
        d.bounded(),
    ensures
        j <= sorted.len(),
        insert_by_angle(sorted@, *d) == sorted@.insert(j as int, *d),
{
    let mut j: usize = sorted.len();
    proof {
        assert(sorted@.take(j as int) =~= sorted@);
        assert(insert_by_angle(sorted@, *d) + sorted@.skip(j as int) =~= insert_by_angle(
            sorted@,
            *d,
        ));
    }
    while j > 0 && d.comes_before(&sorted[j - 1])
        invariant
            j <= sorted.len(),
            d.bounded(),
            all_bounded(sorted@),
            insert_by_angle(sorted@, *d) == insert_by_angle(sorted@.take(j as int), *d)
                + sorted@.skip(j as int),
        decreases j,
    {
        proof {
            lemma_insert_passes(sorted@, j as int, *d);
        }
        j -= 1;
    }
    proof {
        lemma_insert_stops(sorted@, j as int, *d);
    }
    j
}

/// A common positive factor can be taken out of an inequality.
proof fn lemma_cancel(x: int, y: int, n: int)
    by (nonlinear_arith)
    requires
        0 < n,
        x * n <= y * n,
    ensures
        x <= y,
{
}

/// A quotient times the divisor is at most the dividend, and one more than the
/// quotient times the divisor is more.
proof fn lemma_quotient_brackets(a: int, n: int)
    by (nonlinear_arith)
    requires
        0 <= a,
        0 < n,
    ensures
        0 <= a / n,
        (a / n) * n <= a < (a / n + 1) * n,
{
}

/// A quotient that is rounded up: times the divisor it is at least the
/// dividend, one less of it is too little, and it is zero only for zero.
pub proof fn lemma_up_div(a: int, n: int)
    requires
        0 <= a,
        0 < n,
    ensures
        0 <= up_div(a, n),
        a <= up_div(a, n) * n,
        a > 0 ==> up_div(a, n) >= 1 && (up_div(a, n) - 1) * n < a,
        a == 0 ==> up_div(a, n) == 0,
{
    let q = up_div(a, n);
    lemma_quotient_brackets(a + n - 1, n);
    assert((q + 1) * n == q * n + n && (q - 1) * n == q * n - n) by (nonlinear_arith);
    if a == 0 {
        assert(q == 0) by (nonlinear_arith)
            requires
                q * n <= n - 1,
                0 <= q,
                0 < n,
        ;
    } else {
        assert(q >= 1) by (nonlinear_arith)
            requires
                a + n - 1 < q * n + n,
                a >= 1,
                0 <= q,
                0 < n,
        ;
    }
}

/// The norm of a direction that is not zero: the root, rounded down, of the
/// scaled square of the length; at least the scale and at least every scaled
/// component.
pub proof fn lemma_norm(d: Direction)
    requires
        d.bounded(),
        !d.is_zero(),
    ensures
        d.norm() >= scale(),
        d.norm() >= magnitude(d.dx as int) * scale(),
        d.norm() >= magnitude(d.dy as int) * scale(),
        d.norm() * d.norm() <= (d.dx * d.dx + d.dy * d.dy) * scale() * scale(),
        (d.dx * d.dx + d.dy * d.dy) * scale() * scale() < (d.norm() + 1) * (d.norm() + 1),
{
    let s = scale();
    let ax = magnitude(d.dx as int);
    let ay = magnitude(d.dy as int);
    let len2 = d.dx * d.dx + d.dy * d.dy;
    assert(ax * ax == d.dx * d.dx && ay * ay == d.dy * d.dy) by (nonlinear_arith)
        requires
            ax == magnitude(d.dx as int),
            ay == magnitude(d.dy as int),
    ;
    assert(ax * ax >= 0 && ay * ay >= 0) by (nonlinear_arith);
    let m = len2 * s * s;
    assert(m >= 0 && (ax * s) * (ax * s) <= m && (ay * s) * (ay * s) <= m) by (nonlinear_arith)
        requires
            m == (ax * ax + ay * ay) * s * s,
            ax >= 0,
            ay >= 0,
            s > 0,
    ;
    lemma_floor_sqrt_exists(m);
    let n = d.norm();
    assert(0 <= ax * s && 0 <= ay * s) by (nonlinear_arith)
        requires
            ax >= 0,
            ay >= 0,
            s > 0,
    ;
    if n < ax * s {
        lemma_square_monotone(n + 1, ax * s);
    }
    if n < ay * s {
        lemma_square_monotone(n + 1, ay * s);
    }
    assert(ax * s >= s || ay * s >= s) by (nonlinear_arith)
        requires
            ax >= 1 || ay >= 1,
            ax >= 0,
            ay >= 0,
            s > 0,
    ;
}

/// The offset of length `r` along a direction: no component of it is larger
/// than `r`; it is no shorter than `r` and longer by less than three units; and
/// with a radius of at least one unit it is not zero.
pub proof fn lemma_offset(d: Direction, r: int)
    requires
        d.bounded(),
        0 <= r <= 0x8000_0000,
    ensures
        -r <= d.offset(r).dx <= r,
        -r <= d.offset(r).dy <= r,
        !d.is_zero() ==> d.offset(r).dx == offset_part(d.dx as int, d.norm(), r) && d.offset(r).dy
            == offset_part(d.dy as int, d.norm(), r),
        d.offset(r).dx * d.offset(r).dx + d.offset(r).dy * d.offset(r).dy < (r + 3) * (r + 3),
        !d.is_zero() ==> r * r <= d.offset(r).dx * d.offset(r).dx + d.offset(r).dy * d.offset(
            r,
        ).dy,
        !d.is_zero() && r >= 1 ==> !d.offset(r).is_zero(),
{
    if !d.is_zero() {
        lemma_norm(d);
        let s = scale();
        let n = d.norm();
        let nn = n * n;
        let ax = magnitude(d.dx as int);
        let ay = magnitude(d.dy as int);
        let len2 = ax * ax + ay * ay;
        let big = r * s;
        assert(ax * ax == d.dx * d.dx && ay * ay == d.dy * d.dy) by (nonlinear_arith)
            requires
                ax == magnitude(d.dx as int),
                ay == magnitude(d.dy as int),
        ;
        assert(r * ax * s == big * ax && r * ay * s == big * ay && 0 <= big * ax <= r * n && 0
            <= big * ay <= r * n) by (nonlinear_arith)
            requires
                big == r * s,
                0 <= ax * s <= n,
                0 <= ay * s <= n,
                r >= 0,
                s > 0,
                ax >= 0,
                ay >= 0,
        ;
        assert(r >= 1 && ax >= 1 ==> big * ax > 0) by (nonlinear_arith)
            requires
                big == r * s,
                s > 0,
        ;
        assert(r >= 1 && ay >= 1 ==> big * ay > 0) by (nonlinear_arith)
            requires
                big == r * s,
                s > 0,
        ;
        let qx = up_div(big * ax, n);
        let qy = up_div(big * ay, n);
        lemma_up_div(big * ax, n);
        lemma_up_div(big * ay, n);
        // no component is larger than r
        if qx > r {
            assert((qx - 1) * n >= r * n) by (nonlinear_arith)
                requires
                    qx - 1 >= r,
                    n > 0,
            ;
        }
        if qy > r {
            assert((qy - 1) * n >= r * n) by (nonlinear_arith)
                requires
                    qy - 1 >= r,
                    n > 0,
            ;
        }
        assert(d.offset(r).dx == (if d.dx < 0 { -qx } else { qx }));
        assert(d.offset(r).dy == (if d.dy < 0 { -qy } else { qy }));
        let found = qx * qx + qy * qy;
        assert(d.offset(r).dx * d.offset(r).dx + d.offset(r).dy * d.offset(r).dy == found)
            by (nonlinear_arith)
            requires
                d.offset(r).dx == qx || d.offset(r).dx == -qx,
                d.offset(r).dy == qy || d.offset(r).dy == -qy,
                found == qx * qx + qy * qy,
        ;
        assert(nn > 0) by (nonlinear_arith)
            requires
                nn == n * n,
                n > 0,
        ;
        lemma_square_of_product(big, ax);
        lemma_square_of_product(big, ay);
        lemma_square_of_product(r, s);
        assert((big * big) * (ax * ax) + (big * big) * (ay * ay) == (r * r) * (len2 * s * s))
            by (nonlinear_arith)
            requires
                big * big == (r * r) * (s * s),
                len2 == ax * ax + ay * ay,
        ;
        // it is no shorter than r
        assert(0 <= qx * n && 0 <= qy * n) by (nonlinear_arith)
            requires
                0 <= qx,
                0 <= qy,
                0 < n,
        ;
        lemma_square_monotone(big * ax, qx * n);
        lemma_square_monotone(big * ay, qy * n);
        lemma_square_of_product(qx, n);
        lemma_square_of_product(qy, n);
        assert(found * nn == (qx * qx) * nn + (qy * qy) * nn) by (nonlinear_arith)
            requires
                found == qx * qx + qy * qy,
        ;
        assert((r * r) * nn <= (r * r) * (len2 * s * s)) by (nonlinear_arith)
            requires
                nn <= len2 * s * s,
        ;
        lemma_cancel(r * r, found, nn);
        // it is longer by less than three units
        let x = if qx > 0 { qx - 1 } else { 0 };
        let y = if qy > 0 { qy - 1 } else { 0 };
        assert(0 <= x * n <= big * ax && 0 <= y * n <= big * ay) by (nonlinear_arith)
            requires
                x == 0 || x * n < big * ax,
                y == 0 || y * n < big * ay,
                0 <= x,
                0 <= y,
                0 < n,
                0 <= big * ax,
                0 <= big * ay,
        ;
        lemma_square_monotone(x * n, big * ax);
        lemma_square_monotone(y * n, big * ay);
        lemma_square_of_product(x, n);
        lemma_square_of_product(y, n);
        assert((x * x + y * y) * nn == (x * x) * nn + (y * y) * nn) by (nonlinear_arith);
        assert((r * r) * (len2 * s * s) <= (r * r) * ((n + 1) * (n + 1))) by (nonlinear_arith)
            requires
                len2 * s * s < (n + 1) * (n + 1),
        ;
        assert(0 <= r * (n + 1) <= (r + 1) * n) by (nonlinear_arith)
            requires
                0 <= r <= n,
        ;
        lemma_square_monotone(r * (n + 1), (r + 1) * n);
        lemma_square_of_product(r, n + 1);
        lemma_square_of_product(r + 1, n);
        lemma_cancel(x * x + y * y, (r + 1) * (r + 1), nn);
        assert(found < (r + 3) * (r + 3)) by (nonlinear_arith)
            requires
                found == qx * qx + qy * qy,
                0 <= qx <= x + 1,
                0 <= qy <= y + 1,
                0 <= x,
                0 <= y,
                x * x + y * y <= (r + 1) * (r + 1),
                0 <= r,
        ;
    } else {
        assert(d.offset(r).dx * d.offset(r).dx + d.offset(r).dy * d.offset(r).dy == 0)
            by (nonlinear_arith)
            requires
                d.offset(r).dx == 0 && d.offset(r).dy == 0,
        ;
        assert(0 < (r + 3) * (r + 3)) by (nonlinear_arith)
            requires
                0 <= r,
        ;
    }
}

/// Along an axis the offset has exactly the length `r`.
pub proof fn lemma_axis_offset_exact(d: Direction, r: int)
    requires
        d.bounded(),
        !d.is_zero(),
        d.dx == 0 || d.dy == 0,
        0 <= r <= 0x8000_0000,
    ensures
        d.dy == 0 && d.dx > 0 ==> d.offset(r) == (Direction { dx: r as i64, dy: 0 }),
        d.dy == 0 && d.dx < 0 ==> d.offset(r) == (Direction { dx: (-r) as i64, dy: 0 }),
        d.dx == 0 && d.dy > 0 ==> d.offset(r) == (Direction { dx: 0, dy: r as i64 }),
        d.dx == 0 && d.dy < 0 ==> d.offset(r) == (Direction { dx: 0, dy: (-r) as i64 }),
{
    let s = scale();
    let a = magnitude(d.dx as int) + magnitude(d.dy as int);
    let len2 = d.dx * d.dx + d.dy * d.dy;
    assert(len2 == a * a) by (nonlinear_arith)
        requires
            len2 == d.dx * d.dx + d.dy * d.dy,
            d.dx == 0 || d.dy == 0,
            a == magnitude(d.dx as int) + magnitude(d.dy as int),
    ;
    assert(0 < a * s) by (nonlinear_arith)
        requires
            a > 0,
            s > 0,
    ;
    lemma_square_of_product(a, s);
    assert(len2 * s * s == (a * a) * (s * s)) by (nonlinear_arith)
        requires
            len2 == a * a,
    ;
    crate::math::lemma_floor_sqrt_of_square(a * s);
    assert(d.norm() == a * s);
    assert(up_div(r * a * s, a * s) == r) by (nonlinear_arith)
        requires
            a * s > 0,
            r >= 0,
    ;
    assert(up_div(r * 0 * s, a * s) == 0) by (nonlinear_arith)
        requires
            a * s > 0,
    ;
}

/// No direction of `s` is the zero vector.
pub open spec fn all_nonzero(s: Seq<Direction>) -> bool {
    forall|i: int| 0 <= i < s.len() ==> !(#[trigger] s[i]).is_zero()
}

/// Angles do not fall from front to back.
pub open spec fn in_order(s: Seq<Direction>) -> bool {
    forall|i: int, j: int| 0 <= i < j < s.len() ==> !s[j].before(s[i])
}

/// Of two directions at most one comes before the other.
pub proof fn lemma_before_asymmetric(a: Direction, b: Direction)
    requires
        a.before(b),
    ensures
        !b.before(a),
{
    assert(cross(b.dx as int, b.dy as int, a.dx as int, a.dy as int) == -cross(
        a.dx as int,
        a.dy as int,
        b.dx as int,
        b.dy as int,
    )) by (nonlinear_arith);
}

/// How the turn from `a` to `c` is made up of the turns from `a` to `b` and
/// from `b` to `c`.
proof fn lemma_turns(ax: int, ay: int, bx: int, by: int, cx: int, cy: int)
    ensures
        cross(ax, ay, cx, cy) * by == cross(ax, ay, bx, by) * cy + cross(bx, by, cx, cy) * ay,
        cross(ax, ay, cx, cy) * bx == cross(ax, ay, bx, by) * cx + cross(bx, by, cx, cy) * ax,
{
    assert((ax * cy - ay * cx) * by == ax * cy * by - ay * cx * by) by (nonlinear_arith);
    assert((ax * by - ay * bx) * cy == ax * by * cy - ay * bx * cy) by (nonlinear_arith);
    assert((bx * cy - by * cx) * ay == bx * cy * ay - by * cx * ay) by (nonlinear_arith);
    assert(ax * cy * by == ax * by * cy) by (nonlinear_arith);
    assert(ay * cx * by == by * cx * ay) by (nonlinear_arith);
    assert(ay * bx * cy == bx * cy * ay) by (nonlinear_arith);
    assert((ax * cy - ay * cx) * bx == ax * cy * bx - ay * cx * bx) by (nonlinear_arith);
    assert((ax * by - ay * bx) * cx == ax * by * cx - ay * bx * cx) by (nonlinear_arith);
    assert((bx * cy - by * cx) * ax == bx * cy * ax - by * cx * ax) by (nonlinear_arith);
    assert(ax * cy * bx == bx * cy * ax) by (nonlinear_arith);
    assert(ay * cx * bx == ay * bx * cx) by (nonlinear_arith);
    assert(ax * by * cx == by * cx * ax) by (nonlinear_arith);
}

/// Within a half turn, turns that do not go back add up to one that does not.
proof fn lemma_half_turn(ax: int, ay: int, bx: int, by: int, cx: int, cy: int)
    requires
        (ay >= 0 && by >= 0 && cy >= 0) || (ay <= 0 && by <= 0 && cy <= 0),
        ay == 0 ==> ax != 0,
        by == 0 ==> bx != 0,
        ay == 0 && by == 0 ==> (ax > 0) == (bx > 0),
        by == 0 && cy == 0 ==> (bx > 0) == (cx > 0),
        by == 0 && ay >= 0 && cy >= 0 && (ay > 0 || cy > 0) ==> bx > 0,
        by == 0 && ay <= 0 && cy <= 0 && (ay < 0 || cy < 0) ==> bx < 0,
        cross(ax, ay, bx, by) >= 0,
        cross(bx, by, cx, cy) >= 0,
    ensures
        cross(ax, ay, cx, cy) >= 0,
{
    lemma_turns(ax, ay, bx, by, cx, cy);
    let turn = cross(ax, ay, cx, cy);
    let first = cross(ax, ay, bx, by);
    let second = cross(bx, by, cx, cy);
    if by > 0 {
        assert(turn >= 0) by (nonlinear_arith)
            requires
                turn * by == first * cy + second * ay,
                by > 0,
                first >= 0,
                second >= 0,
                cy >= 0,
                ay >= 0,
        ;
    } else if by < 0 {
        assert(turn >= 0) by (nonlinear_arith)
            requires
                turn * by == first * cy + second * ay,
                by < 0,
                first >= 0,
                second >= 0,
                cy <= 0,
                ay <= 0,
        ;
    } else {
        assert(first == -(ay * bx) && second == bx * cy) by (nonlinear_arith)
            requires
                first == ax * by - ay * bx,
                second == bx * cy - by * cx,
                by == 0,
        ;
        if bx > 0 {
            assert(ay <= 0 && cy >= 0) by (nonlinear_arith)
                requires
                    -(ay * bx) >= 0,
                    bx * cy >= 0,
                    bx > 0,
            ;
        } else {
            assert(ay >= 0 && cy <= 0) by (nonlinear_arith)
                requires
                    -(ay * bx) >= 0,
                    bx * cy >= 0,
                    bx < 0,
            ;
        }
        assert(ay == 0 || cy == 0);
        if ay == 0 {
            assert(turn == ax * cy) by (nonlinear_arith)
                requires
                    turn == ax * cy - ay * cx,
                    ay == 0,
            ;
            assert(ax * cy >= 0) by (nonlinear_arith)
                requires
                    (ax > 0 && cy >= 0) || (ax < 0 && cy <= 0),
            ;
        } else {
            assert(turn == -(ay * cx)) by (nonlinear_arith)
                requires
                    turn == ax * cy - ay * cx,
                    cy == 0,
            ;
            assert(-(ay * cx) >= 0) by (nonlinear_arith)
                requires
                    (cx > 0 && ay <= 0) || (cx < 0 && ay >= 0),
            ;
        }
    }
}

/// Where `a` does not come after `b`, nor `b` after `c`, `a` does not come
/// after `c`.
pub proof fn lemma_not_before_transitive(a: Direction, b: Direction, c: Direction)
    requires
        !a.is_zero(),
        !b.is_zero(),
        !c.is_zero(),
        !b.before(a),
        !c.before(b),
    ensures
        !c.before(a),
{
    if a.upper() == b.upper() && b.upper() == c.upper() {
        assert(cross(a.dx as int, a.dy as int, b.dx as int, b.dy as int) == -cross(
            b.dx as int,
            b.dy as int,
            a.dx as int,
            a.dy as int,
        )) by (nonlinear_arith);
        assert(cross(b.dx as int, b.dy as int, c.dx as int, c.dy as int) == -cross(
            c.dx as int,
            c.dy as int,
            b.dx as int,
            b.dy as int,
        )) by (nonlinear_arith);
        assert(cross(a.dx as int, a.dy as int, c.dx as int, c.dy as int) == -cross(
            c.dx as int,
            c.dy as int,
            a.dx as int,
            a.dy as int,
        )) by (nonlinear_arith);
        lemma_half_turn(
            a.dx as int,
            a.dy as int,
            b.dx as int,
            b.dy as int,
            c.dx as int,
            c.dy as int,
        );
    }
}

/// Putting a direction in keeps the order, and adds that direction and
/// nothing else.
pub proof fn lemma_insert_in_order(s: Seq<Direction>, d: Direction)
    requires
        in_order(s),
        all_nonzero(s),
        !d.is_zero(),
    ensures
        in_order(insert_by_angle(s, d)),
        all_nonzero(insert_by_angle(s, d)),
        insert_by_angle(s, d).len() == s.len() + 1,
        forall|k: int|
            0 <= k < insert_by_angle(s, d).len() ==> (#[trigger] insert_by_angle(s, d)[k]) == d
                || s.contains(insert_by_angle(s, d)[k]),
        insert_by_angle(s, d).to_multiset() == s.to_multiset().insert(d),
    decreases s.len(),
{
    let r = insert_by_angle(s, d);
    if s.len() == 0 {
        assert(r =~= Seq::<Direction>::empty().push(d));
        assert(s =~= Seq::<Direction>::empty());
        to_multiset_build(Seq::<Direction>::empty(), d);
    } else if d.before(s.last()) {
        let head = s.drop_last();
        let inner = insert_by_angle(head, d);
        lemma_insert_in_order(head, d);
        lemma_before_asymmetric(d, s.last());
        assert forall|k: int| 0 <= k < r.len() implies (#[trigger] r[k]) == d || s.contains(
            r[k],
        ) by {
            if k < inner.len() {
                assert(r[k] == inner[k]);
                if inner[k] != d {
                    let m = choose|m: int| 0 <= m < head.len() && head[m] == inner[k];
                    assert(s[m] == r[k]);
                }
            } else {
                assert(s[s.len() - 1] == r[k]);
            }
        }
        assert forall|i: int, j: int| 0 <= i < j < r.len() implies !r[j].before(r[i]) by {
            if j < inner.len() {
                assert(r[i] == inner[i] && r[j] == inner[j]);
            } else {
                assert(r[i] == inner[i]);
                if inner[i] != d {
                    let m = choose|m: int| 0 <= m < head.len() && head[m] == inner[i];
                    assert(s[m] == inner[i]);
                }
            }
        }
        to_multiset_build(inner, s.last());
        to_multiset_build(head, s.last());
        assert(head.push(s.last()) =~= s);
        assert(r.to_multiset() =~= s.to_multiset().insert(d));
    } else {
        assert forall|i: int, j: int| 0 <= i < j < r.len() implies !r[j].before(r[i]) by {
            if j == s.len() {
                if i < s.len() - 1 {
                    lemma_not_before_transitive(s[i], s[s.len() - 1], d);
                }
            }
        }
        assert forall|k: int| 0 <= k < r.len() implies (#[trigger] r[k]) == d || s.contains(
            r[k],
        ) by {
            if k < s.len() {
                assert(s[k] == r[k]);
            }
        }
        to_multiset_build(s, d);
    }
}

/// What `sorted_by_angle` returns is in the order of angles and holds the same
/// directions, each as often as before.
pub proof fn lemma_sorted_in_order(s: Seq<Direction>)
    requires
        all_nonzero(s),
    ensures
        in_order(sorted_by_angle(s)),
        all_nonzero(sorted_by_angle(s)),
        sorted_by_angle(s).len() == s.len(),
        sorted_by_angle(s).to_multiset() == s.to_multiset(),
    decreases s.len(),
{
    if s.len() > 0 {
        let head = s.drop_last();
        lemma_sorted_in_order(head);
        lemma_insert_in_order(sorted_by_angle(head), s.last());
        to_multiset_build(head, s.last());
        assert(head.push(s.last()) =~= s);
    }
}

/// Whatever `insert_by_angle` returns is the direction put in or was there
/// before.
pub proof fn lemma_insert_members(s: Seq<Direction>, d: Direction)
    ensures
        forall|k: int|
            0 <= k < insert_by_angle(s, d).len() ==> (#[trigger] insert_by_angle(s, d)[k]) == d
                || s.contains(insert_by_angle(s, d)[k]),
    decreases s.len(),
{
    let r = insert_by_angle(s, d);
    if s.len() > 0 && d.before(s.last()) {
        let head = s.drop_last();
        let inner = insert_by_angle(head, d);
        lemma_insert_members(head, d);
        assert forall|k: int| 0 <= k < r.len() implies (#[trigger] r[k]) == d || s.contains(
            r[k],
        ) by {
            if k < inner.len() {
                assert(r[k] == inner[k]);
                if inner[k] != d {
                    let m = choose|m: int| 0 <= m < head.len() && head[m] == inner[k];
                    assert(s[m] == r[k]);
                }
            } else {
                assert(s[s.len() - 1] == r[k]);
            }
        }
    } else if s.len() > 0 {
        assert forall|k: int| 0 <= k < r.len() implies (#[trigger] r[k]) == d || s.contains(
            r[k],
        ) by {
            if k < s.len() {
                assert(s[k] == r[k]);
            }
        }
    }
}

/// Whatever `sorted_by_angle` returns was among what it was given.
pub proof fn lemma_sorted_members(s: Seq<Direction>)
    ensures
        forall|k: int|
            0 <= k < sorted_by_angle(s).len() ==> s.contains(#[trigger] sorted_by_angle(s)[k]),
    decreases s.len(),
{
    if s.len() > 0 {
        let head = s.drop_last();
        let r = sorted_by_angle(s);
        lemma_sorted_members(head);
        lemma_insert_members(sorted_by_angle(head), s.last());
        assert forall|k: int| 0 <= k < r.len() implies s.contains(#[trigger] r[k]) by {
            if r[k] == s.last() {
                assert(s[s.len() - 1] == r[k]);
            } else {
                let m = choose|m: int|
                    0 <= m < sorted_by_angle(head).len() && sorted_by_angle(head)[m] == r[k];
                let n = choose|n: int| 0 <= n < head.len() && head[n] == sorted_by_angle(head)[m];
                assert(s[n] == r[k]);
            }
        }
    }
}

} // verus!
