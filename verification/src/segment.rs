//! Directed straight lines between two points of the plane.

use vstd::prelude::*;
use crate::scalar::{abs, close, isqrt, lemma_sqrt_floor_square, quot, EPSILON, LIMIT};
use crate::vector::{lemma_length_dominates, lemma_product_fits, Point, Vector};

verus! {

/// Neither coordinate of the two points differs by more than an `i64` holds.
pub open spec fn near(a: Point, b: Point) -> bool {
    abs(b.x - a.x) <= i64::MAX && abs(b.y - a.y) <= i64::MAX
}

/// Length of the straight line from `a` to `b`.
pub open spec fn distance(a: Point, b: Point) -> nat {
    b.minus(a).length()
}

/// `p` lies on the line from `a` to `b`: going through `p` is no detour,
/// up to the tolerance.
pub open spec fn on_segment(a: Point, b: Point, p: Point) -> bool {
    close(distance(a, b) as int, (distance(a, p) + distance(p, b)) as int)
}

/// The line from `a` to `b` has no extent.
pub open spec fn degenerate(a: Point, b: Point) -> bool {
    a == b
}

/// Foot of the perpendicular from `p` on the infinite line through `a` and `b`.
pub open spec fn projection(a: Point, b: Point, p: Point) -> Point {
    let v = b.minus(a);
    let d = p.minus(a).dot(v);
    Point { x: a.x + quot(v.x * d, v.dot(v)), y: a.y + quot(v.y * d, v.dot(v)) }
}

/// A point has distance zero from itself.
pub proof fn lemma_distance_self(a: Point)
    ensures
        distance(a, a) == 0,
{
    let z = a.minus(a);
    assert(z.x * z.x + z.y * z.y == 0 && 0 * 0 == 0) by (nonlinear_arith)
        requires
            z.x == 0,
            z.y == 0,
    ;
    lemma_sqrt_floor_square(0);
}

/// Both endpoints of a line lie on it.
pub proof fn lemma_endpoints_inside(a: Point, b: Point)
    ensures
        on_segment(a, b, a),
        on_segment(a, b, b),
{
    lemma_distance_self(a);
    lemma_distance_self(b);
}

/// Only a line without extent has a displacement that is zero against itself.
pub proof fn lemma_dot_self_positive(v: Point)
    ensures
        v.dot(v) >= 0,
        v.dot(v) == 0 <==> (v.x == 0 && v.y == 0),
{
    assert(v.x * v.x >= 0 && v.y * v.y >= 0) by (nonlinear_arith);
    assert(v.x != 0 ==> v.x * v.x > 0) by (nonlinear_arith);
    assert(v.y != 0 ==> v.y * v.y > 0) by (nonlinear_arith);
    assert(v.x == 0 ==> v.x * v.x == 0) by (nonlinear_arith);
    assert(v.y == 0 ==> v.y * v.y == 0) by (nonlinear_arith);
}

/// Computes the distance between two points that are near each other.
pub fn span(a: &Vector, b: &Vector) -> (r: u64)
    requires
        near(a@, b@),
    ensures
        r == distance(a@, b@),
{
    let dx: i128 = b.x as i128 - a.x as i128;
    let dy: i128 = b.y as i128 - a.y as i128;
    proof {
        lemma_product_fits(dx as int, dx as int);
        lemma_product_fits(dy as int, dy as int);
        assert(dx * dx >= 0 && dy * dy >= 0) by (nonlinear_arith);
    }
    let xx: i128 = dx * dx;
    let yy: i128 = dy * dy;
    isqrt(xx as u128 + yy as u128)
}

/// A directed straight line between two points that it borrows.
pub struct Segment<'a> {
    pub start: &'a Vector,
    pub end: &'a Vector,
}

impl<'a> Segment<'a> {
    /// The segment from `start` to `end`.
    pub fn new(start: &'a Vector, end: &'a Vector) -> (r: Segment<'a>)
        ensures
            r.start == start,
            r.end == end,
    {
        Segment { start, end }
    }

    /// The displacement from start to end.
    pub fn get_vector(&self) -> (r: Vector)
        requires
            self.end@.minus(self.start@).fits(),
        ensures
            r@ == self.end@.minus(self.start@),
    {
        self.end.subtract(self.start)
    }

    /// The Euclidean length of the segment, rounded down to a whole step.
    pub fn length(&self) -> (r: i64)
        requires
            distance(self.start@, self.end@) <= i64::MAX,
        ensures
            r == distance(self.start@, self.end@),
    {
        proof {
            lemma_length_dominates(self.end@.minus(self.start@));
        }
        span(self.start, self.end) as i64
    }

    /// Tells whether the point lies on the segment: whether the way from
    /// start to end through the point is as long as the segment, up to the
    /// tolerance. Both endpoints lie on it.
    pub fn is_point_inside(&self, point: &Vector) -> (r: bool)
        requires
            point@ == self.start@ || point@ == self.end@ || (near(self.start@, self.end@) && near(
                self.start@,
                point@,
            ) && near(point@, self.end@)),
        ensures
            r == on_segment(self.start@, self.end@, point@),
            point@ == self.start@ || point@ == self.end@ ==> r,
    {
        proof {
            lemma_endpoints_inside(self.start@, self.end@);
        }
        if (point.x == self.start.x && point.y == self.start.y) || (point.x == self.end.x
            && point.y == self.end.y) {
            return true;
        }
        let whole: i128 = span(self.start, self.end) as i128;
        let first: i128 = span(self.start, point) as i128;
        let second: i128 = span(point, self.end) as i128;
        let d: i128 = whole - (first + second);
        -(EPSILON as i128) < d && d < EPSILON as i128
    }

    /// The foot of the perpendicular from the point on the infinite line
    /// through the segment, each coordinate of its offset from the start
    /// rounded toward zero. A segment without extent has no such line.
    pub fn get_projected_point(&self, point: &Vector) -> (r: Vector)
        requires
            !degenerate(self.start@, self.end@),
            self.start@.bounded(),
            self.end@.bounded(),
            point@.bounded(),
        ensures
            r@ == projection(self.start@, self.end@, point@),
    {
        let vx: i128 = self.end.x as i128 - self.start.x as i128;
        let vy: i128 = self.end.y as i128 - self.start.y as i128;
        let dx: i128 = point.x as i128 - self.start.x as i128;
        let dy: i128 = point.y as i128 - self.start.y as i128;
        proof {
            lemma_projection_bounded(
                Point { x: vx as int, y: vy as int },
                Point { x: dx as int, y: dy as int },
            );
        }
        let d: i128 = dx * vx + dy * vy;
        let vv: i128 = vx * vx + vy * vy;
        let x: i128 = self.start.x as i128 + vx * d / vv;
        let y: i128 = self.start.y as i128 + vy * d / vv;
        Vector::new(x as i64, y as i64)
    }
}

/// The offset of a foot of a perpendicular from the line's start is no
/// longer than the offset of the projected point, coordinates summed, and
/// nothing on the way to it leaves an `i128`.
pub proof fn lemma_projection_bounded(v: Point, w: Point)
    requires
        -2 * LIMIT <= v.x <= 2 * LIMIT,
        -2 * LIMIT <= v.y <= 2 * LIMIT,
        -2 * LIMIT <= w.x <= 2 * LIMIT,
        -2 * LIMIT <= w.y <= 2 * LIMIT,
        v.x != 0 || v.y != 0,
    ensures
        v.dot(v) > 0,
        abs(w.x * v.x) <= 4 * LIMIT * LIMIT,
        abs(w.y * v.y) <= 4 * LIMIT * LIMIT,
        abs(v.x * v.x) <= 4 * LIMIT * LIMIT,
        abs(v.y * v.y) <= 4 * LIMIT * LIMIT,
        abs(v.x * w.dot(v)) <= 16 * LIMIT * LIMIT * LIMIT,
        abs(v.y * w.dot(v)) <= 16 * LIMIT * LIMIT * LIMIT,
        abs(quot(v.x * w.dot(v), v.dot(v))) <= abs(w.x) + abs(w.y),
        abs(quot(v.y * w.dot(v), v.dot(v))) <= abs(w.x) + abs(w.y),
{
    let l = 2 * LIMIT as int;
    lemma_dot_self_positive(v);
    lemma_abs_product(w.x, v.x, l, l);
    lemma_abs_product(w.y, v.y, l, l);
    lemma_abs_product(v.x, v.x, l, l);
    lemma_abs_product(v.y, v.y, l, l);
    let d = w.dot(v);
    let vv = v.dot(v);
    assert(l * l == 4 * LIMIT * LIMIT) by (nonlinear_arith)
        requires
            l == 2 * LIMIT,
    ;
    assert(abs(d) <= 2 * (l * l));
    lemma_abs_product(v.x, d, l, 2 * (l * l));
    lemma_abs_product(v.y, d, l, 2 * (l * l));
    assert(l * (2 * (l * l)) == 16 * LIMIT * LIMIT * LIMIT) by (nonlinear_arith)
        requires
            l == 2 * LIMIT,
    ;
    let m = abs(w.x) + abs(w.y);
    // |v.x * d| <= m * vv and |v.y * d| <= m * vv
    assert(abs(v.x * d) <= m * vv && abs(v.y * d) <= m * vv) by {
        lemma_cross_term(v.x, v.y);
        let c = v.x * v.y;
        assert(v.x * d == w.x * (v.x * v.x) + w.y * c) by (nonlinear_arith)
            requires
                d == w.x * v.x + w.y * v.y,
                c == v.x * v.y,
        ;
        assert(v.y * d == w.x * c + w.y * (v.y * v.y)) by (nonlinear_arith)
            requires
                d == w.x * v.x + w.y * v.y,
                c == v.x * v.y,
        ;
        lemma_abs_product(w.x, v.x * v.x, abs(w.x), vv);
        lemma_abs_product(w.y, c, abs(w.y), vv);
        lemma_abs_product(w.x, c, abs(w.x), vv);
        lemma_abs_product(w.y, v.y * v.y, abs(w.y), vv);
        assert(m * vv == abs(w.x) * vv + abs(w.y) * vv) by (nonlinear_arith)
            requires
                m == abs(w.x) + abs(w.y),
        ;
    }
    lemma_quot_bounded(v.x * d, vv, m);
    lemma_quot_bounded(v.y * d, vv, m);
}

/// The magnitude of a product is bounded by the product of bounds on the factors.
pub proof fn lemma_abs_product(a: int, b: int, ma: int, mb: int)
    requires
        abs(a) <= ma,
        abs(b) <= mb,
    ensures
        abs(a * b) <= ma * mb,
{
    let x = abs(a);
    let y = abs(b);
    assert(x * y == a * b || x * y == -(a * b)) by (nonlinear_arith)
        requires
            x == a || x == -a,
            y == b || y == -b,
    ;
    assert(x * y >= 0) by (nonlinear_arith)
        requires
            x >= 0,
            y >= 0,
    ;
    assert(x * y <= ma * mb) by (nonlinear_arith)
        requires
            0 <= x <= ma,
            0 <= y <= mb,
    ;
}

/// A mixed product is no larger than the sum of the two squares.
pub proof fn lemma_cross_term(a: int, b: int)
    ensures
        abs(a * b) <= a * a + b * b,
        a * a >= 0,
        b * b >= 0,
{
    assert((a - b) * (a - b) >= 0) by (nonlinear_arith);
    assert((a - b) * (a - b) == a * a + b * b - 2 * (a * b)) by (nonlinear_arith);
    assert((a + b) * (a + b) >= 0) by (nonlinear_arith);
    assert((a + b) * (a + b) == a * a + b * b + 2 * (a * b)) by (nonlinear_arith);
    assert(a * a >= 0 && b * b >= 0) by (nonlinear_arith);
}

/// A quotient rounded toward zero is bounded when the dividend is.
pub proof fn lemma_quot_bounded(a: int, b: int, m: int)
    requires
        b > 0,
        m >= 0,
        abs(a) <= m * b,
    ensures
        abs(quot(a, b)) <= m,
{
    let x = abs(a);
    assert(x / b <= m) by (nonlinear_arith)
        requires
            0 <= x <= m * b,
            b > 0,
    ;
    assert(x / b >= 0) by (nonlinear_arith)
        requires
            0 <= x,
            b > 0,
    ;
}

} // verus!
