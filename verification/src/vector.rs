//! Points and displacements of the plane in fixed-point coordinates.

use vstd::prelude::*;
use crate::scalar::{
    abs, are_equal, close, isqrt, lemma_sqrt_floor_bounds, lemma_sqrt_floor_square, quot, scale,
    scaled, sqrt_floor, EPSILON, LIMIT, UNIT,
};

verus! {

/// A displacement with a coordinate of at least this many steps is long
/// enough to be normalized as it is: two to the power of thirty-six.
pub const LONG: i64 = 68_719_476_736;

/// The factor by which a shorter displacement is magnified before it is
/// normalized, so that its length has digits enough: two to the power of
/// twenty-seven, more than `UNIT`.
pub const ZOOM: i64 = 134_217_728;

/// A point or displacement with unbounded integer coordinates: the
/// mathematical value of a `Vector`.
pub struct Point {
    pub x: int,
    pub y: int,
}

impl Point {
    pub open spec fn plus(self, other: Point) -> Point {
        Point { x: self.x + other.x, y: self.y + other.y }
    }

    pub open spec fn minus(self, other: Point) -> Point {
        Point { x: self.x - other.x, y: self.y - other.y }
    }

    /// Both coordinates multiplied by the fixed-point scalar `number`.
    pub open spec fn times(self, number: int) -> Point {
        Point { x: scaled(self.x, number), y: scaled(self.y, number) }
    }

    pub open spec fn dot(self, other: Point) -> int {
        self.x * other.x + self.y * other.y
    }

    pub open spec fn norm_sq(self) -> nat {
        (self.x * self.x + self.y * self.y) as nat
    }

    /// Euclidean length, rounded down to a whole fixed-point step.
    pub open spec fn length(self) -> nat {
        sqrt_floor(self.norm_sq())
    }

    /// The cross product: zero exactly for parallel displacements.
    pub open spec fn cross(self, other: Point) -> int {
        self.x * other.y - self.y * other.x
    }

    /// The displacement itself where it is long, and `ZOOM` times it where
    /// it is short: in either case its length, rounded down to a whole step,
    /// is off by less than one part in `UNIT`.
    pub open spec fn magnified(self) -> Point {
        if abs(self.x) < LONG && abs(self.y) < LONG {
            Point { x: self.x * ZOOM, y: self.y * ZOOM }
        } else {
            self
        }
    }

    /// Both coordinates multiplied by `n` and divided by a positive `d`,
    /// rounded toward zero.
    pub open spec fn ratio(self, n: int, d: int) -> Point {
        Point { x: quot(self.x * n, d), y: quot(self.y * n, d) }
    }

    /// The displacement with each coordinate multiplied by `UNIT` and
    /// divided by the length, rounded toward zero.
    pub open spec fn rescaled(self) -> Point {
        self.ratio(UNIT as int, self.length() as int)
    }

    /// The displacement of length one cell in the same direction, each
    /// coordinate rounded toward zero.
    pub open spec fn unit(self) -> Point {
        self.magnified().rescaled()
    }

    pub open spec fn close_to(self, other: Point) -> bool {
        close(self.x, other.x) && close(self.y, other.y)
    }

    /// The sum of the two is epsilon-equal to the zero displacement.
    pub open spec fn opposite(self, other: Point) -> bool {
        self.plus(other).close_to(Point { x: 0, y: 0 })
    }

    /// Both coordinates can be stored in an `i64`.
    pub open spec fn fits(self) -> bool {
        i64::MIN <= self.x <= i64::MAX && i64::MIN <= self.y <= i64::MAX
    }

    /// Both coordinates lie within `LIMIT` of the origin.
    pub open spec fn bounded(self) -> bool {
        -LIMIT <= self.x <= LIMIT && -LIMIT <= self.y <= LIMIT
    }

    /// The displacement runs along one of the two axes.
    pub open spec fn axis_aligned(self) -> bool {
        self.x == 0 || self.y == 0
    }
}

/// The product of two `i64` magnitudes fits an `i128` with room to add two of them.
pub proof fn lemma_product_fits(a: int, b: int)
    requires
        -0x8000_0000_0000_0000 <= a <= 0x8000_0000_0000_0000,
        -0x8000_0000_0000_0000 <= b <= 0x8000_0000_0000_0000,
    ensures
        -0x4000_0000_0000_0000_0000_0000_0000_0000 <= a * b
            <= 0x4000_0000_0000_0000_0000_0000_0000_0000,
{
    assert(-0x4000_0000_0000_0000_0000_0000_0000_0000 <= a * b
        <= 0x4000_0000_0000_0000_0000_0000_0000_0000) by (nonlinear_arith)
        requires
            -0x8000_0000_0000_0000 <= a <= 0x8000_0000_0000_0000,
            -0x8000_0000_0000_0000 <= b <= 0x8000_0000_0000_0000,
    ;
}

/// No coordinate of a displacement is longer than the displacement itself.
pub proof fn lemma_length_dominates(p: Point)
    ensures
        abs(p.x) <= p.length(),
        abs(p.y) <= p.length(),
{
    let n = p.norm_sq();
    let s = sqrt_floor(n);
    lemma_sqrt_floor_bounds(n);
    let ax = abs(p.x);
    let ay = abs(p.y);
    assert(ax * ax == p.x * p.x && ay * ay == p.y * p.y) by (nonlinear_arith)
        requires
            ax == p.x || ax == -p.x,
            ay == p.y || ay == -p.y,
    ;
    assert(ax * ax >= 0 && ay * ay >= 0) by (nonlinear_arith);
    if s < ax {
        assert((s + 1) * (s + 1) <= ax * ax) by (nonlinear_arith)
            requires
                0 <= s + 1 <= ax,
        ;
    }
    if s < ay {
        assert((s + 1) * (s + 1) <= ay * ay) by (nonlinear_arith)
            requires
                0 <= s + 1 <= ay,
        ;
    }
}

/// A displacement is no longer than its two coordinates taken one after the other.
pub proof fn lemma_length_at_most_sum(p: Point)
    ensures
        p.length() <= abs(p.x) + abs(p.y),
{
    let n = p.norm_sq();
    let s = sqrt_floor(n);
    lemma_sqrt_floor_bounds(n);
    let m = abs(p.x) + abs(p.y);
    assert(p.x * p.x >= 0 && p.y * p.y >= 0) by (nonlinear_arith);
    assert(m * m >= p.x * p.x + p.y * p.y) by (nonlinear_arith)
        requires
            m == abs(p.x) + abs(p.y),
            abs(p.x) == p.x || abs(p.x) == -p.x,
            abs(p.y) == p.y || abs(p.y) == -p.y,
            abs(p.x) >= 0,
            abs(p.y) >= 0,
    ;
    if s > m {
        assert(s * s >= (m + 1) * (m + 1)) by (nonlinear_arith)
            requires
                s >= m + 1,
                m >= 0,
        ;
        assert((m + 1) * (m + 1) > m * m) by (nonlinear_arith)
            requires
                m >= 0,
        ;
    }
}

/// Along an axis the length is exact: the magnitude of the one coordinate.
pub proof fn lemma_length_axis_aligned(p: Point)
    requires
        p.axis_aligned(),
    ensures
        p.length() == abs(p.x) + abs(p.y),
{
    if p.x == 0 {
        assert(p.norm_sq() == (p.y * p.y) as nat) by (nonlinear_arith)
            requires
                p.x == 0,
                p.norm_sq() == (p.x * p.x + p.y * p.y) as nat,
        ;
        lemma_sqrt_floor_square(p.y);
    } else {
        assert(p.norm_sq() == (p.x * p.x) as nat) by (nonlinear_arith)
            requires
                p.y == 0,
                p.norm_sq() == (p.x * p.x + p.y * p.y) as nat,
        ;
        lemma_sqrt_floor_square(p.x);
    }
}

/// A point or displacement of the plane; one cell is `UNIT` steps.
#[derive(Copy, Clone, Debug, PartialEq, Eq, Structural)]
pub struct Vector {
    pub x: i64,
    pub y: i64,
}

impl View for Vector {
    type V = Point;

    open spec fn view(&self) -> Point {
        Point { x: self.x as int, y: self.y as int }
    }
}

impl Vector {
    /// The vector with the given fixed-point coordinates.
    pub fn new(x: i64, y: i64) -> (r: Vector)
        ensures
            r.x == x,
            r.y == y,
    {
        Vector { x, y }
    }

    /// Tells whether both coordinates lie within `LIMIT` of the origin.
    pub fn is_bounded(&self) -> (r: bool)
        ensures
            r == self@.bounded(),
    {
        -LIMIT <= self.x && self.x <= LIMIT && -LIMIT <= self.y && self.y <= LIMIT
    }

    /// The sum of the two vectors.
    pub fn add(&self, other: &Vector) -> (r: Vector)
        requires
            self@.plus(other@).fits(),
        ensures
            r@ == self@.plus(other@),
    {
        Vector::new(self.x + other.x, self.y + other.y)
    }

    /// The displacement from `other` to this vector.
    pub fn subtract(&self, other: &Vector) -> (r: Vector)
        requires
            self@.minus(other@).fits(),
        ensures
            r@ == self@.minus(other@),
    {
        Vector::new(self.x - other.x, self.y - other.y)
    }

    /// The vector scaled by the fixed-point scalar `number`, each coordinate
    /// rounded toward zero.
    pub fn scale_by(&self, number: i64) -> (r: Vector)
        requires
            self@.times(number as int).fits(),
        ensures
            r@ == self@.times(number as int),
    {
        Vector::new(scale(self.x, number), scale(self.y, number))
    }

    /// The vector times `n` over `d`, each coordinate rounded toward zero.
    pub fn scale_by_ratio(&self, n: i64, d: i64) -> (r: Vector)
        requires
            d > 0,
            self@.ratio(n as int, d as int).fits(),
        ensures
            r@ == self@.ratio(n as int, d as int),
    {
        proof {
            lemma_product_fits(self.x as int, n as int);
            lemma_product_fits(self.y as int, n as int);
        }
        let x: i128 = (self.x as i128) * (n as i128) / (d as i128);
        let y: i128 = (self.y as i128) * (n as i128) / (d as i128);
        Vector::new(x as i64, y as i64)
    }

    /// Squared length, computed without overflow.
    fn norm_sq(&self) -> (r: u128)
        ensures
            r == self@.norm_sq(),
    {
        proof {
            lemma_product_fits(self.x as int, self.x as int);
            lemma_product_fits(self.y as int, self.y as int);
            assert(self.x * self.x >= 0 && self.y * self.y >= 0) by (nonlinear_arith);
        }
        let xx: i128 = (self.x as i128) * (self.x as i128);
        let yy: i128 = (self.y as i128) * (self.y as i128);
        xx as u128 + yy as u128
    }

    /// The Euclidean length, rounded down to a whole step.
    pub fn length(&self) -> (r: i64)
        requires
            self@.length() <= i64::MAX,
        ensures
            r == self@.length(),
    {
        isqrt(self.norm_sq()) as i64
    }

    /// The vector of length one cell in the same direction, each coordinate
    /// rounded toward zero; a vector without length has no direction.
    pub fn normalize(&self) -> (r: Vector)
        requires
            self@.length() > 0,
        ensures
            r@ == self@.unit(),
            close(r@.length() as int, UNIT as int),
            r@.dot(self@) > 0,
            abs(r@.cross(self@)) < abs(self@.x) + abs(self@.y),
    {
        proof {
            lemma_unit(self@);
        }
        let short: bool = -LONG < self.x && self.x < LONG && -LONG < self.y && self.y < LONG;
        let magnified: Vector = if short {
            Vector::new(self.x * ZOOM, self.y * ZOOM)
        } else {
            *self
        };
        let len: i128 = isqrt(magnified.norm_sq()) as i128;
        let x: i128 = (magnified.x as i128) * (UNIT as i128) / len;
        let y: i128 = (magnified.y as i128) * (UNIT as i128) / len;
        Vector::new(x as i64, y as i64)
    }

    /// Epsilon-tolerant equality, coordinate by coordinate.
    pub fn equal_to(&self, other: &Vector) -> (r: bool)
        ensures
            r == self@.close_to(other@),
    {
        are_equal(self.x, other.x) && are_equal(self.y, other.y)
    }

    /// Tells whether the two vectors cancel each other, up to the tolerance.
    pub fn is_opposite(&self, other: &Vector) -> (r: bool)
        ensures
            r == self@.opposite(other@),
    {
        let sx: i128 = self.x as i128 + other.x as i128;
        let sy: i128 = self.y as i128 + other.y as i128;
        -(EPSILON as i128) < sx && sx < EPSILON as i128 && -(EPSILON as i128) < sy && sy
            < EPSILON as i128
    }

    /// The dot product, in squared steps.
    pub fn dot_product(&self, other: &Vector) -> (r: i128)
        requires
            i128::MIN <= self@.dot(other@) <= i128::MAX,
        ensures
            r == self@.dot(other@),
    {
        proof {
            lemma_product_fits(self.x as int, other.x as int);
            lemma_product_fits(self.y as int, other.y as int);
        }
        let xx: i128 = (self.x as i128) * (other.x as i128);
        let yy: i128 = (self.y as i128) * (other.y as i128);
        xx + yy
    }
}

/// The floor of the square root is at least `r` from the square of `r` on.
pub proof fn lemma_sqrt_floor_at_least(n: nat, r: nat)
    requires
        r * r <= n,
    ensures
        r <= sqrt_floor(n),
{
    lemma_sqrt_floor_bounds(n);
    let s = sqrt_floor(n);
    if s < r {
        assert((s + 1) * (s + 1) <= r * r) by (nonlinear_arith)
            requires
                0 <= s + 1 <= r,
        ;
    }
}

/// The floor of the square root is at most `r` below the square of `r + 1`.
pub proof fn lemma_sqrt_floor_at_most(n: nat, r: nat)
    requires
        n < (r + 1) * (r + 1),
    ensures
        sqrt_floor(n) <= r,
{
    lemma_sqrt_floor_bounds(n);
    let s = sqrt_floor(n);
    if s > r {
        assert((r + 1) * (r + 1) <= s * s) by (nonlinear_arith)
            requires
                0 <= r + 1 <= s,
        ;
    }
}

/// A quotient of natural numbers and its remainder.
pub proof fn lemma_quotient(a: int, d: int)
    requires
        a >= 0,
        d > 0,
    ensures
        0 <= a / d,
        d * (a / d) <= a < d * (a / d) + d,
{
    vstd::arithmetic::div_mod::lemma_fundamental_div_mod(a, d);
    vstd::arithmetic::div_mod::lemma_mod_bound(a, d);
    vstd::arithmetic::div_mod::lemma_div_pos_is_pos(a, d);
}

/// A displacement at least one cell long, rescaled by its length, is one
/// cell long to within three steps, points the same way, and is parallel
/// to within one step in each coordinate.
pub proof fn lemma_rescaled(w: Point)
    requires
        w.length() >= UNIT,
    ensures
        abs(w.rescaled().x) <= UNIT,
        abs(w.rescaled().y) <= UNIT,
        w.x >= 0 ==> w.rescaled().x >= 0,
        w.x <= 0 ==> w.rescaled().x <= 0,
        w.y >= 0 ==> w.rescaled().y >= 0,
        w.y <= 0 ==> w.rescaled().y <= 0,
        UNIT - 3 <= w.rescaled().length() <= UNIT,
        w.rescaled().dot(w) > 0,
        abs(w.rescaled().cross(w)) < abs(w.x) + abs(w.y),
{
    let u = UNIT as int;
    let s = w.length() as int;
    let a = abs(w.x);
    let b = abs(w.y);
    let r = w.rescaled();
    let p = (a * u) / s;
    let q = (b * u) / s;
    assert(a * u >= 0 && b * u >= 0) by (nonlinear_arith)
        requires
            a >= 0,
            b >= 0,
            u > 0,
    ;
    lemma_quotient(a * u, s);
    lemma_quotient(b * u, s);
    lemma_sqrt_floor_bounds(w.norm_sq());
    lemma_length_dominates(w);
    let n = a * a + b * b;
    assert(a * a == w.x * w.x && b * b == w.y * w.y) by (nonlinear_arith)
        requires
            a == w.x || a == -w.x,
            b == w.y || b == -w.y,
    ;
    assert(a * a >= 0 && b * b >= 0) by (nonlinear_arith);
    assert(n == w.norm_sq());
    assert(s * s <= n && n < (s + 1) * (s + 1));
    // the coordinates of the result, up to their signs
    assert(w.x >= 0 ==> w.x * u == a * u) by (nonlinear_arith)
        requires
            w.x >= 0 ==> a == w.x,
    ;
    assert(w.x < 0 ==> w.x * u == -(a * u)) by (nonlinear_arith)
        requires
            w.x < 0 ==> a == -w.x,
    ;
    assert(w.y >= 0 ==> w.y * u == b * u) by (nonlinear_arith)
        requires
            w.y >= 0 ==> b == w.y,
    ;
    assert(w.y < 0 ==> w.y * u == -(b * u)) by (nonlinear_arith)
        requires
            w.y < 0 ==> b == -w.y,
    ;
    assert(a == 0 ==> a * u == 0) by (nonlinear_arith);
    assert(b == 0 ==> b * u == 0) by (nonlinear_arith);
    assert(r.x == if w.x >= 0 { p } else { -p });
    assert(r.y == if w.y >= 0 { q } else { -q });
    assert(p * p == r.x * r.x && q * q == r.y * r.y) by (nonlinear_arith)
        requires
            r.x == p || r.x == -p,
            r.y == q || r.y == -q,
    ;
    assert(p * p >= 0 && q * q >= 0) by (nonlinear_arith);
    let m = p * p + q * q;
    assert(m == r.norm_sq());
    // no coordinate of the result is longer than a cell
    assert(p <= u && q <= u) by (nonlinear_arith)
        requires
            s * p <= a * u,
            s * q <= b * u,
            0 <= a <= s,
            0 <= b <= s,
            s > 0,
            u > 0,
    ;
    // from above: the result is shorter than a cell and a step
    let sp = s * p;
    let sq = s * q;
    let au = a * u;
    let bu = b * u;
    assert(sp * sp <= au * au && sq * sq <= bu * bu) by (nonlinear_arith)
        requires
            0 <= sp <= au,
            0 <= sq <= bu,
    ;
    assert(sp * sp + sq * sq == (s * s) * m) by (nonlinear_arith)
        requires
            sp == s * p,
            sq == s * q,
            m == p * p + q * q,
    ;
    assert(au * au + bu * bu == (u * u) * n) by (nonlinear_arith)
        requires
            au == a * u,
            bu == b * u,
            n == a * a + b * b,
    ;
    let big = u * (s + 1);
    let small = s * (u + 1);
    assert(big <= small) by (nonlinear_arith)
        requires
            big == u * (s + 1),
            small == s * (u + 1),
            u <= s,
    ;
    assert(big * big <= small * small) by (nonlinear_arith)
        requires
            0 <= big <= small,
    ;
    assert(big * big == (u * u) * ((s + 1) * (s + 1))) by (nonlinear_arith)
        requires
            big == u * (s + 1),
    ;
    assert(small * small == (s * s) * ((u + 1) * (u + 1))) by (nonlinear_arith)
        requires
            small == s * (u + 1),
    ;
    assert((u * u) * n < (u * u) * ((s + 1) * (s + 1))) by (nonlinear_arith)
        requires
            n < (s + 1) * (s + 1),
            u > 0,
    ;
    assert((s * s) * m < (s * s) * ((u + 1) * (u + 1)));
    assert(m < (u + 1) * (u + 1)) by (nonlinear_arith)
        requires
            (s * s) * m < (s * s) * ((u + 1) * (u + 1)),
            s > 0,
    ;
    // from below: the result is longer than a cell less three steps
    assert(sp * sp >= au * au - 2 * (au * s) && sq * sq >= bu * bu - 2 * (bu * s))
        by (nonlinear_arith)
        requires
            0 <= sp <= au < sp + s,
            0 <= sq <= bu < sq + s,
            s > 0,
    ;
    assert(au * s + bu * s <= 2 * ((s * s) * u)) by (nonlinear_arith)
        requires
            au == a * u,
            bu == b * u,
            0 <= a <= s,
            0 <= b <= s,
            u > 0,
    ;
    assert((u * u) * n >= (u * u) * (s * s)) by (nonlinear_arith)
        requires
            n >= s * s,
            u > 0,
    ;
    assert((s * s) * m >= (s * s) * (u * u - 4 * u)) by (nonlinear_arith)
        requires
            (s * s) * m == sp * sp + sq * sq,
            sp * sp >= au * au - 2 * (au * s),
            sq * sq >= bu * bu - 2 * (bu * s),
            au * au + bu * bu == (u * u) * n,
            (u * u) * n >= (u * u) * (s * s),
            au * s + bu * s <= 2 * ((s * s) * u),
    ;
    assert(m >= u * u - 4 * u) by (nonlinear_arith)
        requires
            (s * s) * m >= (s * s) * (u * u - 4 * u),
            s > 0,
    ;
    assert((u - 3) * (u - 3) <= u * u - 4 * u && (u - 3) * (u - 3) > 0) by (nonlinear_arith)
        requires
            u == 100_000_000,
    ;
    lemma_sqrt_floor_at_least(m as nat, (u - 3) as nat);
    lemma_sqrt_floor_at_most(m as nat, u as nat);
    // the same sense
    assert(r.x * w.x == p * a && r.y * w.y == q * b) by (nonlinear_arith)
        requires
            (r.x == p && w.x == a) || (r.x == -p && w.x == -a),
            (r.y == q && w.y == b) || (r.y == -q && w.y == -b),
    ;
    assert(p * a >= 0 && q * b >= 0 && (p > 0 ==> p * a > 0) && (q > 0 ==> q * b > 0))
        by (nonlinear_arith)
        requires
            p >= 0,
            q >= 0,
            a >= 0,
            b >= 0,
            a == 0 ==> p == 0,
            b == 0 ==> q == 0,
    ;
    assert(p > 0 || q > 0) by (nonlinear_arith)
        requires
            p * p + q * q > 0,
            p >= 0,
            q >= 0,
    ;
    // parallel
    assert(r.x * w.y - r.y * w.x == p * b - q * a || r.x * w.y - r.y * w.x == q * a - p * b)
        by (nonlinear_arith)
        requires
            (r.x == p && w.x == a) || (r.x == -p && w.x == -a),
            (r.y == q && w.y == b) || (r.y == -q && w.y == -b),
    ;
    assert(s * (p * b - q * a) == (bu - sq) * a - (au - sp) * b) by (nonlinear_arith)
        requires
            sp == s * p,
            sq == s * q,
            au == a * u,
            bu == b * u,
    ;
    assert(-(s * (a + b)) < (bu - sq) * a - (au - sp) * b < s * (a + b)) by (nonlinear_arith)
        requires
            0 <= bu - sq < s,
            0 <= au - sp < s,
            a >= 0,
            b >= 0,
            a + b > 0,
    ;
    assert(-(a + b) < p * b - q * a < a + b) by (nonlinear_arith)
        requires
            -(s * (a + b)) < s * (p * b - q * a) < s * (a + b),
            s > 0,
    ;
}

/// A displacement that is not zero has a unit displacement: one cell long
/// within the tolerance, pointing the same way, and parallel to within one
/// step in each coordinate.
pub proof fn lemma_unit(v: Point)
    requires
        v.length() > 0,
    ensures
        v.magnified().length() >= ZOOM,
        abs(v.unit().x) <= UNIT,
        abs(v.unit().y) <= UNIT,
        close(v.unit().length() as int, UNIT as int),
        v.unit().dot(v) > 0,
        abs(v.unit().cross(v)) < abs(v.x) + abs(v.y),
{
    let m = v.magnified();
    let z = ZOOM as int;
    if v.x == 0 && v.y == 0 {
        assert(v.norm_sq() == 0) by (nonlinear_arith)
            requires
                v.x == 0,
                v.y == 0,
                v.norm_sq() == (v.x * v.x + v.y * v.y) as nat,
        ;
        assert(sqrt_floor(0) == 0);
    }
    lemma_length_dominates(m);
    lemma_rescaled(m);
    let r = v.unit();
    if abs(v.x) < LONG && abs(v.y) < LONG {
        assert(r.x * m.x + r.y * m.y == z * (r.x * v.x + r.y * v.y)) by (nonlinear_arith)
            requires
                m.x == v.x * z,
                m.y == v.y * z,
        ;
        assert(r.x * m.y - r.y * m.x == z * (r.x * v.y - r.y * v.x)) by (nonlinear_arith)
            requires
                m.x == v.x * z,
                m.y == v.y * z,
        ;
        assert(r.dot(v) > 0) by (nonlinear_arith)
            requires
                z * r.dot(v) > 0,
                z > 0,
        ;
        assert(-(abs(v.x) + abs(v.y)) < r.cross(v) < abs(v.x) + abs(v.y)) by (nonlinear_arith)
            requires
                -(z * abs(v.x) + z * abs(v.y)) < z * r.cross(v) < z * abs(v.x) + z * abs(v.y),
                z > 0,
        ;
    }
}

} // verus!
