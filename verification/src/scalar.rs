//! Fixed-point scalars: one grid cell is `UNIT` steps of an `i64`.

use vstd::prelude::*;

verus! {

/// Number of fixed-point steps in one grid cell.
pub const UNIT: i64 = 100_000_000;

/// Half a grid cell.
pub const HALF_UNIT: i64 = 50_000_000;

/// Two scalars closer than this are treated as equal.
pub const EPSILON: i64 = 10;

/// Largest magnitude of a coordinate that the engine works with: two to the
/// power of forty steps, nearly eleven thousand cells. With coordinates in
/// this range the products that a projection takes fit an `i128`.
pub const LIMIT: i64 = 1_099_511_627_776;

/// Magnitude of an integer.
pub open spec fn abs(a: int) -> int {
    if a < 0 {
        -a
    } else {
        a
    }
}

/// Epsilon-tolerant equality of two scalars.
pub open spec fn close(one: int, another: int) -> bool {
    abs(one - another) < EPSILON
}

/// Quotient of `a` by a positive `b`, rounded toward zero.
pub open spec fn quot(a: int, b: int) -> int {
    if a >= 0 {
        a / b
    } else {
        -((-a) / b)
    }
}

/// Product of two fixed-point scalars, rounded toward zero.
pub open spec fn scaled(a: int, b: int) -> int {
    quot(a * b, UNIT as int)
}

/// The whole number of cells nearest to `a`; halves round away from zero.
pub open spec fn nearest_cell(a: int) -> int {
    if a >= 0 {
        (a + HALF_UNIT) / (UNIT as int)
    } else {
        -((-a + HALF_UNIT) / (UNIT as int))
    }
}

/// `a` rounded to a whole number of cells, as a fixed-point scalar.
pub open spec fn rounded(a: int) -> int {
    nearest_cell(a) * UNIT
}

/// A coordinate is half-integer when it lies half a cell off a whole cell count.
pub open spec fn is_half_integer(a: int) -> bool {
    (a - HALF_UNIT) % (UNIT as int) == 0
}

/// Floor of the square root.
pub open spec fn sqrt_floor(n: nat) -> nat
    decreases n,
{
    if n == 0 {
        0
    } else {
        let r = sqrt_floor((n - 1) as nat);
        if (r + 1) * (r + 1) <= n {
            r + 1
        } else {
            r
        }
    }
}

/// The floor of the square root brackets its argument between two squares.
pub proof fn lemma_sqrt_floor_bounds(n: nat)
    ensures
        sqrt_floor(n) * sqrt_floor(n) <= n,
        n < (sqrt_floor(n) + 1) * (sqrt_floor(n) + 1),
    decreases n,
{
    if n > 0 {
        lemma_sqrt_floor_bounds((n - 1) as nat);
        let r = sqrt_floor((n - 1) as nat);
        let s = sqrt_floor(n);
        if (r + 1) * (r + 1) <= n {
            assert(s == r + 1);
            assert(n < (s + 1) * (s + 1)) by (nonlinear_arith)
                requires
                    s == r + 1,
                    n - 1 < (r + 1) * (r + 1),
            ;
        } else {
            assert(s == r);
        }
    } else {
        assert(sqrt_floor(n) == 0);
        assert(0 * 0 == 0 && (0 + 1) * (0 + 1) == 1) by (nonlinear_arith);
    }
}

/// Only one number brackets `n` between its square and the next.
pub proof fn lemma_sqrt_floor_unique(n: nat, r: nat)
    requires
        r * r <= n,
        n < (r + 1) * (r + 1),
    ensures
        sqrt_floor(n) == r,
{
    lemma_sqrt_floor_bounds(n);
    let s = sqrt_floor(n);
    if s < r {
        assert((s + 1) * (s + 1) <= r * r) by (nonlinear_arith)
            requires
                s + 1 <= r,
        ;
    }
    if r < s {
        assert((r + 1) * (r + 1) <= s * s) by (nonlinear_arith)
            requires
                r + 1 <= s,
        ;
    }
}

/// The root of a perfect square is its base.
pub proof fn lemma_sqrt_floor_square(a: int)
    ensures
        sqrt_floor((a * a) as nat) == abs(a),
{
    let r = abs(a) as nat;
    assert(r * r == a * a) by (nonlinear_arith)
        requires
            r == a || r == -a,
    ;
    assert(r * r < (r + 1) * (r + 1)) by (nonlinear_arith);
    lemma_sqrt_floor_unique((a * a) as nat, r);
}

/// Epsilon-tolerant equality of two scalars.
pub fn are_equal(one: i64, another: i64) -> (r: bool)
    ensures
        r == close(one as int, another as int),
{
    let d: i128 = one as i128 - another as i128;
    -(EPSILON as i128) < d && d < EPSILON as i128
}

/// Integer square root by bisection.
pub fn isqrt(n: u128) -> (r: u64)
    ensures
        r == sqrt_floor(n as nat),
{
    let mut lo: u128 = 0;
    let mut hi: u128 = 0x1_0000_0000_0000_0000;
    assert(n < hi * hi) by (nonlinear_arith)
        requires
            hi == 0x1_0000_0000_0000_0000,
            n <= u128::MAX,
    ;
    while hi - lo > 1
        invariant
            lo < hi <= 0x1_0000_0000_0000_0000,
            lo * lo <= n,
            n < hi * hi,
        decreases hi - lo,
    {
        let mid: u128 = lo + (hi - lo) / 2;
        assert(mid * mid <= u128::MAX) by (nonlinear_arith)
            requires
                mid <= 0xffff_ffff_ffff_ffff,
        ;
        if mid * mid <= n {
            lo = mid;
        } else {
            hi = mid;
        }
    }
    proof {
        lemma_sqrt_floor_unique(n as nat, lo as nat);
    }
    lo as u64
}

/// Product of two fixed-point scalars.
pub fn scale(a: i64, b: i64) -> (r: i64)
    requires
        i64::MIN <= scaled(a as int, b as int) <= i64::MAX,
    ensures
        r == scaled(a as int, b as int),
{
    assert(-0x4000_0000_0000_0000_0000_0000_0000_0000 <= a * b
        <= 0x4000_0000_0000_0000_0000_0000_0000_0000) by (nonlinear_arith)
        requires
            -0x8000_0000_0000_0000 <= a <= 0x8000_0000_0000_0000,
            -0x8000_0000_0000_0000 <= b <= 0x8000_0000_0000_0000,
    ;
    let p: i128 = (a as i128) * (b as i128);
    (p / (UNIT as i128)) as i64
}

/// Rounds a scalar to a whole number of cells.
pub fn round(a: i64) -> (r: i64)
    requires
        i64::MIN + HALF_UNIT < a < i64::MAX - HALF_UNIT,
    ensures
        r == rounded(a as int),
{
    if a >= 0 {
        (a + HALF_UNIT) / UNIT * UNIT
    } else {
        -((-a + HALF_UNIT) / UNIT * UNIT)
    }
}

} // verus!
