//! The distance estimate that guides the search: the straight-line distance
//! between two cells in fixed-point arithmetic, rounded down.

use vstd::prelude::*;
use crate::grid::{manhattan, MAX_DIM};

verus! {

/// One step, in the fixed-point unit of priorities (16 fractional bits).
pub const SCALE: u128 = 65536;

/// The square of the straight-line distance between two cells.
pub open spec fn dist_sq(a: (usize, usize), b: (usize, usize)) -> int {
    (a.0 - b.0) * (a.0 - b.0) + (a.1 - b.1) * (a.1 - b.1)
}

/// `r` is the square root of `n`, rounded down.
pub open spec fn is_floor_sqrt(n: int, r: int) -> bool {
    r >= 0 && r * r <= n < (r + 1) * (r + 1)
}

/// `h` is the straight-line distance from `a` to `b` in fixed point,
/// rounded down to a multiple of 1/65536 of a step.
pub open spec fn is_estimate(a: (usize, usize), b: (usize, usize), h: int) -> bool {
    is_floor_sqrt(dist_sq(a, b) * 65536 * 65536, h)
}

/// The straight-line distance from `a` to `b` in fixed point, rounded down.
pub open spec fn estimate(a: (usize, usize), b: (usize, usize)) -> int {
    choose|h: int| is_estimate(a, b, h)
}

/// A number has one square root rounded down.
pub proof fn lemma_floor_sqrt_unique(n: int, a: int, b: int)
    requires
        is_floor_sqrt(n, a),
        is_floor_sqrt(n, b),
    ensures
        a == b,
{
    if a < b {
        assert((a + 1) * (a + 1) <= b * b) by (nonlinear_arith)
            requires
                0 <= a,
                a + 1 <= b,
        ;
    }
    if b < a {
        assert((b + 1) * (b + 1) <= a * a) by (nonlinear_arith)
            requires
                0 <= b,
                b + 1 <= a,
        ;
    }
}

/// Whatever meets the description of the estimate is the estimate.
pub proof fn lemma_estimate_unique(a: (usize, usize), b: (usize, usize), h: int)
    requires
        is_estimate(a, b, h),
    ensures
        h == estimate(a, b),
{
    lemma_floor_sqrt_unique(dist_sq(a, b) * 65536 * 65536, h, estimate(a, b));
}

/// The integer square root, by bisection.
pub fn floor_sqrt(n: u128) -> (r: u128)
    requires
        n < 0x4000_0000_0000_0000_0000_0000_0000_0000,
    ensures
        is_floor_sqrt(n as int, r as int),
        r <= n,
{
    let mut lo: u128 = 0;
    let mut hi: u128 = 0x8000_0000_0000_0000;
    assert(n < hi * hi) by (nonlinear_arith)
        requires
            hi == 0x8000_0000_0000_0000,
            n < 0x4000_0000_0000_0000_0000_0000_0000_0000,
    ;
    while hi - lo > 1
        invariant
            lo < hi <= 0x8000_0000_0000_0000,
            lo * lo <= n < hi * hi,
        decreases hi - lo,
    {
        let mid: u128 = lo + (hi - lo) / 2;
        assert(mid * mid < 0x4000_0000_0000_0000_0000_0000_0000_0000) by (nonlinear_arith)
            requires
                mid < 0x8000_0000_0000_0000,
        ;
        if mid * mid <= n {
            lo = mid;
        } else {
            hi = mid;
        }
    }
    assert(lo <= lo * lo) by (nonlinear_arith);
    lo
}

/// The estimate of the distance from `a` to `b`: their straight-line
/// distance in fixed point, rounded down.
pub fn heuristic(a: (usize, usize), b: (usize, usize)) -> (h: u128)
    requires
        a.0 <= MAX_DIM,
        a.1 <= MAX_DIM,
        b.0 <= MAX_DIM,
        b.1 <= MAX_DIM,
    ensures
        is_estimate(a, b, h as int),
        h == estimate(a, b),
        h <= 0x1_0000_0000_0000_0000_0000_0000,
{
    let dx: u128 = if a.0 >= b.0 { (a.0 - b.0) as u128 } else { (b.0 - a.0) as u128 };
    let dy: u128 = if a.1 >= b.1 { (a.1 - b.1) as u128 } else { (b.1 - a.1) as u128 };
    assert(dx * dx <= 0x4000_0000_0000_0000 && dx * dx == (a.0 - b.0) * (a.0 - b.0))
        by (nonlinear_arith)
        requires
            dx <= 0x7fff_ffff,
            dx == a.0 - b.0 || dx == b.0 - a.0,
    ;
    assert(dy * dy <= 0x4000_0000_0000_0000 && dy * dy == (a.1 - b.1) * (a.1 - b.1))
        by (nonlinear_arith)
        requires
            dy <= 0x7fff_ffff,
            dy == a.1 - b.1 || dy == b.1 - a.1,
    ;
    let d: u128 = dx * dx + dy * dy;
    let n: u128 = d * 0x1_0000_0000;
    assert(n == dist_sq(a, b) * 65536 * 65536) by (nonlinear_arith)
        requires
            n == d * 0x1_0000_0000,
            d == dist_sq(a, b),
    ;
    let h = floor_sqrt(n);
    proof {
        lemma_estimate_unique(a, b, h as int);
    }
    h
}

/// The estimate never exceeds the number of orthogonal steps between the
/// two cells, so it never overestimates the length of a route.
pub proof fn lemma_estimate_admissible(a: (usize, usize), b: (usize, usize), h: int)
    requires
        is_estimate(a, b, h),
    ensures
        h <= 65536 * manhattan(a, b),
{
    let dx: int = if a.0 >= b.0 { a.0 - b.0 } else { b.0 - a.0 };
    let dy: int = if a.1 >= b.1 { a.1 - b.1 } else { b.1 - a.1 };
    let m = dx + dy;
    assert(dist_sq(a, b) == dx * dx + dy * dy) by (nonlinear_arith)
        requires
            dx == a.0 - b.0 || dx == b.0 - a.0,
            dy == a.1 - b.1 || dy == b.1 - a.1,
            dist_sq(a, b) == (a.0 - b.0) * (a.0 - b.0) + (a.1 - b.1) * (a.1 - b.1),
    ;
    assert(dx * dx + dy * dy <= m * m) by (nonlinear_arith)
        requires
            dx >= 0,
            dy >= 0,
            m == dx + dy,
    ;
    let d = dist_sq(a, b);
    assert(h <= 65536 * m) by (nonlinear_arith)
        requires
            h >= 0,
            m >= 0,
            h * h <= d * 65536 * 65536,
            d <= m * m,
    {
        if h > 65536 * m {
            assert(h * h >= (65536 * m + 1) * (65536 * m + 1));
            assert((65536 * m) * (65536 * m) == m * m * 65536 * 65536);
            assert(d * 65536 * 65536 <= m * m * 65536 * 65536);
        }
    }
}

} // verus!
