//! Fixed-point cost arithmetic.
//!
//! Path costs and heuristic estimates are integers counted in thousandths of
//! one cell edge, so a cardinal move costs `COST_SCALE` and a diagonal move
//! costs the integer square root of two million.  All arithmetic saturates at
//! `u64::MAX` instead of overflowing, so every cost operation is total and
//! deterministic.

use vstd::prelude::*;

verus! {

/// Cost units per cell edge: costs are thousandths of an edge.
pub const COST_SCALE: u64 = 1000;

/// `COST_SCALE * COST_SCALE`, the factor that turns a squared cell distance
/// into a squared cost.
pub const COST_SCALE_SQUARED: u64 = 1000000;

/// Clamp a non-negative integer into `u64`.
pub open spec fn sat_u64(x: int) -> u64
    recommends
        0 <= x,
{
    if x > u64::MAX {
        u64::MAX
    } else {
        x as u64
    }
}

/// Clamp a non-negative integer into `usize`.
pub open spec fn sat_usize(x: int) -> usize
    recommends
        0 <= x,
{
    if x > usize::MAX {
        usize::MAX
    } else {
        x as usize
    }
}

/// The absolute difference of two integers.
pub open spec fn abs_diff(a: int, b: int) -> int {
    if a >= b {
        a - b
    } else {
        b - a
    }
}

/// The Manhattan distance between two coordinate pairs, in cells.
pub open spec fn manhattan(ax: int, ay: int, bx: int, by: int) -> int {
    abs_diff(ax, bx) + abs_diff(ay, by)
}

/// The integer square root: the greatest `r` with `r * r <= n`.
pub open spec fn isqrt_spec(n: nat) -> nat
    decreases n,
{
    if n == 0 {
        0
    } else {
        let p = isqrt_spec((n - 1) as nat);
        if (p + 1) * (p + 1) <= n {
            p + 1
        } else {
            p
        }
    }
}

/// The Euclidean distance between two coordinate pairs, in saturating
/// fixed-point cost units: the integer square root of the squared cell
/// distance scaled by `COST_SCALE_SQUARED`, each intermediate clamped into
/// `u64`.
pub open spec fn euclid(ax: int, ay: int, bx: int, by: int) -> int {
    let dx = abs_diff(ax, bx);
    let dy = abs_diff(ay, by);
    let d2 = sat_u64(dx * dx + dy * dy) as int;
    isqrt_spec(sat_u64(d2 * (COST_SCALE_SQUARED as int)) as nat) as int
}

/// Manhattan distance is symmetric in its two coordinate pairs.
pub proof fn lemma_manhattan_symmetric(ax: int, ay: int, bx: int, by: int)
    ensures
        manhattan(ax, ay, bx, by) == manhattan(bx, by, ax, ay),
{
}

/// Euclidean distance is symmetric in its two coordinate pairs.
pub proof fn lemma_euclid_symmetric(ax: int, ay: int, bx: int, by: int)
    ensures
        euclid(ax, ay, bx, by) == euclid(bx, by, ax, ay),
{
}

/// `isqrt_spec(n)` is the exact integer square root: its square is at most
/// `n`, and the next square is beyond `n`.
pub proof fn lemma_isqrt_bounds(n: nat)
    ensures
        isqrt_spec(n) * isqrt_spec(n) <= n,
        n < (isqrt_spec(n) + 1) * (isqrt_spec(n) + 1),
    decreases n,
{
    if n == 0 {
        assert(isqrt_spec(n) == 0);
        assert(n < (isqrt_spec(n) + 1) * (isqrt_spec(n) + 1)) by (nonlinear_arith)
            requires
                n == 0,
                isqrt_spec(n) == 0,
        ;
    } else {
        lemma_isqrt_bounds((n - 1) as nat);
        let p = isqrt_spec((n - 1) as nat);
        assert(p * p <= n - 1);
        if (p + 1) * (p + 1) <= n {
            assert(isqrt_spec(n) == p + 1);
            assert((p + 1) * (p + 1) < (p + 2) * (p + 2)) by (nonlinear_arith)
                requires
                    0 <= p,
            ;
            assert(n < (p + 2) * (p + 2));
            assert((p + 2) * (p + 2) == (isqrt_spec(n) + 1) * (isqrt_spec(n) + 1))
                by (nonlinear_arith)
                requires
                    isqrt_spec(n) == p + 1,
            ;
        } else {
            assert(isqrt_spec(n) == p);
            assert(n < (p + 1) * (p + 1));
            assert(n < (isqrt_spec(n) + 1) * (isqrt_spec(n) + 1));
        }
        assert(n < (isqrt_spec(n) + 1) * (isqrt_spec(n) + 1));
    }
}

/// Any `r` whose square brackets `n` is the integer square root of `n`.
pub proof fn lemma_isqrt_unique(n: nat, r: nat)
    requires
        r * r <= n,
        n < (r + 1) * (r + 1),
    ensures
        r == isqrt_spec(n),
{
    let s = isqrt_spec(n);
    lemma_isqrt_bounds(n);
    if r < s {
        assert((r + 1) * (r + 1) <= s * s) by (nonlinear_arith)
            requires
                0 <= r,
                r + 1 <= s,
        ;
    }
    if s < r {
        assert((s + 1) * (s + 1) <= r * r) by (nonlinear_arith)
            requires
                0 <= s,
                s + 1 <= r,
        ;
    }
}

/// Saturating add on `u64`.
pub(crate) fn sat_add(a: u64, b: u64) -> (r: u64)
    ensures
        r == sat_u64(a + b),
{
    a.saturating_add(b)
}

/// Saturating multiply on `u64`.
pub(crate) fn sat_mul(a: u64, b: u64) -> (r: u64)
    ensures
        r == sat_u64(a as int * b as int),
{
    match a.checked_mul(b) {
        Some(p) => p,
        None => u64::MAX,
    }
}

/// The integer square root of `n`, by bisection.
pub fn isqrt(n: u64) -> (r: u64)
    ensures
        r == isqrt_spec(n as nat),
{
    let mut lo: u64 = 0;
    let mut hi: u64 = 4294967296;
    proof {
        assert((hi as int) * (hi as int) > n);
    }
    while lo + 1 < hi
        invariant
            0 <= lo < hi <= 4294967296,
            (lo as int) * (lo as int) <= n,
            n < (hi as int) * (hi as int),
        decreases hi - lo,
    {
        let mid = lo + (hi - lo) / 2;
        proof {
            assert((mid as int) * (mid as int) <= 4294967295int * 4294967295) by (nonlinear_arith)
                requires
                    0 <= mid <= 4294967295,
            ;
        }
        if mid * mid <= n {
            lo = mid;
        } else {
            hi = mid;
        }
    }
    proof {
        lemma_isqrt_unique(n as nat, lo as nat);
    }
    lo
}

/// The Manhattan distance between two coordinates, in cells (not scaled to
/// cost units), saturating at `usize::MAX`.
pub fn calc_manhattan_dist(a: (usize, usize), b: (usize, usize)) -> (r: usize)
    ensures
        r == sat_usize(manhattan(a.0 as int, a.1 as int, b.0 as int, b.1 as int)),
{
    let dx = if a.0 >= b.0 {
        a.0 - b.0
    } else {
        b.0 - a.0
    };
    let dy = if a.1 >= b.1 {
        a.1 - b.1
    } else {
        b.1 - a.1
    };
    dx.saturating_add(dy)
}

/// The Euclidean distance between two coordinates, in fixed-point cost units.
pub fn calc_euclidean_dist(a: (usize, usize), b: (usize, usize)) -> (r: u64)
    ensures
        r == euclid(a.0 as int, a.1 as int, b.0 as int, b.1 as int),
{
    let dx: u64 = (if a.0 >= b.0 {
        a.0 - b.0
    } else {
        b.0 - a.0
    }) as u64;
    let dy: u64 = (if a.1 >= b.1 {
        a.1 - b.1
    } else {
        b.1 - a.1
    }) as u64;
    let dx2 = sat_mul(dx, dx);
    let dy2 = sat_mul(dy, dy);
    let d2 = sat_add(dx2, dy2);
    proof {
        assert(dx * dx >= 0 && dy * dy >= 0) by (nonlinear_arith);
        assert(d2 == sat_u64((dx as int) * (dx as int) + (dy as int) * (dy as int)));
    }
    let scaled = sat_mul(d2, COST_SCALE_SQUARED);
    isqrt(scaled)
}

} // verus!
