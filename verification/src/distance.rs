//! Distance metrics between grid points: Euclidean, Manhattan, Chebyshev
//! and Octile.
//!
//! Distances are reported as integers in units of `1 / DIST_SCALE` of an
//! orthogonal step: an orthogonal neighbour is `DIST_SCALE` away, a diagonal
//! one `sqrt(2) * DIST_SCALE`, rounded down. This keeps every metric exact
//! on whole steps while staying in machine integers.

use vstd::prelude::*;
use crate::point::{Point, abs_int};

verus! {

/// Number of distance units in one orthogonal step.
pub const DIST_SCALE: u64 = 1000;

/// The distance functions a search can be parameterized by. All of them
/// vanish on equal points and are symmetric in their two arguments.
#[derive(Clone, Copy)]
pub enum DistanceAlg {
    Euclidean,
    Manhattan,
    Chebyshev,
    Octile,
}

/// Floor of the square root of a natural number.
pub open spec fn sqrt_floor(n: nat) -> nat
    decreases n,
{
    if n == 0 {
        0
    } else {
        let p = sqrt_floor((n - 1) as nat);
        if (p + 1) * (p + 1) <= n {
            p + 1
        } else {
            p
        }
    }
}

/// `sqrt_floor(n)` is the unique natural number whose square is at most `n`
/// and whose successor's square exceeds `n`.
pub proof fn lemma_sqrt_floor_bounds(n: nat)
    ensures
        sqrt_floor(n) * sqrt_floor(n) <= n,
        n < (sqrt_floor(n) + 1) * (sqrt_floor(n) + 1),
    decreases n,
{
    if n > 0 {
        lemma_sqrt_floor_bounds((n - 1) as nat);
        let p = sqrt_floor((n - 1) as nat);
        if (p + 1) * (p + 1) <= n {
            assert(sqrt_floor(n) == p + 1);
            assert((p + 1) * (p + 1) + 1 <= (p + 2) * (p + 2)) by (nonlinear_arith);
            assert(n < (p + 2) * (p + 2));
        } else {
            assert(sqrt_floor(n) == p);
            assert(p * p <= n - 1 <= n);
        }
    } else {
        assert(n == 0);
        assert(sqrt_floor(0) == 0);
        assert(0 * 0 <= 0 && 0 < 1 * 1) by (nonlinear_arith);
    }
}

/// Any natural number bracketed the same way as `sqrt_floor(n)` equals it.
pub proof fn lemma_sqrt_floor_unique(n: nat, r: nat)
    requires
        r * r <= n,
        n < (r + 1) * (r + 1),
    ensures
        r == sqrt_floor(n),
{
    lemma_sqrt_floor_bounds(n);
    let s = sqrt_floor(n);
    if r < s {
        assert((r + 1) * (r + 1) <= s * s) by (nonlinear_arith)
            requires
                r + 1 <= s,
        ;
    }
    if s < r {
        assert((s + 1) * (s + 1) <= r * r) by (nonlinear_arith)
            requires
                s + 1 <= r,
        ;
    }
}

/// The square root of a perfect square is its root.
pub proof fn lemma_sqrt_floor_square(k: nat)
    ensures
        sqrt_floor(k * k) == k,
{
    assert(k * k < (k + 1) * (k + 1)) by (nonlinear_arith);
    lemma_sqrt_floor_unique(k * k, k);
}

/// Floor of the square root, computed by binary search.
fn isqrt_u128(n: u128) -> (r: u64)
    ensures
        r as nat == sqrt_floor(n as nat),
{
    let mut lo: u128 = 0;
    let mut hi: u128 = 0xFFFF_FFFF_FFFF_FFFF;
    proof {
        assert((hi + 1) * (hi + 1) > n) by (nonlinear_arith)
            requires
                hi == 0xFFFF_FFFF_FFFF_FFFFu128,
                n <= u128::MAX,
        ;
    }
    while lo < hi
        invariant
            lo <= hi <= 0xFFFF_FFFF_FFFF_FFFFu128,
            lo * lo <= n,
            n < (hi + 1) * (hi + 1),
        decreases hi - lo,
    {
        let mid: u128 = lo + (hi - lo + 1) / 2;
        proof {
            assert(mid * mid < u128::MAX) by (nonlinear_arith)
                requires
                    mid <= 0xFFFF_FFFF_FFFF_FFFFu128,
            ;
        }
        if mid * mid <= n {
            lo = mid;
        } else {
            hi = mid - 1;
        }
    }
    proof {
        lemma_sqrt_floor_unique(n as nat, lo as nat);
    }
    lo as u64
}

/// Absolute difference of the x coordinates.
pub open spec fn delta_x(a: Point, b: Point) -> nat {
    abs_int(a@.0 - b@.0) as nat
}

/// Absolute difference of the y coordinates.
pub open spec fn delta_y(a: Point, b: Point) -> nat {
    abs_int(a@.1 - b@.1) as nat
}

/// The larger of two naturals.
pub open spec fn nat_max(x: nat, y: nat) -> nat {
    if x >= y {
        x
    } else {
        y
    }
}

/// The smaller of two naturals.
pub open spec fn nat_min(x: nat, y: nat) -> nat {
    if x <= y {
        x
    } else {
        y
    }
}

/// Straight-line distance, rounded down to whole distance units.
pub open spec fn spec_euclidean(a: Point, b: Point) -> nat {
    sqrt_floor(
        (DIST_SCALE * DIST_SCALE * (delta_x(a, b) * delta_x(a, b) + delta_y(a, b) * delta_y(
            a,
            b,
        ))) as nat,
    )
}

/// Sum of the absolute coordinate differences.
pub open spec fn spec_manhattan(a: Point, b: Point) -> nat {
    (DIST_SCALE * (delta_x(a, b) + delta_y(a, b))) as nat
}

/// Largest absolute coordinate difference.
pub open spec fn spec_chebyshev(a: Point, b: Point) -> nat {
    (DIST_SCALE * nat_max(delta_x(a, b), delta_y(a, b))) as nat
}

/// Cost of moving diagonally as far as possible, then orthogonally for the
/// remainder, with a diagonal step worth `sqrt(2)` orthogonal ones.
pub open spec fn spec_octile(a: Point, b: Point) -> nat {
    let dmin = nat_min(delta_x(a, b), delta_y(a, b));
    let dmax = nat_max(delta_x(a, b), delta_y(a, b));
    (sqrt_floor((2 * (DIST_SCALE * DIST_SCALE) * (dmin * dmin)) as nat) + DIST_SCALE * (dmax
        - dmin)) as nat
}

/// The distance the chosen metric assigns to a pair of points.
pub open spec fn spec_distance(alg: DistanceAlg, a: Point, b: Point) -> nat {
    match alg {
        DistanceAlg::Euclidean => spec_euclidean(a, b),
        DistanceAlg::Manhattan => spec_manhattan(a, b),
        DistanceAlg::Chebyshev => spec_chebyshev(a, b),
        DistanceAlg::Octile => spec_octile(a, b),
    }
}

impl DistanceAlg {
    /// Distance between two points under the chosen metric, in distance
    /// units of `1 / DIST_SCALE` of an orthogonal step.
    pub fn distance(self, a: &Point, b: &Point) -> (r: u64)
        ensures
            r as nat == spec_distance(self, *a, *b),
    {
        match self {
            DistanceAlg::Euclidean => euclidean_distance(a, b),
            DistanceAlg::Manhattan => manhattan_distance(a, b),
            DistanceAlg::Chebyshev => chebyshev_distance(a, b),
            DistanceAlg::Octile => octile_distance(a, b),
        }
    }
}

/// The scaled squared quantities fed to the square root stay well inside
/// the wide integer type.
proof fn lemma_scaled_square_bound(a: u128, b: u128)
    requires
        a <= 0x1_0000_0000,
        b <= 0x1_0000_0000,
    ensures
        a * a <= 0x1_0000_0000_0000_0000,
        b * b <= 0x1_0000_0000_0000_0000,
        1_000_000 * (a * a + b * b) < 0x20_0000_0000_0000_0000_0000,
        2 * 1_000_000 * (a * a) < 0x20_0000_0000_0000_0000_0000,
{
    assert(a * a <= 0x1_0000_0000_0000_0000 && b * b <= 0x1_0000_0000_0000_0000)
        by (nonlinear_arith)
        requires
            a <= 0x1_0000_0000,
            b <= 0x1_0000_0000,
    ;
    assert(1_000_000 * (a * a + b * b) < 0x20_0000_0000_0000_0000_0000 && 2 * 1_000_000 * (a
        * a) < 0x20_0000_0000_0000_0000_0000) by (nonlinear_arith)
        requires
            a * a <= 0x1_0000_0000_0000_0000,
            b * b <= 0x1_0000_0000_0000_0000,
    ;
}

/// Absolute difference of two machine integers, exact in a wider type.
fn abs_diff_i32(a: i32, b: i32) -> (r: u64)
    ensures
        r as int == abs_int(a as int - b as int),
{
    let d: i64 = a as i64 - b as i64;
    if d < 0 {
        (-d) as u64
    } else {
        d as u64
    }
}

/// Euclidean distance in whole distance units, rounded down.
pub fn euclidean_distance(a: &Point, b: &Point) -> (r: u64)
    ensures
        r as nat == spec_euclidean(*a, *b),
{
    let dx: u128 = abs_diff_i32(a.x, b.x) as u128;
    let dy: u128 = abs_diff_i32(a.y, b.y) as u128;
    proof {
        lemma_scaled_square_bound(dx, dy);
        assert((DIST_SCALE as u128) * (DIST_SCALE as u128) == 1_000_000) by (nonlinear_arith)
            requires
                DIST_SCALE == 1000,
        ;
    }
    let s: u128 = (DIST_SCALE as u128) * (DIST_SCALE as u128);
    let n: u128 = s * (dx * dx + dy * dy);
    isqrt_u128(n)
}

/// Manhattan distance in whole distance units.
pub fn manhattan_distance(a: &Point, b: &Point) -> (r: u64)
    ensures
        r as nat == spec_manhattan(*a, *b),
{
    let dx: u64 = abs_diff_i32(a.x, b.x);
    let dy: u64 = abs_diff_i32(a.y, b.y);
    DIST_SCALE * (dx + dy)
}

/// Chebyshev distance in whole distance units.
pub fn chebyshev_distance(a: &Point, b: &Point) -> (r: u64)
    ensures
        r as nat == spec_chebyshev(*a, *b),
{
    let dx: u64 = abs_diff_i32(a.x, b.x);
    let dy: u64 = abs_diff_i32(a.y, b.y);
    if dx >= dy {
        DIST_SCALE * dx
    } else {
        DIST_SCALE * dy
    }
}

/// Octile distance in whole distance units, the diagonal part rounded down.
pub fn octile_distance(a: &Point, b: &Point) -> (r: u64)
    ensures
        r as nat == spec_octile(*a, *b),
{
    let dx: u64 = abs_diff_i32(a.x, b.x);
    let dy: u64 = abs_diff_i32(a.y, b.y);
    let dmin: u64 = if dx <= dy {
        dx
    } else {
        dy
    };
    let dmax: u64 = if dx >= dy {
        dx
    } else {
        dy
    };
    proof {
        lemma_scaled_square_bound(dmin as u128, dmax as u128);
        assert((DIST_SCALE as u128) * (DIST_SCALE as u128) == 1_000_000) by (nonlinear_arith)
            requires
                DIST_SCALE == 1000,
        ;
    }
    let m: u128 = 2 * ((DIST_SCALE as u128) * (DIST_SCALE as u128)) * ((dmin as u128) * (
    dmin as u128));
    let diag: u64 = isqrt_u128(m);
    proof {
        lemma_sqrt_floor_bounds(m as nat);
        assert(diag < 0x1_0000_0000_0000u64) by (nonlinear_arith)
            requires
                (diag as nat) * (diag as nat) <= m as nat,
                (m as nat) < 0x1_0000_0000_0000_0000_0000_0000,
        ;
    }
    diag + DIST_SCALE * (dmax - dmin)
}

/// The distance from any point to itself is zero, under every metric.
pub proof fn lemma_distance_self_zero(alg: DistanceAlg, a: Point)
    ensures
        spec_distance(alg, a, a) == 0,
{
    assert(sqrt_floor(0) == 0);
    assert(delta_x(a, a) == 0 && delta_y(a, a) == 0);
    assert(DIST_SCALE * DIST_SCALE * (0 * 0 + 0 * 0) == 0) by (nonlinear_arith);
    assert(2 * (DIST_SCALE * DIST_SCALE) * (0 * 0) == 0) by (nonlinear_arith);
}

/// Every metric is symmetric in its two arguments.
pub proof fn lemma_distance_symmetric(alg: DistanceAlg, a: Point, b: Point)
    ensures
        spec_distance(alg, a, b) == spec_distance(alg, b, a),
{
}

/// Manhattan distance dominates Chebyshev distance on every pair.
pub proof fn lemma_manhattan_ge_chebyshev(a: Point, b: Point)
    ensures
        spec_manhattan(a, b) >= spec_chebyshev(a, b),
{
}

/// On axis-aligned or pure-diagonal pairs, the Octile distance agrees with
/// the Euclidean distance exactly.
pub proof fn lemma_octile_euclidean_aligned(a: Point, b: Point)
    requires
        delta_x(a, b) == 0 || delta_y(a, b) == 0 || delta_x(a, b) == delta_y(a, b),
    ensures
        spec_octile(a, b) == spec_euclidean(a, b),
{
    let dx = delta_x(a, b);
    let dy = delta_y(a, b);
    let s = DIST_SCALE as nat;
    if dx == dy {
        assert(2 * (s * s) * (dx * dx) == s * s * (dx * dx + dy * dy)) by (nonlinear_arith)
            requires
                dx == dy,
        ;
    } else {
        let dmax = nat_max(dx, dy);
        assert(nat_min(dx, dy) == 0);
        assert(sqrt_floor(0) == 0);
        assert(s * s * (dx * dx + dy * dy) == (s * dmax) * (s * dmax)) by (nonlinear_arith)
            requires
                dmax == nat_max(dx, dy),
                dx == 0 || dy == 0,
                (dx == 0 && dmax == dy) || (dy == 0 && dmax == dx),
        ;
        lemma_sqrt_floor_square(s * dmax);
    }
}

} // verus!
