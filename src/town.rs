//! Towns and the distance between them.
//!
//! Coordinates are whole numbers of a fixed unit of length, so that every
//! distance and every sum of distances is exact. The distance between two
//! towns is their Euclidean distance rounded up to a whole unit: rounding up
//! keeps the triangle inequality, on which the search relies to prune.
use vstd::prelude::*;

verus! {

/// Upper bound on the distance between any two towns.
pub const MAX_DIST: u64 = 0x2_0000_0000;

/// A town, given by its coordinates in whole units.
#[derive(Clone, Copy, Debug, PartialEq, Eq)]
pub struct Town {
    pub x: i32,
    pub y: i32,
}

/// Square of the Euclidean distance between two towns.
pub open spec fn sq_dist(a: Town, b: Town) -> int {
    (a.x - b.x) * (a.x - b.x) + (a.y - b.y) * (a.y - b.y)
}

/// `r` is the least natural number whose square is at least `v`.
pub open spec fn is_ceil_sqrt(v: int, r: int) -> bool {
    0 <= r && v <= r * r && (r == 0 || (r - 1) * (r - 1) < v)
}

/// Square root of `v` rounded up, counted upwards from zero.
pub open spec fn ceil_sqrt(v: int) -> int
    decreases v,
{
    if v <= 0 {
        0
    } else {
        let r = ceil_sqrt(v - 1);
        if v <= r * r {
            r
        } else {
            r + 1
        }
    }
}

/// Euclidean distance between two towns, rounded up to a whole unit.
pub open spec fn town_dist(a: Town, b: Town) -> int {
    ceil_sqrt(sq_dist(a, b))
}

proof fn lemma_sq_nonneg(x: int)
    ensures
        x * x >= 0,
{
    assert(x * x >= 0) by (nonlinear_arith);
}

/// `ceil_sqrt` gives the least natural number whose square reaches `v`.
pub proof fn lemma_ceil_sqrt(v: int)
    requires
        v >= 0,
    ensures
        is_ceil_sqrt(v, ceil_sqrt(v)),
    decreases v,
{
    if v > 0 {
        lemma_ceil_sqrt(v - 1);
        let r = ceil_sqrt(v - 1);
        if !(v <= r * r) {
            assert((r + 1) * (r + 1) == r * r + 2 * r + 1) by (nonlinear_arith);
        }
    }
}

/// The rounded-up square root is the only number with its defining property.
pub proof fn lemma_ceil_sqrt_unique(v: int, r: int)
    requires
        v >= 0,
        is_ceil_sqrt(v, r),
    ensures
        r == ceil_sqrt(v),
{
    lemma_ceil_sqrt(v);
    let c = ceil_sqrt(v);
    if r < c {
        assert(r * r <= (c - 1) * (c - 1)) by (nonlinear_arith)
            requires
                0 <= r <= c - 1,
        ;
    } else if c < r {
        assert(c * c <= (r - 1) * (r - 1)) by (nonlinear_arith)
            requires
                0 <= c <= r - 1,
        ;
    }
}

/// Any natural number whose square reaches `v` is at least the rounded-up root.
pub proof fn lemma_ceil_sqrt_least(v: int, r: int)
    requires
        v >= 0,
        r >= 0,
        v <= r * r,
    ensures
        ceil_sqrt(v) <= r,
{
    lemma_ceil_sqrt(v);
    let c = ceil_sqrt(v);
    if c > r {
        assert(r * r <= (c - 1) * (c - 1)) by (nonlinear_arith)
            requires
                0 <= r <= c - 1,
        ;
    }
}

/// The distance does not depend on the direction of travel.
pub proof fn lemma_dist_symmetric(a: Town, b: Town)
    ensures
        town_dist(a, b) == town_dist(b, a),
{
    assert((a.x - b.x) * (a.x - b.x) == (b.x - a.x) * (b.x - a.x)) by (nonlinear_arith);
    assert((a.y - b.y) * (a.y - b.y) == (b.y - a.y) * (b.y - a.y)) by (nonlinear_arith);
}

/// Distances are natural numbers no larger than `MAX_DIST`.
pub proof fn lemma_dist_bounds(a: Town, b: Town)
    ensures
        0 <= town_dist(a, b) <= MAX_DIST,
{
    let dx = a.x - b.x;
    let dy = a.y - b.y;
    assert(dx * dx <= 0xFFFF_FFFF * 0xFFFF_FFFF) by (nonlinear_arith)
        requires
            -0xFFFF_FFFF <= dx <= 0xFFFF_FFFF,
    ;
    assert(dy * dy <= 0xFFFF_FFFF * 0xFFFF_FFFF) by (nonlinear_arith)
        requires
            -0xFFFF_FFFF <= dy <= 0xFFFF_FFFF,
    ;
    lemma_sq_nonneg(dx);
    lemma_sq_nonneg(dy);
    lemma_ceil_sqrt(sq_dist(a, b));
    lemma_ceil_sqrt_least(sq_dist(a, b), MAX_DIST as int);
}

/// Cauchy-Schwarz in the plane, in the form the triangle inequality needs.
proof fn lemma_sum_of_squares(ux: int, uy: int, wx: int, wy: int, p: int, q: int)
    requires
        p >= 0,
        q >= 0,
        ux * ux + uy * uy <= p * p,
        wx * wx + wy * wy <= q * q,
    ensures
        (ux + wx) * (ux + wx) + (uy + wy) * (uy + wy) <= (p + q) * (p + q),
{
    let s = ux * wx + uy * wy;
    let a = ux * ux + uy * uy;
    let b = wx * wx + wy * wy;
    let d = ux * wy - uy * wx;
    assert(s * s == (ux * wx) * (ux * wx) + 2 * ((ux * wx) * (uy * wy)) + (uy * wy) * (uy * wy))
        by (nonlinear_arith)
        requires
            s == ux * wx + uy * wy,
    ;
    assert(d * d == (ux * wy) * (ux * wy) - 2 * ((ux * wy) * (uy * wx)) + (uy * wx) * (uy * wx))
        by (nonlinear_arith)
        requires
            d == ux * wy - uy * wx,
    ;
    assert((ux * wx) * (uy * wy) == (ux * wy) * (uy * wx)) by (nonlinear_arith);
    assert(a * b == (ux * ux) * (wx * wx) + (ux * ux) * (wy * wy) + (uy * uy) * (wx * wx) + (uy
        * uy) * (wy * wy)) by (nonlinear_arith)
        requires
            a == ux * ux + uy * uy,
            b == wx * wx + wy * wy,
    ;
    assert((ux * wx) * (ux * wx) == (ux * ux) * (wx * wx)) by (nonlinear_arith);
    assert((uy * wy) * (uy * wy) == (uy * uy) * (wy * wy)) by (nonlinear_arith);
    assert((ux * wy) * (ux * wy) == (ux * ux) * (wy * wy)) by (nonlinear_arith);
    assert((uy * wx) * (uy * wx) == (uy * uy) * (wx * wx)) by (nonlinear_arith);
    assert(s * s + d * d == a * b);
    lemma_sq_nonneg(d);
    lemma_sq_nonneg(ux);
    lemma_sq_nonneg(uy);
    lemma_sq_nonneg(wx);
    lemma_sq_nonneg(wy);
    assert(a * b <= (p * p) * (q * q)) by (nonlinear_arith)
        requires
            0 <= a <= p * p,
            0 <= b <= q * q,
    ;
    assert(s <= p * q) by (nonlinear_arith)
        requires
            s * s <= (p * p) * (q * q),
            p >= 0,
            q >= 0,
    ;
    assert((ux + wx) * (ux + wx) + (uy + wy) * (uy + wy) == a + b + 2 * s) by (nonlinear_arith)
        requires
            s == ux * wx + uy * wy,
            a == ux * ux + uy * uy,
            b == wx * wx + wy * wy,
    ;
    assert((p + q) * (p + q) == p * p + q * q + 2 * (p * q)) by (nonlinear_arith);
}

/// Going through a third town is never shorter than going directly.
pub proof fn lemma_triangle(a: Town, b: Town, c: Town)
    ensures
        town_dist(a, c) <= town_dist(a, b) + town_dist(b, c),
{
    lemma_sq_nonneg(a.x - b.x);
    lemma_sq_nonneg(a.y - b.y);
    lemma_sq_nonneg(b.x - c.x);
    lemma_sq_nonneg(b.y - c.y);
    lemma_ceil_sqrt(sq_dist(a, b));
    lemma_ceil_sqrt(sq_dist(b, c));
    let p = town_dist(a, b);
    let q = town_dist(b, c);
    lemma_sum_of_squares(a.x - b.x, a.y - b.y, b.x - c.x, b.y - c.y, p, q);
    assert(a.x - c.x == (a.x - b.x) + (b.x - c.x));
    assert(a.y - c.y == (a.y - b.y) + (b.y - c.y));
    lemma_sq_nonneg(a.x - c.x);
    lemma_sq_nonneg(a.y - c.y);
    lemma_ceil_sqrt_least(sq_dist(a, c), p + q);
}

/// Square root of `v`, rounded up, by bisection.
fn ceil_sqrt_u128(v: u128) -> (r: u64)
    requires
        v <= 2 * 0xFFFF_FFFF * 0xFFFF_FFFF,
    ensures
        r == ceil_sqrt(v as int),
        r <= MAX_DIST,
{
    let mut lo: u64 = 0;
    let mut hi: u64 = MAX_DIST;
    assert(v <= (hi as int) * (hi as int));
    while lo < hi
        invariant
            lo <= hi <= MAX_DIST,
            v <= (hi as int) * (hi as int),
            lo == 0 || (lo - 1) * (lo - 1) < v,
        decreases hi - lo,
    {
        let mid: u64 = lo + (hi - lo) / 2;
        let m: u128 = mid as u128;
        assert(m * m <= 0x4_0000_0000_0000_0000_0) by (nonlinear_arith)
            requires
                m <= MAX_DIST,
        ;
        if m * m >= v {
            hi = mid;
        } else {
            lo = mid + 1;
        }
    }
    proof {
        lemma_ceil_sqrt_unique(v as int, lo as int);
    }
    lo
}

impl Town {
    /// Distance to the town `other`: the Euclidean distance rounded up to a
    /// whole unit.
    pub fn dist(&self, other: &Town) -> (r: u64)
        ensures
            r == town_dist(*self, *other),
            r <= MAX_DIST,
    {
        let dx: i128 = self.x as i128 - other.x as i128;
        let dy: i128 = self.y as i128 - other.y as i128;
        assert(dx * dx <= 0xFFFF_FFFF * 0xFFFF_FFFF) by (nonlinear_arith)
            requires
                -0xFFFF_FFFF <= dx <= 0xFFFF_FFFF,
        ;
        assert(dy * dy <= 0xFFFF_FFFF * 0xFFFF_FFFF) by (nonlinear_arith)
            requires
                -0xFFFF_FFFF <= dy <= 0xFFFF_FFFF,
        ;
        proof {
            lemma_sq_nonneg(dx as int);
            lemma_sq_nonneg(dy as int);
        }
        let sq: i128 = dx * dx + dy * dy;
        ceil_sqrt_u128(sq as u128)
    }
}

} // verus!
