//! Rounding to nearest, ties to even: what it means for a pattern to be the
//! rounding of an exact number, and that at most one pattern is.
use vstd::prelude::*;
use crate::format::{magnitude, lemma_magnitude_increases, INFINITY};

verus! {

/// The sum of the magnitudes of `t` and of the pattern after it: twice the
/// point halfway between the two.
pub open spec fn twice_midpoint(t: u64) -> nat {
    magnitude(t) + magnitude((t + 1) as u64)
}

/// The pattern `t`, without sign, is the rounding of the magnitude `n / d`:
/// `t` is at most infinity, and `n / d` lies between the midpoints on either
/// side of `t`. A midpoint itself belongs to the neighbour whose pattern is
/// even. Infinity stands for 2^1024, so a magnitude at or above the midpoint
/// beyond the largest finite number rounds to infinity.
pub open spec fn nearest(n: int, d: int, t: u64) -> bool {
    &&& t <= INFINITY
    &&& t > 0 ==> if t % 2 == 0 {
        twice_midpoint((t - 1) as u64) * d <= 2 * n
    } else {
        twice_midpoint((t - 1) as u64) * d < 2 * n
    }
    &&& t < INFINITY ==> if t % 2 == 0 {
        2 * n <= twice_midpoint(t) * d
    } else {
        2 * n < twice_midpoint(t) * d
    }
}

/// The rounding of the magnitude `n / d`, for `d > 0`.
pub open spec fn rounded(n: int, d: int) -> u64 {
    choose|t: u64| nearest(n, d, t)
}

/// Every magnitude strictly between `lo / d` and `hi / d` rounds to `t`.
pub open spec fn nearest_within(lo: int, hi: int, d: int, t: u64) -> bool {
    &&& t <= INFINITY
    &&& t > 0 ==> twice_midpoint((t - 1) as u64) * d <= 2 * lo
    &&& t < INFINITY ==> 2 * hi <= twice_midpoint(t) * d
}

/// The pattern `t`, without sign, is the rounding of the square root of `n`.
pub open spec fn nearest_root(n: int, t: u64) -> bool {
    &&& t <= INFINITY
    &&& t > 0 ==> if t % 2 == 0 {
        twice_midpoint((t - 1) as u64) * twice_midpoint((t - 1) as u64) <= 4 * n
    } else {
        twice_midpoint((t - 1) as u64) * twice_midpoint((t - 1) as u64) < 4 * n
    }
    &&& t < INFINITY ==> if t % 2 == 0 {
        4 * n <= twice_midpoint(t) * twice_midpoint(t)
    } else {
        4 * n < twice_midpoint(t) * twice_midpoint(t)
    }
}

/// The rounding of the square root of `n`.
pub open spec fn rounded_root(n: int) -> u64 {
    choose|t: u64| nearest_root(n, t)
}

proof fn lemma_midpoints_increase(t1: u64, t2: u64)
    requires
        t1 < t2 < u64::MAX,
    ensures
        twice_midpoint(t1) < twice_midpoint(t2),
{
    lemma_magnitude_increases(t1, t2);
    lemma_magnitude_increases((t1 + 1) as u64, (t2 + 1) as u64);
}

proof fn lemma_nearest_ordered(n: int, d: int, t1: u64, t2: u64)
    requires
        d > 0,
        nearest(n, d, t1),
        nearest(n, d, t2),
    ensures
        t1 >= t2,
{
    if t1 < t2 {
        let a = twice_midpoint(t1);
        let b = twice_midpoint((t2 - 1) as u64);
        if t1 + 1 < t2 {
            lemma_midpoints_increase(t1, (t2 - 1) as u64);
            assert(a * d < b * d) by (nonlinear_arith)
                requires
                    a < b,
                    d > 0,
            ;
        }
    }
}

/// At most one pattern is the rounding of a magnitude.
pub proof fn lemma_nearest_unique(n: int, d: int, t1: u64, t2: u64)
    requires
        d > 0,
        nearest(n, d, t1),
        nearest(n, d, t2),
    ensures
        t1 == t2,
{
    lemma_nearest_ordered(n, d, t1, t2);
    lemma_nearest_ordered(n, d, t2, t1);
}

/// A pattern that is a rounding of `n / d` is the rounding of `n / d`.
pub proof fn lemma_rounded_is(n: int, d: int, t: u64)
    requires
        d > 0,
        nearest(n, d, t),
    ensures
        rounded(n, d) == t,
{
    lemma_nearest_unique(n, d, t, rounded(n, d));
}

proof fn lemma_nearest_root_ordered(n: int, t1: u64, t2: u64)
    requires
        nearest_root(n, t1),
        nearest_root(n, t2),
    ensures
        t1 >= t2,
{
    if t1 < t2 {
        let a = twice_midpoint(t1);
        let b = twice_midpoint((t2 - 1) as u64);
        if t1 + 1 < t2 {
            lemma_midpoints_increase(t1, (t2 - 1) as u64);
            assert(a * a < b * b) by (nonlinear_arith)
                requires
                    0 <= a < b,
            ;
        }
    }
}

/// At most one pattern is the rounding of a square root.
pub proof fn lemma_nearest_root_unique(n: int, t1: u64, t2: u64)
    requires
        nearest_root(n, t1),
        nearest_root(n, t2),
    ensures
        t1 == t2,
{
    lemma_nearest_root_ordered(n, t1, t2);
    lemma_nearest_root_ordered(n, t2, t1);
}

/// A pattern that is a rounding of the square root of `n` is the rounding of it.
pub proof fn lemma_rounded_root_is(n: int, t: u64)
    requires
        nearest_root(n, t),
    ensures
        rounded_root(n) == t,
{
    lemma_nearest_root_unique(n, t, rounded_root(n));
}

/// A magnitude that a pattern denotes rounds to that pattern.
pub proof fn lemma_nearest_exact(t: u64, d: int)
    requires
        t <= INFINITY,
        d > 0,
    ensures
        nearest(magnitude(t) * d, d, t),
{
    let m = magnitude(t);
    if t > 0 {
        lemma_magnitude_increases((t - 1) as u64, t);
        let c = twice_midpoint((t - 1) as u64);
        assert(c * d < 2 * (m * d)) by (nonlinear_arith)
            requires
                c < 2 * m,
                d > 0,
        ;
    }
    if t < INFINITY {
        lemma_magnitude_increases(t, (t + 1) as u64);
        let c = twice_midpoint(t);
        assert(2 * (m * d) < c * d) by (nonlinear_arith)
            requires
                2 * m < c,
                d > 0,
        ;
    }
}

/// Rounding depends on the quotient alone: a common factor of numerator and
/// denominator changes nothing.
pub proof fn lemma_nearest_scales(n: int, d: int, c: int, t: u64)
    requires
        d > 0,
        c > 0,
    ensures
        nearest(n * c, d * c, t) == nearest(n, d, t),
{
    if 0 < t <= INFINITY {
        let a = twice_midpoint((t - 1) as u64);
        assert((a * (d * c) <= 2 * (n * c)) == (a * d <= 2 * n)) by (nonlinear_arith)
            requires
                c > 0,
        ;
        assert((a * (d * c) < 2 * (n * c)) == (a * d < 2 * n)) by (nonlinear_arith)
            requires
                c > 0,
        ;
    }
    if t < INFINITY {
        let a = twice_midpoint(t);
        assert((2 * (n * c) <= a * (d * c)) == (2 * n <= a * d)) by (nonlinear_arith)
            requires
                c > 0,
        ;
        assert((2 * (n * c) < a * (d * c)) == (2 * n < a * d)) by (nonlinear_arith)
            requires
                c > 0,
        ;
    }
}

/// A magnitude strictly inside an interval all of which rounds to `t` rounds
/// to `t`.
pub proof fn lemma_nearest_inside(lo: int, hi: int, d: int, n2: int, d2: int, t: u64)
    requires
        d > 0,
        d2 > 0,
        nearest_within(lo, hi, d, t),
        lo * d2 < n2 * d,
        n2 * d < hi * d2,
    ensures
        nearest(n2, d2, t),
{
    if t > 0 {
        let a = twice_midpoint((t - 1) as u64);
        assert(a * d2 < 2 * n2) by (nonlinear_arith)
            requires
                a * d <= 2 * lo,
                lo * d2 < n2 * d,
                d > 0,
                d2 > 0,
                a >= 0,
        ;
    }
    if t < INFINITY {
        let a = twice_midpoint(t);
        assert(2 * n2 < a * d2) by (nonlinear_arith)
            requires
                2 * hi <= a * d,
                n2 * d < hi * d2,
                d > 0,
                d2 > 0,
                a >= 0,
        ;
    }
}

/// The last pattern up to `hi` whose magnitude does not exceed `n / d`.
proof fn lemma_floor_pattern(n: int, d: int, hi: u64) -> (t: u64)
    requires
        n >= 0,
        d > 0,
        hi <= INFINITY,
        hi < INFINITY ==> n < magnitude((hi + 1) as u64) * d,
    ensures
        t <= hi,
        magnitude(t) * d <= n,
        t < INFINITY ==> n < magnitude((t + 1) as u64) * d,
    decreases hi,
{
    if magnitude(hi) * d <= n {
        hi
    } else {
        assert(magnitude(0) == 0);
        assert(0 * d == 0);
        lemma_floor_pattern(n, d, (hi - 1) as u64)
    }
}

/// Every magnitude has a rounding.
pub proof fn lemma_nearest_exists(n: int, d: int) -> (t: u64)
    requires
        n >= 0,
        d > 0,
    ensures
        nearest(n, d, t),
        t == rounded(n, d),
{
    let t0 = lemma_floor_pattern(n, d, INFINITY);
    let m0 = magnitude(t0) as int;
    if t0 > 0 {
        lemma_magnitude_increases((t0 - 1) as u64, t0);
        let c = twice_midpoint((t0 - 1) as u64) as int;
        assert(c * d < 2 * n) by (nonlinear_arith)
            requires
                c < 2 * m0,
                m0 * d <= n,
                d > 0,
        ;
    }
    let t = if t0 == INFINITY {
        t0
    } else {
        let c = twice_midpoint(t0) as int;
        let m1 = magnitude((t0 + 1) as u64) as int;
        lemma_magnitude_increases((t0 + 1) as u64, (t0 + 2) as u64);
        let c1 = twice_midpoint((t0 + 1) as u64) as int;
        assert(2 * n < c1 * d) by (nonlinear_arith)
            requires
                n < m1 * d,
                2 * m1 < c1,
                d > 0,
        ;
        if 2 * n < c * d || (2 * n == c * d && t0 % 2 == 0) {
            t0
        } else {
            (t0 + 1) as u64
        }
    };
    lemma_rounded_is(n, d, t);
    t
}

/// The last pattern up to `hi` whose magnitude does not exceed the root of `n`.
proof fn lemma_floor_root_pattern(n: int, hi: u64) -> (t: u64)
    requires
        n >= 0,
        hi <= INFINITY,
        hi < INFINITY ==> n < magnitude((hi + 1) as u64) * magnitude((hi + 1) as u64),
    ensures
        t <= hi,
        magnitude(t) * magnitude(t) <= n,
        t < INFINITY ==> n < magnitude((t + 1) as u64) * magnitude((t + 1) as u64),
    decreases hi,
{
    if magnitude(hi) * magnitude(hi) <= n {
        hi
    } else {
        assert(magnitude(0) == 0);
        assert(0 * 0 == 0);
        lemma_floor_root_pattern(n, (hi - 1) as u64)
    }
}

/// Every square root has a rounding.
pub proof fn lemma_nearest_root_exists(n: int) -> (t: u64)
    requires
        n >= 0,
    ensures
        nearest_root(n, t),
        t == rounded_root(n),
{
    let t0 = lemma_floor_root_pattern(n, INFINITY);
    let m0 = magnitude(t0) as int;
    if t0 > 0 {
        lemma_magnitude_increases((t0 - 1) as u64, t0);
        let c = twice_midpoint((t0 - 1) as u64) as int;
        assert(c * c < 4 * n) by (nonlinear_arith)
            requires
                0 <= c < 2 * m0,
                m0 * m0 <= n,
        ;
    }
    let t = if t0 == INFINITY {
        t0
    } else {
        let c = twice_midpoint(t0) as int;
        let m1 = magnitude((t0 + 1) as u64) as int;
        lemma_magnitude_increases((t0 + 1) as u64, (t0 + 2) as u64);
        let c1 = twice_midpoint((t0 + 1) as u64) as int;
        assert(4 * n < c1 * c1) by (nonlinear_arith)
            requires
                n < m1 * m1,
                0 <= 2 * m1 < c1,
        ;
        if 4 * n < c * c || (4 * n == c * c && t0 % 2 == 0) {
            t0
        } else {
            (t0 + 1) as u64
        }
    };
    lemma_rounded_root_is(n, t);
    t
}

} // verus!
