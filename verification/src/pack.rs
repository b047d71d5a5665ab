//! From an exact magnitude, held as a significand and a binary exponent, to
//! the pattern it rounds to.
use vstd::prelude::*;
use vstd::arithmetic::power2::{pow2, lemma_pow2_pos, lemma_pow2_adds, lemma_pow2_unfold,
    lemma_pow2_strictly_increases, lemma2_to64, lemma2_to64_rest};
use vstd::arithmetic::div_mod::lemma_fundamental_div_mod;
use crate::format::{magnitude, lemma_magnitude_increases, lemma_magnitude_packed, HIDDEN, INFINITY};
use crate::rounding::{nearest, nearest_within, twice_midpoint, lemma_nearest_exact};

verus! {

/// 2^120: significands handed to the rounding stay below it.
pub const SIGNIFICAND_LIMIT: u128 = 0x0100_0000_0000_0000_0000_0000_0000_0000;

/// 2^54: a significand of an inexact magnitude is at least this, so that a
/// step of the significand is at most a quarter of the result's spacing.
pub const GUARDED: u128 = 0x0040_0000_0000_0000;

/// The factor by which the exponent `e` multiplies.
pub open spec fn scale_up(e: int) -> int {
    if e >= 0 {
        pow2(e as nat) as int
    } else {
        1
    }
}

/// The factor by which the exponent `e` divides.
pub open spec fn scale_down(e: int) -> int {
    if e < 0 {
        pow2((-e) as nat) as int
    } else {
        1
    }
}

/// The two powers of two beyond the sixty-fourth that bound the wide
/// significands.
pub proof fn lemma_pow2_120()
    ensures
        pow2(120) == SIGNIFICAND_LIMIT,
        pow2(126) == 0x4000_0000_0000_0000_0000_0000_0000_0000,
{
    lemma2_to64();
    lemma2_to64_rest();
    lemma_pow2_adds(60, 60);
    lemma_pow2_adds(63, 63);
    assert(0x1000000000000000 * 0x1000000000000000 == 0x0100_0000_0000_0000_0000_0000_0000_0000)
        by (nonlinear_arith);
    assert(0x8000000000000000 * 0x8000000000000000 == 0x4000_0000_0000_0000_0000_0000_0000_0000)
        by (nonlinear_arith);
}

/// Powers of two do not decrease with the exponent.
pub proof fn lemma_pow2_increases(a: nat, b: nat)
    requires
        a <= b,
    ensures
        pow2(a) <= pow2(b),
{
    if a < b {
        lemma_pow2_strictly_increases(a, b);
    }
}

/// 2^k as a machine integer.
pub fn power_of_two(k: u32) -> (p: u128)
    requires
        k <= 126,
    ensures
        p == pow2(k as nat),
{
    let mut p: u128 = 1;
    let mut i: u32 = 0;
    proof {
        lemma2_to64();
    }
    while i < k
        invariant
            i <= k <= 126,
            p == pow2(i as nat),
        decreases k - i,
    {
        proof {
            lemma_pow2_unfold((i + 1) as nat);
            lemma_pow2_increases((i + 1) as nat, 126);
            lemma_pow2_120();
        }
        p = p * 2;
        i = i + 1;
    }
    p
}

/// The number of bits of `m`: the least `len` with `m < 2^len`.
pub fn bit_length(m: u128) -> (len: u32)
    ensures
        len <= 128,
        m < pow2(len as nat),
        len > 0 ==> pow2((len - 1) as nat) <= m,
        m == 0 <==> len == 0,
{
    let mut len: u32 = 0;
    let mut rest: u128 = m;
    proof {
        lemma2_to64();
    }
    while rest > 0
        invariant
            len <= 128,
            rest * pow2(len as nat) <= m,
            m < (rest + 1) * pow2(len as nat),
            len > 0 ==> pow2((len - 1) as nat) <= m,
            len == 128 ==> rest == 0,
            m > 0 ==> rest > 0 || len > 0,
            m == 0 ==> len == 0,
        decreases rest,
    {
        let ghost p = pow2(len as nat);
        let ghost before = rest;
        proof {
            lemma_pow2_pos(len as nat);
            lemma_pow2_unfold((len + 1) as nat);
            assert(p <= m) by (nonlinear_arith)
                requires
                    before * p <= m,
                    before >= 1,
                    p >= 0,
            ;
            if len == 127 {
                lemma2_to64_rest();
                lemma_pow2_adds(63, 64);
                assert(0x8000000000000000 * 0x10000000000000000
                    == 0x8000_0000_0000_0000_0000_0000_0000_0000) by (nonlinear_arith);
                assert(before < 2) by (nonlinear_arith)
                    requires
                        before * p <= m,
                        p == 0x8000_0000_0000_0000_0000_0000_0000_0000,
                        m <= u128::MAX,
                ;
            }
        }
        rest = rest / 2;
        len = len + 1;
        proof {
            assert(rest * (2 * p) <= before * p && (before + 1) * p <= (rest + 1) * (2 * p))
                by (nonlinear_arith)
                requires
                    rest == before / 2,
                    p >= 0,
            ;
        }
    }
    proof {
        assert((rest + 1) * pow2(len as nat) == pow2(len as nat)) by (nonlinear_arith)
            requires
                rest == 0,
        ;
    }
    len
}

/// Both factors of a scaling are positive.
pub proof fn lemma_scale_positive(e: int)
    ensures
        scale_up(e) > 0,
        scale_down(e) > 0,
{
    if e >= 0 {
        lemma_pow2_pos(e as nat);
    } else {
        lemma_pow2_pos((-e) as nat);
    }
}

/// Two to the `u` is two to the `u - e` scaled by `e`.
pub proof fn lemma_scale_link(u: nat, e: int)
    requires
        u - e >= 0,
    ensures
        pow2(u) * scale_down(e) == pow2((u - e) as nat) * scale_up(e),
{
    if e >= 0 {
        lemma_pow2_adds((u - e) as nat, e as nat);
    } else {
        lemma_pow2_adds(u, (-e) as nat);
    }
}

/// What rounding down needs: with `m = q * p + r` and `r` at most half of `p`,
/// the magnitude `m * a` is no further from `q * x` than from `(q + 1) * x`,
/// where `x = p * a`.
proof fn lemma_split_low(m: int, q: int, r: int, p: int, a: int, x: int)
    by (nonlinear_arith)
    requires
        m == q * p + r,
        0 <= r,
        2 * r <= p,
        a > 0,
        q >= 0,
        x == p * a,
    ensures
        2 * q * x <= 2 * (m * a),
        2 * (m * a) <= (2 * q + 1) * x,
        2 * r < p ==> 2 * (m * a) < (2 * q + 1) * x,
        2 * r + 2 <= p ==> 2 * ((m + 1) * a) <= (2 * q + 1) * x,
{
    assert(m * a == q * x + r * a);
    assert(2 * r * a <= p * a);
    if 2 * r < p {
        assert(2 * r * a < p * a);
    }
    if 2 * r + 2 <= p {
        assert((2 * r + 2) * a <= p * a);
    }
}

/// What rounding up needs: with `m = q * p + r` and `r` at least half of `p`,
/// the magnitude `m * a` is no further from `(q + 1) * x` than from `q * x`.
proof fn lemma_split_high(m: int, q: int, r: int, p: int, a: int, x: int)
    by (nonlinear_arith)
    requires
        m == q * p + r,
        r < p,
        2 * r >= p,
        a > 0,
        q >= 0,
        x == p * a,
    ensures
        (2 * q + 1) * x <= 2 * (m * a),
        2 * r > p ==> (2 * q + 1) * x < 2 * (m * a),
        2 * (m * a) < 2 * (q + 1) * x,
        2 * ((m + 1) * a) <= 2 * (q + 1) * x,
{
    assert(m * a == q * x + r * a);
    assert(2 * r * a >= p * a);
    if 2 * r > p {
        assert(2 * r * a > p * a);
    }
    assert((r + 1) * a <= p * a);
}

/// The magnitudes around the pattern packed from binade `u` and significand
/// `q`, each multiplied by `d`, in terms of `x = 2^u * d`.
proof fn lemma_neighbours(u: nat, q: nat, d: int, x: int)
    requires
        u <= 2045,
        q < 2 * HIDDEN,
        u > 0 ==> q >= HIDDEN,
        d > 0,
        x == pow2(u) * d,
    ensures
        u * HIDDEN + q < INFINITY,
        twice_midpoint((u * HIDDEN + q) as u64) * d == (2 * q + 1) * x,
        u * HIDDEN + q > 0 ==> twice_midpoint((u * HIDDEN + q - 1) as u64) * d < 2 * q * x,
        twice_midpoint((u * HIDDEN + q + 1) as u64) * d > 2 * (q + 1) * x,
{
    let t0 = (u * HIDDEN + q) as u64;
    let w = pow2(u);
    lemma_magnitude_packed(u, q);
    lemma_magnitude_packed(u, q + 1);
    lemma_pow2_pos(u);
    assert(twice_midpoint(t0) == q * w + (q + 1) * w);
    assert((q * w + (q + 1) * w) * d == (2 * q + 1) * x) by (nonlinear_arith)
        requires
            x == w * d,
    ;
    if t0 > 0 {
        lemma_magnitude_increases((t0 - 1) as u64, t0);
        let c = twice_midpoint((t0 - 1) as u64);
        assert(c * d < 2 * q * x) by (nonlinear_arith)
            requires
                c < 2 * (q * w),
                x == w * d,
                d > 0,
        ;
    }
    lemma_magnitude_increases((t0 + 1) as u64, (t0 + 2) as u64);
    let c = twice_midpoint((t0 + 1) as u64);
    assert(c * d > 2 * (q + 1) * x) by (nonlinear_arith)
        requires
            c > 2 * ((q + 1) * w),
            x == w * d,
            d > 0,
    ;
}

/// Zero rounds to the zero pattern.
proof fn lemma_round_zero(e: int)
    ensures
        nearest(0 * scale_up(e), scale_down(e), 0),
{
    lemma_scale_positive(e);
    assert(0 * scale_up(e) == 0);
    assert(twice_midpoint(0) * scale_down(e) >= 0) by (nonlinear_arith)
        requires
            twice_midpoint(0) >= 0,
            scale_down(e) > 0,
    ;
}

/// A magnitude of at least 2^1024 rounds to infinity.
proof fn lemma_round_overflow(m: int, len: nat, e: int)
    requires
        len >= 1,
        pow2((len - 1) as nat) <= m,
        e >= 0,
        len - 1 + e >= 2098,
    ensures
        nearest(m * scale_up(e), scale_down(e), INFINITY),
        nearest_within(m * scale_up(e), (m + 1) * scale_up(e), scale_down(e), INFINITY),
{
    let a = scale_up(e);
    let top = pow2(2098);
    lemma2_to64_rest();
    lemma_magnitude_packed(2046, HIDDEN as nat);
    lemma_pow2_adds(52, 2046);
    assert(magnitude(INFINITY) == top);
    lemma_magnitude_increases((INFINITY - 1) as u64, INFINITY);
    lemma_pow2_adds((len - 1) as nat, e as nat);
    lemma_pow2_increases(2098, (len - 1 + e) as nat);
    lemma_pow2_pos(e as nat);
    let low = pow2((len - 1) as nat);
    assert(m * a >= top) by (nonlinear_arith)
        requires
            m >= low,
            low * a >= top,
            a > 0,
    ;
    let c = twice_midpoint((INFINITY - 1) as u64);
    assert(c * 1 < 2 * (m * a)) by (nonlinear_arith)
        requires
            c < 2 * top,
            m * a >= top,
    ;
}

/// A magnitude below half the unit rounds to zero.
proof fn lemma_round_tiny(m: int, e: int)
    requires
        0 <= m < SIGNIFICAND_LIMIT,
        e < -120,
    ensures
        nearest(m * scale_up(e), scale_down(e), 0),
        nearest_within(m * scale_up(e), (m + 1) * scale_up(e), scale_down(e), 0),
{
    let d = scale_down(e);
    lemma_pow2_120();
    lemma_pow2_increases(121, (-e) as nat);
    lemma_pow2_unfold(121);
    assert(magnitude(0) == 0);
    assert(magnitude(1) == 1);
    assert(twice_midpoint(0) * d == d) by (nonlinear_arith)
        requires
            twice_midpoint(0) == 1,
    ;
    assert(m * 1 == m && (m + 1) * 1 == m + 1);
}

/// A magnitude that fits a significand of at most fifty-three bits at the
/// binade `u` rounds to the pattern packed from the two.
proof fn lemma_round_exact(m: int, len: nat, e: int, u: nat, f: int)
    requires
        len >= 1,
        pow2((len - 1) as nat) <= m < pow2(len),
        u <= 2045,
        u == if len - 1 + e > 52 { len - 1 + e - 52 } else { 0 },
        e >= u,
        f == pow2((e - u) as nat),
    ensures
        m * f < 2 * HIDDEN,
        u * HIDDEN + m * f < INFINITY,
        nearest(m * scale_up(e), scale_down(e), (u * HIDDEN + m * f) as u64),
{
    let a = scale_up(e);
    let low = pow2((len - 1) as nat);
    let high = pow2(len);
    let up = (e - u) as nat;
    lemma2_to64_rest();
    lemma_pow2_pos(up);
    lemma_pow2_pos((len - 1) as nat);
    lemma_pow2_adds(len, up);
    lemma_pow2_increases(len + up, 53);
    assert(0 < m * f < pow2(53)) by (nonlinear_arith)
        requires
            0 < m < high,
            high * f <= pow2(53),
            f > 0,
    ;
    if u > 0 {
        lemma_pow2_adds((len - 1) as nat, up);
        assert(m * f >= pow2(52)) by (nonlinear_arith)
            requires
                m >= low,
                low * f == pow2(52),
                f > 0,
        ;
    }
    let big = m * f;
    let t = (u * HIDDEN + big) as u64;
    lemma_magnitude_packed(u, big as nat);
    lemma_pow2_adds(up, u);
    assert(magnitude(t) == m * a) by (nonlinear_arith)
        requires
            magnitude(t) == big * pow2(u),
            big == m * f,
            a == f * pow2(u),
    ;
    lemma_nearest_exact(t, 1);
    assert(magnitude(t) * 1 == magnitude(t));
}

/// The significand left after a shift by `s` has at most fifty-three bits,
/// and exactly fifty-three above the lowest binade.
proof fn lemma_quotient_bounds(m: int, len: nat, s: nat, u: nat, q: int, r: int)
    requires
        len >= 1,
        pow2((len - 1) as nat) <= m < pow2(len),
        u > 0 ==> s + 53 == len,
        u == 0 ==> len <= s + 53,
        m == q * pow2(s) + r,
        0 <= r < pow2(s),
    ensures
        0 <= q < 2 * HIDDEN,
        u > 0 ==> q >= HIDDEN,
{
    let p = pow2(s);
    let low = pow2((len - 1) as nat);
    let high = pow2(len);
    lemma2_to64_rest();
    lemma_pow2_pos(s);
    lemma_pow2_pos((len - 1) as nat);
    lemma_pow2_adds(s, 53);
    lemma_pow2_increases(len, s + 53);
    assert(0 <= q < 2 * HIDDEN) by (nonlinear_arith)
        requires
            m == q * p + r,
            0 <= r < p,
            0 < m < high,
            high <= p * (2 * HIDDEN),
    ;
    if u > 0 {
        lemma_pow2_adds(s, 52);
        assert(HIDDEN <= q) by (nonlinear_arith)
            requires
                m == q * p + r,
                0 <= r < p,
                low <= m,
                low == p * HIDDEN,
        ;
    }
}

/// Rounding down: the remainder is at most half the divisor and, where it
/// is exactly half, the significand kept is even.
proof fn lemma_round_down(m: int, e: int, s: nat, u: nat, q: int, r: int)
    requires
        u <= 2045,
        s == u - e,
        0 <= q < 2 * HIDDEN,
        u > 0 ==> q >= HIDDEN,
        m == q * pow2(s) + r,
        0 <= r,
        2 * r <= pow2(s),
    ensures
        u * HIDDEN + q < INFINITY,
        (2 * r < pow2(s) || q % 2 == 0) ==> nearest(
            m * scale_up(e),
            scale_down(e),
            (u * HIDDEN + q) as u64,
        ),
        2 * r + 2 <= pow2(s) ==> nearest_within(
            m * scale_up(e),
            (m + 1) * scale_up(e),
            scale_down(e),
            (u * HIDDEN + q) as u64,
        ),
{
    let a = scale_up(e);
    let d = scale_down(e);
    let p = pow2(s) as int;
    lemma_scale_positive(e);
    lemma_scale_link(u, e);
    lemma_neighbours(u, q as nat, d, p * a);
    lemma_split_low(m, q, r, p, a, p * a);
}

/// Rounding up: the remainder is at least half the divisor and, where it is
/// exactly half, the significand left behind is odd.
proof fn lemma_round_up(m: int, e: int, s: nat, u: nat, q: int, r: int)
    requires
        u <= 2045,
        s == u - e,
        0 <= q < 2 * HIDDEN,
        u > 0 ==> q >= HIDDEN,
        m == q * pow2(s) + r,
        r < pow2(s),
        2 * r >= pow2(s),
    ensures
        u * HIDDEN + q + 1 <= INFINITY,
        (2 * r > pow2(s) || q % 2 == 1) ==> nearest(
            m * scale_up(e),
            scale_down(e),
            (u * HIDDEN + q + 1) as u64,
        ),
        nearest_within(
            m * scale_up(e),
            (m + 1) * scale_up(e),
            scale_down(e),
            (u * HIDDEN + q + 1) as u64,
        ),
{
    let a = scale_up(e);
    let d = scale_down(e);
    let p = pow2(s) as int;
    lemma_scale_positive(e);
    lemma_scale_link(u, e);
    lemma_neighbours(u, q as nat, d, p * a);
    lemma_split_high(m, q, r, p, a, p * a);
}

/// The pattern, without sign, that the magnitude `m * 2^e` rounds to. With
/// `sticky` the magnitude is not `m * 2^e` itself but some number strictly
/// between it and `(m + 1) * 2^e`, and the pattern is the rounding of every
/// such number. The bounds on `m` and `e` keep the work within machine
/// integers; they are far wider than any binary64 operation needs.
pub fn round_scaled(m: u128, e: i64, sticky: bool) -> (t: u64)
    requires
        m < SIGNIFICAND_LIMIT,
        -8192 <= e <= 8192,
        sticky ==> m >= GUARDED,
    ensures
        !sticky ==> nearest(m * scale_up(e as int), scale_down(e as int), t),
        sticky ==> nearest_within(
            m * scale_up(e as int),
            (m + 1) * scale_up(e as int),
            scale_down(e as int),
            t,
        ),
{
    if m == 0 {
        proof {
            lemma_round_zero(e as int);
        }
        return 0;
    }
    let len: u32 = bit_length(m);
    proof {
        lemma_pow2_120();
        lemma2_to64_rest();
        if len > 120 {
            lemma_pow2_increases(120, (len - 1) as nat);
        }
        if len < 55 {
            lemma_pow2_increases(len as nat, 54);
        }
    }
    let k: i64 = (len as i64) - 1 + e;
    let u: i64 = if k > 52 {
        k - 52
    } else {
        0
    };
    if u >= 2046 {
        proof {
            lemma_round_overflow(m as int, len as nat, e as int);
        }
        return INFINITY;
    }
    let s: i64 = u - e;
    if s <= 0 {
        let f: u128 = power_of_two((0 - s) as u32);
        proof {
            lemma_round_exact(m as int, len as nat, e as int, u as nat, f as int);
        }
        let big: u128 = m * f;
        return (u as u64) * HIDDEN + (big as u64);
    }
    if s > 120 {
        proof {
            lemma_round_tiny(m as int, e as int);
        }
        return 0;
    }
    let p: u128 = power_of_two(s as u32);
    proof {
        lemma_pow2_pos(s as nat);
        lemma_pow2_unfold(s as nat);
    }
    let q: u128 = m / p;
    let r: u128 = m % p;
    let half: u128 = p / 2;
    proof {
        lemma_fundamental_div_mod(m as int, p as int);
        assert(p * q == q * p) by (nonlinear_arith);
        lemma_quotient_bounds(m as int, len as nat, s as nat, u as nat, q as int, r as int);
    }
    let t0: u64 = (u as u64) * HIDDEN + (q as u64);
    if r > half || (r == half && (sticky || q % 2 == 1)) {
        proof {
            lemma_round_up(m as int, e as int, s as nat, u as nat, q as int, r as int);
        }
        t0 + 1
    } else {
        proof {
            lemma_round_down(m as int, e as int, s as nat, u as nat, q as int, r as int);
        }
        t0
    }
}

} // verus!
