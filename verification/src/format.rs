//! The binary64 bit layout and the numbers that the bit patterns denote.
//!
//! A pattern has a sign bit, eleven exponent bits and fifty-two fraction bits.
//! Magnitudes are measured in units of 2^-1074, the smallest positive binary64
//! number, so that every finite number is an integer count of units.
use vstd::prelude::*;
use vstd::arithmetic::power2::{pow2, lemma_pow2_pos, lemma_pow2_strictly_increases,
    lemma_pow2_unfold, lemma2_to64};

verus! {

/// The sign bit.
pub const SIGN: u64 = 0x8000_0000_0000_0000;

/// The pattern of positive infinity: every exponent bit set, no fraction bit.
pub const INFINITY: u64 = 0x7ff0_0000_0000_0000;

/// The NaN that every operation of this library returns when its result is
/// not a number.
pub const QUIET_NAN: u64 = 0x7ff8_0000_0000_0000;

/// 2^52: the lowest exponent bit, and the implicit leading bit of a normal
/// significand.
pub const HIDDEN: u64 = 0x0010_0000_0000_0000;

/// The exponent by which the unit is smaller than one: one is 2^1074 units.
pub const UNIT_SHIFT: u32 = 1074;

pub open spec fn is_negative(b: u64) -> bool {
    b >= SIGN
}

/// The pattern with its sign bit cleared.
pub open spec fn abs_bits(b: u64) -> u64 {
    if b >= SIGN {
        (b - SIGN) as u64
    } else {
        b
    }
}

pub open spec fn is_nan(b: u64) -> bool {
    abs_bits(b) > INFINITY
}

pub open spec fn is_infinite(b: u64) -> bool {
    abs_bits(b) == INFINITY
}

pub open spec fn is_finite(b: u64) -> bool {
    abs_bits(b) < INFINITY
}

pub open spec fn is_zero(b: u64) -> bool {
    abs_bits(b) == 0
}

/// The pattern with its sign bit flipped.
pub open spec fn negated(b: u64) -> u64 {
    if b >= SIGN {
        (b - SIGN) as u64
    } else {
        (b + SIGN) as u64
    }
}

/// The pattern `t` with the sign bit set if `negative` holds; `t` has its
/// sign bit clear.
pub open spec fn with_sign(negative: bool, t: u64) -> u64 {
    if negative {
        (t + SIGN) as u64
    } else {
        t
    }
}

/// The magnitude, in units of 2^-1074, of the number whose pattern without
/// sign is `t`. Infinity counts as 2^1024, the number that would follow the
/// largest finite one if the exponent range went on.
pub open spec fn magnitude(t: u64) -> nat {
    let e = t / HIDDEN;
    let f = t % HIDDEN;
    if e == 0 {
        f as nat
    } else {
        ((HIDDEN + f) * pow2((e - 1) as nat)) as nat
    }
}

/// The magnitude of the number that a pattern denotes, whatever its sign.
pub open spec fn units(b: u64) -> int {
    magnitude(abs_bits(b)) as int
}

/// The number one, in units of 2^-1074.
pub open spec fn one_in_units() -> int {
    pow2(1074) as int
}

/// The number that a pattern other than a NaN denotes, in units of 2^-1074.
pub open spec fn value(b: u64) -> int {
    if is_negative(b) {
        -units(b)
    } else {
        units(b)
    }
}

/// A significand `m` at binade `u` packs into the pattern `u * 2^52 + m`; a
/// significand of 2^53 carries into the next binade.
pub proof fn lemma_magnitude_packed(u: nat, m: nat)
    requires
        u <= 2046,
        m <= 2 * HIDDEN,
        u > 0 ==> m >= HIDDEN,
    ensures
        u * HIDDEN + m <= u64::MAX,
        magnitude((u * HIDDEN + m) as u64) == m * pow2(u),
{
    let t = (u * HIDDEN + m) as u64;
    lemma2_to64();
    if m < HIDDEN {
        assert(t / HIDDEN == 0);
        assert(t % HIDDEN == m);
        assert(m * pow2(0) == m);
    } else if m < 2 * HIDDEN {
        assert(t == (u + 1) * HIDDEN + (m - HIDDEN));
        assert(t / HIDDEN == u + 1);
        assert(t % HIDDEN == m - HIDDEN);
    } else {
        assert(t == (u + 2) * HIDDEN);
        assert(t / HIDDEN == u + 2);
        assert(t % HIDDEN == 0);
        lemma_pow2_unfold(u + 1);
        assert(HIDDEN * (2 * pow2(u)) == (2 * HIDDEN) * pow2(u)) by (nonlinear_arith);
    }
}

/// Within the binade of `t` the magnitude is at least 2^52 times and less
/// than 2^53 times the binade's unit.
proof fn lemma_magnitude_bounds(t: u64)
    requires
        t >= HIDDEN,
    ensures
        HIDDEN * pow2((t / HIDDEN - 1) as nat) <= magnitude(t),
        magnitude(t) < 2 * HIDDEN * pow2((t / HIDDEN - 1) as nat),
{
    let p = pow2((t / HIDDEN - 1) as nat);
    let f = t % HIDDEN;
    lemma_pow2_pos((t / HIDDEN - 1) as nat);
    assert(HIDDEN * p <= (HIDDEN + f) * p && (HIDDEN + f) * p < 2 * HIDDEN * p)
        by (nonlinear_arith)
        requires
            0 <= f < HIDDEN,
            p > 0,
    ;
}

/// Patterns without sign are ordered as the magnitudes they denote.
pub proof fn lemma_magnitude_increases(t1: u64, t2: u64)
    requires
        t1 < t2,
    ensures
        magnitude(t1) < magnitude(t2),
{
    let e1 = t1 / HIDDEN;
    let e2 = t2 / HIDDEN;
    let f1 = t1 % HIDDEN;
    let f2 = t2 % HIDDEN;
    if e2 == 0 {
    } else if e1 == e2 {
        let p = pow2((e1 - 1) as nat);
        lemma_pow2_pos((e1 - 1) as nat);
        assert((HIDDEN + f1) * p < (HIDDEN + f2) * p) by (nonlinear_arith)
            requires
                f1 < f2,
                p > 0,
        ;
    } else if e1 == 0 {
        lemma_magnitude_bounds(t2);
        let p = pow2((e2 - 1) as nat);
        lemma_pow2_pos((e2 - 1) as nat);
        assert(HIDDEN * p >= HIDDEN) by (nonlinear_arith)
            requires
                p > 0,
        ;
    } else {
        lemma_magnitude_bounds(t1);
        lemma_magnitude_bounds(t2);
        let lower = pow2((e1 - 1) as nat);
        let upper = pow2((e2 - 1) as nat);
        if e1 < e2 - 1 {
            lemma_pow2_strictly_increases(e1 as nat, (e2 - 1) as nat);
        }
        lemma_pow2_unfold(e1 as nat);
        assert(2 * HIDDEN * lower <= HIDDEN * upper) by (nonlinear_arith)
            requires
                2 * lower <= upper,
        ;
    }
}

} // verus!
