//! Arithmetic on binary64 patterns: each operation returns the pattern of
//! the exact result rounded to nearest, ties to even, with the special
//! cases of IEEE 754 for zeros, infinities and NaNs.
use vstd::prelude::*;
use vstd::arithmetic::power2::{pow2, lemma_pow2_pos, lemma_pow2_adds, lemma2_to64,
    lemma2_to64_rest};
use crate::format::{abs_bits, is_infinite, is_nan, is_negative, is_zero,
    lemma_magnitude_increases, magnitude, negated, one_in_units, units,
    value, with_sign,
    HIDDEN, INFINITY, QUIET_NAN, SIGN};
use crate::pack::{bit_length, lemma_pow2_120, lemma_pow2_increases, lemma_scale_link,
    lemma_scale_positive, power_of_two, round_scaled, scale_down, scale_up};
use crate::rounding::{lemma_nearest_exact, lemma_nearest_inside, lemma_nearest_scales,
    lemma_rounded_is, lemma_rounded_root_is, nearest, nearest_root, nearest_within, rounded,
    rounded_root, twice_midpoint};

verus! {

/// The magnitude `m` with the sign that `negative` gives.
pub open spec fn signed(negative: bool, m: int) -> int {
    if negative {
        -m
    } else {
        m
    }
}

/// Whether the sign bit is set.
pub fn sign_of(b: u64) -> (negative: bool)
    ensures
        negative == is_negative(b),
{
    b >= SIGN
}

/// The pattern without its sign bit.
pub fn clear_sign(b: u64) -> (t: u64)
    ensures
        t == abs_bits(b),
{
    if b >= SIGN {
        b - SIGN
    } else {
        b
    }
}

/// The pattern `t`, which has no sign bit, with the sign that `negative` gives.
pub fn apply_sign(negative: bool, t: u64) -> (b: u64)
    requires
        t < SIGN,
    ensures
        b == with_sign(negative, t),
{
    if negative {
        t + SIGN
    } else {
        t
    }
}

/// The pattern of the number of opposite sign.
pub fn negate(b: u64) -> (r: u64)
    ensures
        r == negated(b),
{
    if b >= SIGN {
        b - SIGN
    } else {
        b + SIGN
    }
}

/// Binade and significand of a finite pattern without sign: the magnitude
/// is the significand times two to the binade.
pub fn unpack(t: u64) -> (r: (u64, u64))
    requires
        t < INFINITY,
    ensures
        r.0 <= 2045,
        r.1 < 2 * HIDDEN,
        r.0 > 0 ==> r.1 >= HIDDEN,
        t == 0 <==> r.1 == 0,
        magnitude(t) == r.1 * pow2(r.0 as nat),
{
    let e: u64 = t / HIDDEN;
    let f: u64 = t % HIDDEN;
    proof {
        lemma2_to64();
    }
    if e == 0 {
        (0, f)
    } else {
        (e - 1, f + HIDDEN)
    }
}

/// Two patterns denote the same number: neither is a NaN, and their values
/// agree. The two zeros are the same number; a NaN is not even itself.
pub open spec fn same_number(a: u64, b: u64) -> bool {
    !is_nan(a) && !is_nan(b) && value(a) == value(b)
}

/// IEEE 754 equality of two patterns.
pub fn equal(a: u64, b: u64) -> (r: bool)
    ensures
        r == same_number(a, b),
{
    let ta: u64 = clear_sign(a);
    let tb: u64 = clear_sign(b);
    if ta > INFINITY || tb > INFINITY {
        return false;
    }
    proof {
        if ta < tb {
            lemma_magnitude_increases(ta, tb);
        }
        if tb < ta {
            lemma_magnitude_increases(tb, ta);
        }
        if ta > 0 {
            lemma_magnitude_increases(0, ta);
        }
        assert(magnitude(0) == 0);
    }
    a == b || (ta == 0 && tb == 0)
}

/// The pattern of a sum of two finite numbers whose exact value is `v`
/// units. An exact zero is positive unless both numbers were negative.
pub open spec fn rounded_sum(v: int, both_negative: bool) -> u64 {
    if v == 0 {
        if both_negative {
            SIGN
        } else {
            0
        }
    } else if v > 0 {
        rounded(v, 1)
    } else {
        with_sign(true, rounded(-v, 1))
    }
}

/// The sum of two patterns. A NaN operand, or infinities of opposite sign,
/// give the NaN; an infinity otherwise gives itself; two finite numbers give
/// their exact sum, rounded.
pub open spec fn sum_of(a: u64, b: u64) -> u64 {
    if is_nan(a) || is_nan(b) {
        QUIET_NAN
    } else if is_infinite(a) {
        if is_infinite(b) && is_negative(a) != is_negative(b) {
            QUIET_NAN
        } else {
            a
        }
    } else if is_infinite(b) {
        b
    } else {
        rounded_sum(value(a) + value(b), is_negative(a) && is_negative(b))
    }
}

/// The pattern of `a - b`, which is `a + (-b)`.
pub open spec fn difference_of(a: u64, b: u64) -> u64 {
    sum_of(a, negated(b))
}

/// A rounding of the magnitude `x`, given the sign of the exact sum, is the
/// rounded sum.
proof fn lemma_signed_rounding(x: int, t: u64, negative: bool, both: bool)
    requires
        nearest(x, 1, t),
        x >= 0,
        x == 0 ==> negative == both,
    ensures
        t <= INFINITY,
        with_sign(negative, t) == rounded_sum(signed(negative, x), both),
{
    lemma_rounded_is(x, 1, t);
    if x == 0 {
        lemma_nearest_exact(0, 1);
        assert(magnitude(0) * 1 == 0);
        lemma_rounded_is(0, 1, 0);
    }
}

/// With the binades `diff` apart, the larger number counts in the smaller
/// one's unit.
proof fn lemma_aligned(mh: int, uh: nat, ul: nat, big: int)
    requires
        ul <= uh,
        big == mh * pow2((uh - ul) as nat),
    ensures
        mh * pow2(uh) == big * pow2(ul),
{
    lemma_pow2_adds((uh - ul) as nat, ul);
    let f = pow2((uh - ul) as nat);
    let g = pow2(ul);
    assert(mh * (f * g) == (mh * f) * g) by (nonlinear_arith);
}

/// More than sixty-four binades apart, the smaller number only decides on
/// which side of the larger one the sum lies.
proof fn lemma_far_sum(mh: int, uh: nat, ml: int, ul: nat, same: bool, m: int, t: u64)
    requires
        uh > ul + 64,
        HIDDEN <= mh < 2 * HIDDEN,
        0 < ml < 2 * HIDDEN,
        m == if same { 8 * mh } else { 8 * mh - 1 },
        nearest_within(
            m * scale_up(uh - 3),
            (m + 1) * scale_up(uh - 3),
            scale_down(uh - 3),
            t,
        ),
    ensures
        same ==> nearest(mh * pow2(uh) + ml * pow2(ul), 1, t),
        !same ==> nearest(mh * pow2(uh) - ml * pow2(ul), 1, t),
        mh * pow2(uh) - ml * pow2(ul) > 0,
{
    let w = pow2((uh - 3) as nat);
    let g = pow2(ul);
    lemma2_to64();
    lemma2_to64_rest();
    lemma_pow2_adds(3, (uh - 3) as nat);
    lemma_pow2_adds(53, ul);
    lemma_pow2_increases(53 + ul, (uh - 3) as nat);
    lemma_pow2_pos(ul);
    let y = ml * g;
    assert(0 < y < w) by (nonlinear_arith)
        requires
            y == ml * g,
            0 < ml < 2 * HIDDEN,
            g > 0,
            2 * HIDDEN * g <= w,
    ;
    let whole = mh * pow2(uh);
    assert(whole == 8 * mh * w) by (nonlinear_arith)
        requires
            whole == mh * pow2(uh),
            pow2(uh) == 8 * w,
    ;
    assert((8 * mh - 1) * w == 8 * mh * w - w && (8 * mh + 1) * w == 8 * mh * w + w)
        by (nonlinear_arith);
    assert(8 * mh * w - w > 0) by (nonlinear_arith)
        requires
            mh >= 1,
            w > 0,
    ;
    if same {
        lemma_nearest_inside(m * w, (m + 1) * w, 1, whole + y, 1, t);
    } else {
        lemma_nearest_inside(m * w, (m + 1) * w, 1, whole - y, 1, t);
    }
}

/// The sum of two finite numbers given by sign, binade and significand, the
/// first in a binade no lower than the second.
fn aligned_sum(nh: bool, uh: u64, mh: u64, nl: bool, ul: u64, ml: u64) -> (r: u64)
    requires
        ul <= uh <= 2045,
        mh < 2 * HIDDEN,
        ml < 2 * HIDDEN,
        uh > 0 ==> mh >= HIDDEN,
        ul > 0 ==> ml >= HIDDEN,
    ensures
        r == rounded_sum(
            signed(nh, mh * pow2(uh as nat)) + signed(nl, ml * pow2(ul as nat)),
            nh && nl,
        ),
{
    let diff: u64 = uh - ul;
    let ghost g = pow2(ul as nat) as int;
    let ghost whole = mh * pow2(uh as nat);
    let ghost part = ml * pow2(ul as nat);
    proof {
        lemma2_to64();
        lemma2_to64_rest();
        lemma_pow2_pos(ul as nat);
    }
    if diff <= 64 {
        let f: u128 = power_of_two(diff as u32);
        proof {
            lemma_pow2_increases(diff as nat, 64);
            assert(mh * f < 0x20_0000_0000_0000_0000_0000_0000_0000) by (nonlinear_arith)
                requires
                    mh < 0x20_0000_0000_0000,
                    f <= 0x1_0000_0000_0000_0000,
            ;
        }
        let big: u128 = (mh as u128) * f;
        let small: u128 = ml as u128;
        proof {
            lemma_aligned(mh as int, uh as nat, ul as nat, big as int);
            assert((big + small) * g == big * g + small * g && (big - small) * g == big * g
                - small * g && (small - big) * g == small * g - big * g) by (nonlinear_arith);
        }
        if nh == nl {
            let t: u64 = round_scaled(big + small, ul as i64, false);
            proof {
                lemma_signed_rounding((big + small) * g, t, nh, nh && nl);
            }
            apply_sign(nh, t)
        } else if big == small {
            0
        } else if big > small {
            let t: u64 = round_scaled(big - small, ul as i64, false);
            proof {
                assert((big - small) * g > 0) by (nonlinear_arith)
                    requires
                        big - small > 0,
                        g > 0,
                ;
                lemma_signed_rounding((big - small) * g, t, nh, nh && nl);
            }
            apply_sign(nh, t)
        } else {
            let t: u64 = round_scaled(small - big, ul as i64, false);
            proof {
                assert((small - big) * g > 0) by (nonlinear_arith)
                    requires
                        small - big > 0,
                        g > 0,
                ;
                lemma_signed_rounding((small - big) * g, t, nl, nh && nl);
            }
            apply_sign(nl, t)
        }
    } else if ml == 0 {
        let t: u64 = round_scaled(mh as u128, uh as i64, false);
        proof {
            assert(part == 0) by (nonlinear_arith)
                requires
                    part == ml * g,
                    ml == 0,
            ;
            lemma_pow2_pos(uh as nat);
            assert(whole > 0) by (nonlinear_arith)
                requires
                    whole == mh * pow2(uh as nat),
                    mh > 0,
                    pow2(uh as nat) > 0,
            ;
            lemma_signed_rounding(whole as int, t, nh, nh && nl);
        }
        apply_sign(nh, t)
    } else {
        let m: u128 = if nh == nl {
            8 * (mh as u128)
        } else {
            8 * (mh as u128) - 1
        };
        let t: u64 = round_scaled(m, uh as i64 - 3, true);
        proof {
            lemma_far_sum(mh as int, uh as nat, ml as int, ul as nat, nh == nl, m as int, t);
            if nh == nl {
                lemma_signed_rounding(whole + part, t, nh, nh && nl);
            } else {
                lemma_signed_rounding(whole - part, t, nh, nh && nl);
            }
        }
        apply_sign(nh, t)
    }
}

/// The sum of two numbers, rounded to nearest.
pub fn sum(a: u64, b: u64) -> (r: u64)
    ensures
        r == sum_of(a, b),
{
    let ta: u64 = clear_sign(a);
    let tb: u64 = clear_sign(b);
    let na: bool = sign_of(a);
    let nb: bool = sign_of(b);
    if ta > INFINITY || tb > INFINITY {
        return QUIET_NAN;
    }
    if ta == INFINITY {
        if tb == INFINITY && na != nb {
            return QUIET_NAN;
        }
        return a;
    }
    if tb == INFINITY {
        return b;
    }
    let (ua, ma): (u64, u64) = unpack(ta);
    let (ub, mb): (u64, u64) = unpack(tb);
    if ua >= ub {
        aligned_sum(na, ua, ma, nb, ub, mb)
    } else {
        aligned_sum(nb, ub, mb, na, ua, ma)
    }
}

/// The difference of two numbers, rounded to nearest.
pub fn difference(a: u64, b: u64) -> (r: u64)
    ensures
        r == difference_of(a, b),
{
    sum(a, negate(b))
}

/// The product of two patterns. A NaN operand, or zero times infinity, give
/// the NaN. Otherwise the sign is negative where the operands' signs differ,
/// and the magnitude is infinite where an operand is, else the exact product
/// rounded. A product of two counts of units is a count of squares of the unit,
/// hence the division by the 2^1074 units that make one.
pub open spec fn product_of(a: u64, b: u64) -> u64 {
    if is_nan(a) || is_nan(b) {
        QUIET_NAN
    } else if is_infinite(a) || is_infinite(b) {
        if is_zero(a) || is_zero(b) {
            QUIET_NAN
        } else {
            with_sign(is_negative(a) != is_negative(b), INFINITY)
        }
    } else {
        with_sign(
            is_negative(a) != is_negative(b),
            rounded(units(a) * units(b), one_in_units()),
        )
    }
}

/// The rounding of the product of two significands at the sum of their
/// binades is the rounding of the product of the two magnitudes.
proof fn lemma_product(ma: int, ua: nat, mb: int, ub: nat, t: u64)
    requires
        nearest(
            (ma * mb) * scale_up(ua + ub - 1074),
            scale_down(ua + ub - 1074),
            t,
        ),
    ensures
        nearest((ma * pow2(ua)) * (mb * pow2(ub)), pow2(1074) as int, t),
{
    let e = ua + ub - 1074;
    let m = ma * mb;
    let fa = pow2(ua) as int;
    let fb = pow2(ub) as int;
    let w = pow2(ua + ub) as int;
    let one = pow2(1074) as int;
    let up = scale_up(e);
    let down = scale_down(e);
    lemma_pow2_adds(ua, ub);
    lemma_pow2_pos(1074);
    lemma_pow2_pos(ua + ub);
    lemma_scale_positive(e);
    lemma_scale_link(ua + ub, e);
    assert((ua + ub - e) as nat == 1074);
    assert(w * down == one * up);
    assert((ma * fa) * (mb * fb) == m * w) by (nonlinear_arith)
        requires
            m == ma * mb,
            w == fa * fb,
    ;
    if e >= 0 {
        assert(w == one * up) by (nonlinear_arith)
            requires
                w * down == one * up,
                down == 1,
        ;
        lemma_nearest_scales(m * up, 1, one, t);
        assert((m * up) * one == m * w) by (nonlinear_arith)
            requires
                w == one * up,
        ;
    } else {
        assert(down * w == one && m * up == m) by (nonlinear_arith)
            requires
                w * down == one * up,
                up == 1,
        ;
        lemma_nearest_scales(m, down, w, t);
    }
}

/// The product of two numbers, rounded to nearest.
pub fn product(a: u64, b: u64) -> (r: u64)
    ensures
        r == product_of(a, b),
{
    let ta: u64 = clear_sign(a);
    let tb: u64 = clear_sign(b);
    let negative: bool = sign_of(a) != sign_of(b);
    if ta > INFINITY || tb > INFINITY {
        return QUIET_NAN;
    }
    if ta == INFINITY || tb == INFINITY {
        if ta == 0 || tb == 0 {
            return QUIET_NAN;
        }
        return apply_sign(negative, INFINITY);
    }
    let (ua, ma): (u64, u64) = unpack(ta);
    let (ub, mb): (u64, u64) = unpack(tb);
    proof {
        lemma_pow2_120();
        assert(ma * mb < 0x0100_0000_0000_0000_0000_0000_0000_0000) by (nonlinear_arith)
            requires
                ma < 0x20_0000_0000_0000,
                mb < 0x20_0000_0000_0000,
        ;
    }
    let m: u128 = (ma as u128) * (mb as u128);
    let e: i64 = (ua as i64) + (ub as i64) - 1074;
    let t: u64 = round_scaled(m, e, false);
    proof {
        lemma_product(ma as int, ua as nat, mb as int, ub as nat, t);
        lemma_pow2_pos(1074);
        lemma_rounded_is(units(a) * units(b), one_in_units(), t);
    }
    apply_sign(negative, t)
}

/// The quotient of two patterns. A NaN operand, zero by zero, or infinity by
/// infinity, give the NaN. Otherwise the sign is negative where the
/// operands' signs differ; an infinity divided, or a division by zero, gives
/// infinity; a division by infinity gives zero; two finite numbers give their
/// exact quotient, rounded. The quotient of two counts of units is a plain
/// number, hence the factor of the 2^1074 units that make one.
pub open spec fn quotient_of(a: u64, b: u64) -> u64 {
    if is_nan(a) || is_nan(b) {
        QUIET_NAN
    } else if is_infinite(a) {
        if is_infinite(b) {
            QUIET_NAN
        } else {
            with_sign(is_negative(a) != is_negative(b), INFINITY)
        }
    } else if is_infinite(b) {
        with_sign(is_negative(a) != is_negative(b), 0)
    } else if is_zero(b) {
        if is_zero(a) {
            QUIET_NAN
        } else {
            with_sign(is_negative(a) != is_negative(b), INFINITY)
        }
    } else {
        with_sign(
            is_negative(a) != is_negative(b),
            rounded(units(a) * one_in_units(), units(b)),
        )
    }
}

/// The rounding of a long quotient of the significands, with its remainder
/// as the sticky part, is the rounding of the quotient of the magnitudes.
proof fn lemma_quotient(ma: int, ua: nat, mb: int, ub: nat, j: nat, q: int, r: int, t: u64)
    requires
        ma > 0,
        mb > 0,
        ma * pow2(j + 64) == q * mb + r,
        0 <= r < mb,
        q >= 0,
        r == 0 ==> nearest(
            q * scale_up(ua + 1074 - (ub + j + 64)),
            scale_down(ua + 1074 - (ub + j + 64)),
            t,
        ),
        r != 0 ==> nearest_within(
            q * scale_up(ua + 1074 - (ub + j + 64)),
            (q + 1) * scale_up(ua + 1074 - (ub + j + 64)),
            scale_down(ua + 1074 - (ub + j + 64)),
            t,
        ),
    ensures
        nearest((ma * pow2(ua)) * pow2(1074), mb * pow2(ub), t),
{
    let e = ua + 1074 - (ub + j + 64);
    let up = scale_up(e);
    let down = scale_down(e);
    let g = pow2(ub) as int;
    let h = pow2(j + 64) as int;
    let fa = pow2(ua) as int;
    let one = pow2(1074) as int;
    let n = (ma * fa) * one;
    let d = mb * g;
    lemma_scale_positive(e);
    lemma_pow2_pos(ub);
    lemma_pow2_adds(ua, 1074);
    lemma_pow2_adds(ub, j + 64);
    lemma_scale_link(ua + 1074, e);
    assert(d > 0) by (nonlinear_arith)
        requires
            d == mb * g,
            mb > 0,
            g > 0,
    ;
    assert((ua + 1074 - e) as nat == ub + (j + 64));
    let k = (fa * one) * down;
    let gu = g * up;
    assert(k == (g * h) * up);
    // n * down is the long dividend, and q * up * d the part of it that the
    // quotient accounts for; they differ by the remainder
    assert(n * down == ma * k) by (nonlinear_arith)
        requires
            n == (ma * fa) * one,
            k == (fa * one) * down,
    ;
    assert(ma * k == (ma * h) * gu) by (nonlinear_arith)
        requires
            k == (g * h) * up,
            gu == g * up,
    ;
    assert((ma * h) * gu == (q * mb) * gu + r * gu) by (nonlinear_arith)
        requires
            ma * h == q * mb + r,
    ;
    assert((q * up) * d == (q * mb) * gu) by (nonlinear_arith)
        requires
            d == mb * g,
            gu == g * up,
    ;
    assert(((q + 1) * up) * d == (q * up) * d + mb * gu) by (nonlinear_arith)
        requires
            d == mb * g,
            gu == g * up,
    ;
    assert(n * down == (q * up) * d + r * gu);
    assert(gu > 0) by (nonlinear_arith)
        requires
            gu == g * up,
            g > 0,
            up > 0,
    ;
    if r == 0 {
        assert(r * gu == 0) by (nonlinear_arith)
            requires
                r == 0,
        ;
        lemma_nearest_scales(q * up, down, d, t);
        lemma_nearest_scales(n, d, down, t);
        assert(down * d == d * down) by (nonlinear_arith);
    } else {
        assert(0 < r * gu < mb * gu) by (nonlinear_arith)
            requires
                0 < r < mb,
                gu > 0,
        ;
        lemma_nearest_inside(q * up, (q + 1) * up, down, n, d, t);
    }
}

/// The quotient of two numbers, rounded to nearest.
pub fn quotient(a: u64, b: u64) -> (r: u64)
    ensures
        r == quotient_of(a, b),
{
    let ta: u64 = clear_sign(a);
    let tb: u64 = clear_sign(b);
    let negative: bool = sign_of(a) != sign_of(b);
    if ta > INFINITY || tb > INFINITY {
        return QUIET_NAN;
    }
    if ta == INFINITY {
        if tb == INFINITY {
            return QUIET_NAN;
        }
        return apply_sign(negative, INFINITY);
    }
    if tb == INFINITY {
        return apply_sign(negative, 0);
    }
    if tb == 0 {
        if ta == 0 {
            return QUIET_NAN;
        }
        return apply_sign(negative, INFINITY);
    }
    let (ua, ma): (u64, u64) = unpack(ta);
    let (ub, mb): (u64, u64) = unpack(tb);
    if ta == 0 {
        proof {
            lemma_magnitude_increases(0, tb);
            lemma_nearest_exact(0, units(b));
            assert(magnitude(0) == 0);
            assert(magnitude(0) * units(b) == 0 && units(a) * one_in_units() == 0)
                by (nonlinear_arith)
                requires
                    magnitude(0) == 0,
                    units(a) == 0,
            ;
            lemma_rounded_is(0, units(b), 0);
        }
        return apply_sign(negative, 0);
    }
    let la: u32 = bit_length(ma as u128);
    proof {
        lemma2_to64();
        lemma2_to64_rest();
        lemma_pow2_120();
        if la > 53 {
            lemma_pow2_increases(53, (la - 1) as nat);
        }
    }
    let j: u32 = 53 - la;
    let h: u128 = power_of_two(j + 64);
    proof {
        lemma_pow2_pos((j + 64) as nat);
        lemma_pow2_adds(la as nat, (j + 64) as nat);
        lemma_pow2_adds((la - 1) as nat, (j + 64) as nat);
        lemma_pow2_adds(53, 64);
        lemma_pow2_adds(52, 64);
        assert(pow2(116) <= ma * h < pow2(117)) by (nonlinear_arith)
            requires
                pow2((la - 1) as nat) <= ma < pow2(la as nat),
                pow2(la as nat) * h == pow2(117),
                pow2((la - 1) as nat) * h == pow2(116),
                h > 0,
        ;
        assert(pow2(117) == 0x20_0000_0000_0000 * 0x1_0000_0000_0000_0000);
        assert(pow2(116) == 0x10_0000_0000_0000 * 0x1_0000_0000_0000_0000);
    }
    let wide: u128 = (ma as u128) * h;
    let q: u128 = wide / (mb as u128);
    let rest: u128 = wide % (mb as u128);
    let e: i64 = (ua as i64) + 1074 - ((ub as i64) + (j as i64) + 64);
    proof {
        vstd::arithmetic::div_mod::lemma_fundamental_div_mod(wide as int, mb as int);
        assert(mb * q == q * mb) by (nonlinear_arith);
        assert(0x8000_0000_0000_0000 <= q <= wide) by (nonlinear_arith)
            requires
                wide == q * mb + rest,
                0 <= rest < mb,
                0 < mb < 0x20_0000_0000_0000,
                wide >= 0x10_0000_0000_0000 * 0x1_0000_0000_0000_0000,
                q >= 0,
        ;
    }
    let t: u64 = round_scaled(q, e, rest != 0);
    proof {
        lemma_quotient(ma as int, ua as nat, mb as int, ub as nat, j as nat, q as int,
            rest as int, t);
        lemma_magnitude_increases(0, tb);
        lemma_rounded_is(units(a) * one_in_units(), units(b), t);
    }
    apply_sign(negative, t)
}

/// The square root of a pattern. A NaN, or a negative number other than
/// zero, give the NaN; a zero of either sign and positive infinity give
/// themselves; a positive finite number gives its exact root, rounded. The
/// root of `m` units is the root of `m * 2^1074` in units.
pub open spec fn root_of(a: u64) -> u64 {
    if is_nan(a) {
        QUIET_NAN
    } else if is_zero(a) {
        a
    } else if is_negative(a) {
        QUIET_NAN
    } else if is_infinite(a) {
        a
    } else {
        rounded_root(units(a) * one_in_units())
    }
}

/// The integer part of the square root of `n`.
pub fn integer_root(n: u128) -> (q: u128)
    requires
        n < 0x4000_0000_0000_0000_0000_0000_0000_0000,
    ensures
        q * q <= n < (q + 1) * (q + 1),
        q < 0x8000_0000_0000_0000,
{
    let mut q: u128 = 0;
    let mut i: u32 = 63;
    proof {
        lemma2_to64();
        lemma2_to64_rest();
        assert(0x8000_0000_0000_0000 * 0x8000_0000_0000_0000
            == 0x4000_0000_0000_0000_0000_0000_0000_0000) by (nonlinear_arith);
    }
    while i > 0
        invariant
            i <= 63,
            q * q <= n,
            n < (q + pow2(i as nat)) * (q + pow2(i as nat)),
            q + pow2(i as nat) <= 0x8000_0000_0000_0000,
        decreases i,
    {
        proof {
            vstd::arithmetic::power2::lemma_pow2_unfold(i as nat);
            lemma_pow2_pos((i - 1) as nat);
        }
        i = i - 1;
        let half: u128 = power_of_two(i);
        let next: u128 = q + half;
        proof {
            assert(next * next < 0x4000_0000_0000_0000_0000_0000_0000_0000)
                by (nonlinear_arith)
                requires
                    0 <= next < 0x8000_0000_0000_0000,
            ;
        }
        if next * next <= n {
            q = next;
        }
    }
    proof {
        assert(q < 0x8000_0000_0000_0000);
    }
    q
}

/// The rounding of an integer root at half the exponent, with the defect of
/// the root as the sticky part, is the rounding of the root of the magnitude.
proof fn lemma_root(ma: int, ua: nat, j: nat, e: nat, q: int, t: u64)
    requires
        ua + 1074 == j + 2 * e,
        q >= 0,
        q * q <= ma * pow2(j) < (q + 1) * (q + 1),
        q * q == ma * pow2(j) ==> nearest(q * scale_up(e as int), scale_down(e as int), t),
        q * q != ma * pow2(j) ==> nearest_within(
            q * scale_up(e as int),
            (q + 1) * scale_up(e as int),
            scale_down(e as int),
            t,
        ),
    ensures
        nearest_root((ma * pow2(ua)) * pow2(1074), t),
{
    let w = pow2(e) as int;
    let wide = ma * pow2(j);
    let n = (ma * pow2(ua)) * pow2(1074);
    let x = q * w;
    let y = (q + 1) * w;
    lemma_pow2_pos(e);
    lemma_pow2_adds(ua, 1074);
    lemma_pow2_adds(e, e);
    lemma_pow2_adds(j, 2 * e);
    let fa = pow2(ua) as int;
    let one = pow2(1074) as int;
    let fj = pow2(j) as int;
    assert(n == wide * (w * w)) by (nonlinear_arith)
        requires
            n == (ma * fa) * one,
            wide == ma * fj,
            fa * one == fj * (w * w),
    ;
    assert(x * x == (q * q) * (w * w) && y * y == ((q + 1) * (q + 1)) * (w * w))
        by (nonlinear_arith)
        requires
            x == q * w,
            y == (q + 1) * w,
    ;
    assert(w * w > 0) by (nonlinear_arith)
        requires
            w > 0,
    ;
    assert(x * x <= n < y * y) by (nonlinear_arith)
        requires
            n == wide * (w * w),
            x * x == (q * q) * (w * w),
            y * y == ((q + 1) * (q + 1)) * (w * w),
            q * q <= wide < (q + 1) * (q + 1),
            w * w > 0,
    ;
    if q * q != wide {
        assert(x * x < n) by (nonlinear_arith)
            requires
                n == wide * (w * w),
                x * x == (q * q) * (w * w),
                q * q < wide,
                w * w > 0,
        ;
    }
    assert(x >= 0 && y >= 0) by (nonlinear_arith)
        requires
            x == q * w,
            y == (q + 1) * w,
            q >= 0,
            w > 0,
    ;
    if t > 0 {
        let c = twice_midpoint((t - 1) as u64) as int;
        assert(c * 1 == c);
        if q * q == wide {
            assert(c <= 2 * x ==> c * c <= 4 * (x * x)) by (nonlinear_arith)
                requires
                    c >= 0,
            ;
            assert(c < 2 * x ==> c * c < 4 * (x * x)) by (nonlinear_arith)
                requires
                    c >= 0,
            ;
        } else {
            assert(c * c <= 4 * (x * x)) by (nonlinear_arith)
                requires
                    0 <= c <= 2 * x,
            ;
        }
    }
    if t < INFINITY {
        let c = twice_midpoint(t) as int;
        assert(c * 1 == c);
        if q * q == wide {
            assert(2 * x <= c ==> 4 * (x * x) <= c * c) by (nonlinear_arith)
                requires
                    x >= 0,
            ;
            assert(2 * x < c ==> 4 * (x * x) < c * c) by (nonlinear_arith)
                requires
                    x >= 0,
            ;
        } else {
            assert(4 * (y * y) <= c * c) by (nonlinear_arith)
                requires
                    0 <= 2 * y <= c,
            ;
        }
    }
}

/// The square root of a number, rounded to nearest.
pub fn square_root(a: u64) -> (r: u64)
    ensures
        r == root_of(a),
{
    let ta: u64 = clear_sign(a);
    if ta > INFINITY {
        return QUIET_NAN;
    }
    if ta == 0 {
        return a;
    }
    if sign_of(a) {
        return QUIET_NAN;
    }
    if ta == INFINITY {
        return a;
    }
    let (ua, ma): (u64, u64) = unpack(ta);
    let la: u32 = bit_length(ma as u128);
    proof {
        lemma2_to64();
        lemma2_to64_rest();
        lemma_pow2_120();
        if la > 53 {
            lemma_pow2_increases(53, (la - 1) as nat);
        }
    }
    let j: u32 = if (ua + 1074 + (125 - la) as u64) % 2 == 1 {
        126 - la
    } else {
        125 - la
    };
    let h: u128 = power_of_two(j);
    proof {
        lemma_pow2_pos(j as nat);
        lemma_pow2_adds(la as nat, j as nat);
        lemma_pow2_adds((la - 1) as nat, j as nat);
        lemma_pow2_increases((la + j) as nat, 126);
        lemma_pow2_increases(124, (la - 1 + j) as nat);
        lemma_pow2_adds(62, 62);
        assert(pow2(124) <= ma * h < pow2(126)) by (nonlinear_arith)
            requires
                pow2((la - 1) as nat) <= ma < pow2(la as nat),
                pow2(la as nat) * h <= pow2(126),
                pow2((la - 1) as nat) * h >= pow2(124),
                h > 0,
        ;
    }
    let wide: u128 = (ma as u128) * h;
    let q: u128 = integer_root(wide);
    let e: i64 = ((ua as i64) + 1074 - (j as i64)) / 2;
    proof {
        assert(q >= 0x4000_0000_0000_0000) by (nonlinear_arith)
            requires
                wide < (q + 1) * (q + 1),
                wide >= 0x4000_0000_0000_0000 * 0x4000_0000_0000_0000,
                q >= 0,
        ;
    }
    let t: u64 = round_scaled(q, e, q * q != wide);
    proof {
        lemma_root(ma as int, ua as nat, j as nat, e as nat, q as int, t);
        lemma_rounded_root_is(units(a) * one_in_units(), t);
    }
    t
}

} // verus!
