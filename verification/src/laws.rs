//! What holds of the arithmetic and of points, whatever the operands.
use vstd::prelude::*;
use vstd::arithmetic::power2::lemma_pow2_pos;
use crate::arith::{difference_of, product_of, quotient_of, root_of, same_number, sum_of};
use crate::format::{abs_bits, is_finite, is_infinite, is_nan, is_negative, is_zero,
    lemma_magnitude_increases, magnitude, negated, one_in_units, units, value, INFINITY,
    QUIET_NAN, SIGN};
use crate::point::{sum_of_squares, triple_difference, triple_distance, triple_equal,
    triple_product, triple_sum, Point3D, Triple};
use crate::rounding::{lemma_nearest_exact, lemma_nearest_exists, lemma_nearest_root_exists,
    lemma_rounded_is, rounded};

verus! {

/// A pattern is that of a number that is not negative, or is the NaN that
/// the operations return.
pub open spec fn is_plain(b: u64) -> bool {
    b <= INFINITY || b == QUIET_NAN
}

/// Every coordinate of the triple is finite.
pub open spec fn triple_finite(p: Triple) -> bool {
    is_finite(p.0) && is_finite(p.1) && is_finite(p.2)
}

/// No coordinate of the triple is a NaN.
pub open spec fn triple_numeric(p: Triple) -> bool {
    !is_nan(p.0) && !is_nan(p.1) && !is_nan(p.2)
}

/// A sum does not depend on the order of its operands.
pub proof fn lemma_sum_commutes(a: u64, b: u64)
    ensures
        sum_of(a, b) == sum_of(b, a),
{
}

/// A product does not depend on the order of its operands.
pub proof fn lemma_product_commutes(a: u64, b: u64)
    ensures
        product_of(a, b) == product_of(b, a),
{
    assert(units(a) * units(b) == units(b) * units(a)) by (nonlinear_arith);
}

/// Adding two points in either order gives the same coordinates, bit for
/// bit.
pub proof fn lemma_add_commutes(p: Point3D, q: Point3D)
    ensures
        triple_sum(p@, q@) == triple_sum(q@, p@),
{
    lemma_sum_commutes(p@.0, q@.0);
    lemma_sum_commutes(p@.1, q@.1);
    lemma_sum_commutes(p@.2, q@.2);
}

/// Multiplying two points in either order gives the same coordinates, bit
/// for bit.
pub proof fn lemma_mul_commutes(p: Point3D, q: Point3D)
    ensures
        triple_product(p@, q@) == triple_product(q@, p@),
{
    lemma_product_commutes(p@.0, q@.0);
    lemma_product_commutes(p@.1, q@.1);
    lemma_product_commutes(p@.2, q@.2);
}

/// Where no coordinate of the sum is a NaN, the sums in either order are
/// equal as points; likewise the products.
pub proof fn lemma_commuted_equal(p: Point3D, q: Point3D)
    ensures
        triple_numeric(triple_sum(p@, q@)) ==> triple_equal(
            triple_sum(p@, q@),
            triple_sum(q@, p@),
        ),
        triple_numeric(triple_product(p@, q@)) ==> triple_equal(
            triple_product(p@, q@),
            triple_product(q@, p@),
        ),
{
    lemma_add_commutes(p, q);
    lemma_mul_commutes(p, q);
}

/// A finite number minus itself is positive zero.
pub proof fn lemma_difference_of_self(a: u64)
    requires
        is_finite(a),
    ensures
        difference_of(a, a) == 0,
{
}

/// A point with finite coordinates minus itself is positive zero in every
/// coordinate.
pub proof fn lemma_sub_self(p: Point3D)
    requires
        triple_finite(p@),
    ensures
        triple_difference(p@, p@) == (0u64, 0u64, 0u64),
{
    lemma_difference_of_self(p@.0);
    lemma_difference_of_self(p@.1);
    lemma_difference_of_self(p@.2);
}

/// Zero rounds to zero.
proof fn lemma_rounded_zero(d: int)
    requires
        d > 0,
    ensures
        rounded(0, d) == 0,
{
    lemma_nearest_exact(0, d);
    assert(magnitude(0) == 0);
    assert(0 * d == 0);
    lemma_rounded_is(0, d, 0);
}

/// Equality of numbers does not depend on the order of its operands.
pub proof fn lemma_same_number_symmetric(a: u64, b: u64)
    ensures
        same_number(a, b) == same_number(b, a),
{
}

/// A pattern is the same number as itself unless it is a NaN.
pub proof fn lemma_same_number_reflexive(a: u64)
    ensures
        same_number(a, a) == !is_nan(a),
{
}

/// Two finite patterns of the same number differ by positive or negative
/// zero.
proof fn lemma_difference_of_same(a: u64, b: u64)
    requires
        same_number(a, b),
        is_finite(a),
    ensures
        is_zero(difference_of(a, b)),
{
    if abs_bits(a) < abs_bits(b) {
        lemma_magnitude_increases(abs_bits(a), abs_bits(b));
    }
    if abs_bits(b) < abs_bits(a) {
        lemma_magnitude_increases(abs_bits(b), abs_bits(a));
    }
}

/// The square of a zero of either sign is positive zero.
proof fn lemma_square_of_zero(d: u64)
    requires
        is_zero(d),
    ensures
        product_of(d, d) == 0,
{
    lemma_pow2_pos(1074);
    assert(magnitude(0) == 0);
    assert(units(d) * units(d) == 0) by (nonlinear_arith)
        requires
            units(d) == 0,
    ;
    lemma_rounded_zero(one_in_units());
}

/// The distance between two points that are equal and have finite
/// coordinates is positive zero.
pub proof fn lemma_distance_of_equal(p: Point3D, q: Point3D)
    requires
        triple_equal(p@, q@),
        triple_finite(p@),
    ensures
        triple_distance(p@, q@) == 0,
{
    lemma_difference_of_same(p@.0, q@.0);
    lemma_difference_of_same(p@.1, q@.1);
    lemma_difference_of_same(p@.2, q@.2);
    lemma_square_of_zero(difference_of(p@.0, q@.0));
    lemma_square_of_zero(difference_of(p@.1, q@.1));
    lemma_square_of_zero(difference_of(p@.2, q@.2));
}

/// The distance from a point with finite coordinates to itself is positive
/// zero.
pub proof fn lemma_distance_to_self(p: Point3D)
    requires
        triple_finite(p@),
    ensures
        triple_distance(p@, p@) == 0,
{
    lemma_distance_of_equal(p, p);
}

/// The two differences of a pair of numbers are both the NaN, or agree but
/// for the sign.
pub proof fn lemma_difference_mirrored(a: u64, b: u64)
    ensures
        difference_of(a, b) == QUIET_NAN && difference_of(b, a) == QUIET_NAN || {
            &&& abs_bits(difference_of(a, b)) == abs_bits(difference_of(b, a))
            &&& abs_bits(difference_of(a, b)) <= INFINITY
        },
{
    if !is_nan(a) && !is_nan(b) && is_finite(a) && is_finite(b) {
        let v = value(a) + value(negated(b));
        let w = value(b) + value(negated(a));
        assert(w == -v);
        if v > 0 {
            let t = lemma_nearest_exists(v, 1);
        } else if v < 0 {
            let t = lemma_nearest_exists(-v, 1);
        }
    }
}

/// A square depends on the magnitude alone, and is a number that is not
/// negative, or the NaN.
pub proof fn lemma_square_plain(c: u64, d: u64)
    requires
        abs_bits(c) == abs_bits(d),
    ensures
        product_of(c, c) == product_of(d, d),
        is_plain(product_of(d, d)),
        is_nan(d) <==> product_of(d, d) == QUIET_NAN,
        is_infinite(d) ==> product_of(d, d) == INFINITY,
{
    if is_finite(d) {
        lemma_pow2_pos(1074);
        assert(units(d) * units(d) >= 0) by (nonlinear_arith);
        let t = lemma_nearest_exists(units(d) * units(d), one_in_units());
    }
}

/// The sum of two numbers that are not negative is not negative; it is the
/// NaN just where an operand is, and infinite where an operand is and neither
/// is the NaN.
pub proof fn lemma_sum_plain(a: u64, b: u64)
    requires
        is_plain(a),
        is_plain(b),
    ensures
        is_plain(sum_of(a, b)),
        sum_of(a, b) == QUIET_NAN <==> a == QUIET_NAN || b == QUIET_NAN,
        (a == INFINITY || b == INFINITY) && a != QUIET_NAN && b != QUIET_NAN ==> sum_of(a, b)
            == INFINITY,
{
    if is_finite(a) && is_finite(b) {
        let v = value(a) + value(b);
        if v > 0 {
            let t = lemma_nearest_exists(v, 1);
        }
    }
}

/// The root of a number that is not negative is not negative; it is the NaN
/// just where the number is, and infinite just where the number is.
pub proof fn lemma_root_plain(a: u64)
    requires
        is_plain(a),
    ensures
        is_plain(root_of(a)),
        root_of(a) == QUIET_NAN <==> a == QUIET_NAN,
        a == INFINITY ==> root_of(a) == INFINITY,
{
    if is_finite(a) && !is_zero(a) {
        lemma_pow2_pos(1074);
        assert(units(a) * one_in_units() >= 0) by (nonlinear_arith)
            requires
                units(a) >= 0,
                one_in_units() > 0,
        ;
        let t = lemma_nearest_root_exists(units(a) * one_in_units());
    }
}

/// The distance is the same from either point to the other, bit for bit.
pub proof fn lemma_distance_symmetric(p: Point3D, q: Point3D)
    ensures
        triple_distance(p@, q@) == triple_distance(q@, p@),
{
    lemma_difference_mirrored(p@.0, q@.0);
    lemma_difference_mirrored(p@.1, q@.1);
    lemma_difference_mirrored(p@.2, q@.2);
    lemma_square_plain(difference_of(p@.0, q@.0), difference_of(q@.0, p@.0));
    lemma_square_plain(difference_of(p@.1, q@.1), difference_of(q@.1, p@.1));
    lemma_square_plain(difference_of(p@.2, q@.2), difference_of(q@.2, p@.2));
}

/// A distance is never negative: it is zero, a positive number, positive
/// infinity, or the NaN.
pub proof fn lemma_distance_plain(p: Triple, q: Triple)
    ensures
        is_plain(triple_distance(p, q)),
{
    let dx = difference_of(p.0, q.0);
    let dy = difference_of(p.1, q.1);
    let dz = difference_of(p.2, q.2);
    lemma_square_plain(dx, dx);
    lemma_square_plain(dy, dy);
    lemma_square_plain(dz, dz);
    lemma_sum_plain(product_of(dx, dx), product_of(dy, dy));
    lemma_sum_plain(sum_of(product_of(dx, dx), product_of(dy, dy)), product_of(dz, dz));
    lemma_root_plain(sum_of_squares(dx, dy, dz));
}

/// A difference is a NaN just where an operand is, or where both are the
/// same infinity.
pub proof fn lemma_difference_nan(a: u64, b: u64)
    ensures
        is_nan(difference_of(a, b)) <==> is_nan(a) || is_nan(b) || (is_infinite(a)
            && is_infinite(b) && is_negative(a) == is_negative(b)),
        is_nan(difference_of(a, b)) ==> difference_of(a, b) == QUIET_NAN,
{
    if is_finite(a) && is_finite(b) {
        let v = value(a) + value(negated(b));
        if v > 0 {
            let t = lemma_nearest_exists(v, 1);
        } else if v < 0 {
            let t = lemma_nearest_exists(-v, 1);
        }
    }
}

/// The distance is the NaN where a coordinate of either point is a NaN.
pub proof fn lemma_distance_nan(p: Point3D, q: Point3D)
    requires
        !triple_numeric(p@) || !triple_numeric(q@),
    ensures
        triple_distance(p@, q@) == QUIET_NAN,
{
    let dx = difference_of(p@.0, q@.0);
    let dy = difference_of(p@.1, q@.1);
    let dz = difference_of(p@.2, q@.2);
    lemma_difference_nan(p@.0, q@.0);
    lemma_difference_nan(p@.1, q@.1);
    lemma_difference_nan(p@.2, q@.2);
    lemma_square_plain(dx, dx);
    lemma_square_plain(dy, dy);
    lemma_square_plain(dz, dz);
    lemma_sum_plain(product_of(dx, dx), product_of(dy, dy));
    lemma_sum_plain(sum_of(product_of(dx, dx), product_of(dy, dy)), product_of(dz, dz));
    lemma_root_plain(sum_of_squares(dx, dy, dz));
}

/// The distance is positive infinity where the points differ infinitely in
/// a coordinate and no difference is a NaN.
pub proof fn lemma_distance_infinite(p: Point3D, q: Point3D)
    requires
        triple_numeric(triple_difference(p@, q@)),
        is_infinite(difference_of(p@.0, q@.0)) || is_infinite(difference_of(p@.1, q@.1))
            || is_infinite(difference_of(p@.2, q@.2)),
    ensures
        triple_distance(p@, q@) == INFINITY,
{
    let dx = difference_of(p@.0, q@.0);
    let dy = difference_of(p@.1, q@.1);
    let dz = difference_of(p@.2, q@.2);
    lemma_square_plain(dx, dx);
    lemma_square_plain(dy, dy);
    lemma_square_plain(dz, dz);
    lemma_sum_plain(product_of(dx, dx), product_of(dy, dy));
    lemma_sum_plain(sum_of(product_of(dx, dx), product_of(dy, dy)), product_of(dz, dz));
    lemma_root_plain(sum_of_squares(dx, dy, dz));
}

/// A finite number other than zero, divided by a zero, is the infinity whose
/// sign is negative where the signs of the two differ; zero by zero is the NaN.
pub proof fn lemma_division_by_zero(a: u64, b: u64)
    requires
        !is_nan(a),
        is_zero(b),
    ensures
        is_zero(a) ==> quotient_of(a, b) == QUIET_NAN,
        !is_zero(a) && !is_negative(a) && !is_negative(b) ==> quotient_of(a, b) == INFINITY,
        !is_zero(a) && is_negative(a) != is_negative(b) ==> quotient_of(a, b) == INFINITY + SIGN,
{
}

/// A pattern is that of a number, or is the NaN that the operations
/// return: no operation returns any other NaN.
pub open spec fn is_canonical(b: u64) -> bool {
    abs_bits(b) <= INFINITY || b == QUIET_NAN
}

/// Every sum and every difference is a number or the one NaN.
pub proof fn lemma_sum_canonical(a: u64, b: u64)
    ensures
        is_canonical(sum_of(a, b)),
        is_canonical(difference_of(a, b)),
{
    lemma_difference_nan(a, b);
    lemma_difference_nan(a, negated(b));
}

/// Every product is a number or the one NaN.
pub proof fn lemma_product_canonical(a: u64, b: u64)
    ensures
        is_canonical(product_of(a, b)),
{
    if is_finite(a) && is_finite(b) {
        lemma_pow2_pos(1074);
        assert(units(a) * units(b) >= 0) by (nonlinear_arith)
            requires
                units(a) >= 0,
                units(b) >= 0,
        ;
        let t = lemma_nearest_exists(units(a) * units(b), one_in_units());
    }
}

/// Every quotient is a number or the one NaN.
pub proof fn lemma_quotient_canonical(a: u64, b: u64)
    ensures
        is_canonical(quotient_of(a, b)),
{
    if is_finite(a) && is_finite(b) && !is_zero(b) {
        lemma_pow2_pos(1074);
        lemma_magnitude_increases(0, abs_bits(b));
        assert(units(a) * one_in_units() >= 0) by (nonlinear_arith)
            requires
                units(a) >= 0,
                one_in_units() > 0,
        ;
        let t = lemma_nearest_exists(units(a) * one_in_units(), units(b));
    }
}

/// Every square root is a number or the one NaN.
pub proof fn lemma_root_canonical(a: u64)
    ensures
        is_canonical(root_of(a)),
{
    if is_finite(a) && !is_zero(a) && !is_negative(a) {
        lemma_root_plain(a);
    }
}

/// A sum of two finite numbers that is itself a finite binary64 number is
/// returned exactly.
pub proof fn lemma_sum_exact(a: u64, b: u64, c: u64)
    requires
        is_finite(a),
        is_finite(b),
        is_finite(c),
        value(a) + value(b) == value(c),
        !is_zero(c),
    ensures
        sum_of(a, b) == c,
{
    lemma_nearest_exact(abs_bits(c), 1);
    assert(magnitude(abs_bits(c)) * 1 == units(c));
    lemma_rounded_is(units(c), 1, abs_bits(c));
    lemma_magnitude_increases(0, abs_bits(c));
}

} // verus!
