//! Points built from floating-point numbers, and what the operations on them
//! return.
use raytracer::format::QUIET_NAN;
use raytracer::Point3D;

/// The point whose coordinates are the patterns of three numbers.
fn point(x: f64, y: f64, z: f64) -> Point3D {
    Point3D::new(x.to_bits(), y.to_bits(), z.to_bits())
}

fn x(p: &Point3D) -> f64 {
    f64::from_bits(p.x())
}

fn y(p: &Point3D) -> f64 {
    f64::from_bits(p.y())
}

fn z(p: &Point3D) -> f64 {
    f64::from_bits(p.z())
}

/// Two numbers differ by less than a millionth.
fn close(a: f64, b: f64) -> bool {
    (a - b).abs() < 1.0e-6
}

fn is_nan_pattern(b: u64) -> bool {
    b & 0x7fff_ffff_ffff_ffff > 0x7ff0_0000_0000_0000
}

/// A fixed sequence of patterns that looks random (xorshift).
struct Stream {
    state: u64,
}

impl Stream {
    fn next(&mut self) -> u64 {
        self.state ^= self.state << 13;
        self.state ^= self.state >> 7;
        self.state ^= self.state << 17;
        self.state
    }

    /// A finite number of moderate size.
    fn moderate(&mut self) -> f64 {
        let raw = self.next();
        let sign = raw & 0x8000_0000_0000_0000;
        let exponent = 1023 - 40 + (raw >> 5) % 81;
        let fraction = self.next() & 0x000f_ffff_ffff_ffff;
        f64::from_bits(sign | (exponent << 52) | fraction)
    }

    fn moderate_point(&mut self) -> Point3D {
        point(self.moderate(), self.moderate(), self.moderate())
    }

    fn any_point(&mut self) -> Point3D {
        Point3D::new(self.next(), self.next(), self.next())
    }
}

#[test]
fn test_gen() {
    let p = point(0.1, 0.2, 0.3);
    assert_eq!(x(&p), 0.1);
    assert_eq!(y(&p), 0.2);
    assert_eq!(z(&p), 0.3);

    let q = Point3D::new(0.2f64.to_bits(), 0.3f64.to_bits(), 0.4f64.to_bits());
    assert_eq!(x(&q), 0.2);
    assert_eq!(y(&q), 0.3);
    assert_eq!(z(&q), 0.4);
}

#[test]
fn test_add() {
    let p = point(0.1, 0.2, 0.3);
    let q = point(0.2, 0.3, 0.4);
    let r = p + q;
    assert!(close(x(&r), 0.3));
    assert!(close(y(&r), 0.5));
    assert!(close(z(&r), 0.7));
}

#[test]
fn test_sub() {
    let p = point(0.1, 0.2, 0.3);
    let q = point(0.2, 0.3, 0.4);
    let r = p - q;
    assert!(close(x(&r), -0.1));
    assert!(close(y(&r), -0.1));
    assert!(close(z(&r), -0.1));
}

#[test]
fn test_mul() {
    let p = point(0.1, 0.2, 0.3);
    let q = point(0.2, 0.3, 0.4);
    let r = p * q;
    assert!(close(x(&r), 0.02));
    assert!(close(y(&r), 0.06));
    assert!(close(z(&r), 0.12));
}

#[test]
fn test_div() {
    let p = point(0.1, 0.2, 0.3);
    let q = point(0.2, 0.3, 0.4);
    let r = p / q;
    assert!(close(x(&r), 0.5));
    assert!(close(y(&r), 0.6666666666666666));
    assert!(close(z(&r), 0.3 / 0.4));
}

#[test]
fn arithmetic_is_exact_to_the_last_bit() {
    let p = point(0.1, 0.2, 0.3);
    let q = point(0.2, 0.3, 0.4);
    let r = p + q;
    assert_eq!(r.x(), 0x3fd3_3333_3333_3334); // 0.30000000000000004
    assert_eq!(r.y(), 0x3fe0_0000_0000_0000); // 0.5
    assert_eq!(r.z(), 0x3fe6_6666_6666_6666); // 0.7
    let r = p - q;
    assert_eq!(r.x(), 0xbfb9_9999_9999_999a); // -0.1
    assert_eq!(r.y(), 0xbfb9_9999_9999_9998); // -0.09999999999999998
    assert_eq!(r.z(), 0xbfb9_9999_9999_999c); // -0.10000000000000003
    let r = p * q;
    assert_eq!(r.x(), 0x3f94_7ae1_47ae_147c); // 0.020000000000000004
    assert_eq!(r.y(), 0x3fae_b851_eb85_1eb8); // 0.06
    assert_eq!(r.z(), 0x3fbe_b851_eb85_1eb8); // 0.12
    let r = p / q;
    assert_eq!(r.x(), 0x3fe0_0000_0000_0000); // 0.5
    assert_eq!(r.y(), 0x3fe5_5555_5555_5556); // 0.6666666666666667
    assert_eq!(r.z(), 0x3fe7_ffff_ffff_ffff); // 0.7499999999999999
}

#[test]
fn coordinates_come_back_unchanged() {
    let patterns = [
        0u64,
        0x8000_0000_0000_0000,
        1,
        0x7ff0_0000_0000_0000,
        0xfff0_0000_0000_0000,
        0x7ff0_0000_0000_0001,
        0xffff_ffff_ffff_ffff,
        0x3ff0_0000_0000_0000,
    ];
    for &a in &patterns {
        for &b in &patterns {
            let p = Point3D::new(a, b, a ^ b);
            assert_eq!(p.x(), a);
            assert_eq!(p.y(), b);
            assert_eq!(p.z(), a ^ b);
        }
    }
    let mut source = Stream { state: 0x0123_4567_89ab_cdef };
    for _ in 0..1000 {
        let (a, b, c) = (source.next(), source.next(), source.next());
        let p = Point3D::new(a, b, c);
        assert_eq!((p.x(), p.y(), p.z()), (a, b, c));
    }
}

#[test]
fn a_copy_is_the_same_point() {
    let p = point(1.5, -2.25, 1.0e300);
    let q = p;
    let r = p.clone();
    assert_eq!((q.x(), q.y(), q.z()), (p.x(), p.y(), p.z()));
    assert_eq!((r.x(), r.y(), r.z()), (p.x(), p.y(), p.z()));
    assert!(format!("{:?}", p).contains("Point3D"));
}

#[test]
fn sums_and_products_commute() {
    let mut source = Stream { state: 0x5555_aaaa_3333_cccc };
    for _ in 0..20_000 {
        let p = source.any_point();
        let q = source.any_point();
        let (a, b) = (p + q, q + p);
        assert_eq!((a.x(), a.y(), a.z()), (b.x(), b.y(), b.z()));
        let (a, b) = (p * q, q * p);
        assert_eq!((a.x(), a.y(), a.z()), (b.x(), b.y(), b.z()));
    }
    let p = point(0.1, 0.2, 0.3);
    let q = point(0.2, 0.3, 0.4);
    assert!(p + q == q + p);
    assert!(p * q == q * p);
}

#[test]
fn a_sum_with_a_nan_is_not_equal_to_itself() {
    let p = point(f64::NAN, 0.0, 0.0);
    let q = point(1.0, 2.0, 3.0);
    assert_eq!((p + q).x(), QUIET_NAN);
    assert_eq!((q + p).x(), QUIET_NAN);
    assert!(!(p + q == q + p));
}

#[test]
fn a_finite_point_minus_itself_is_zero() {
    let mut source = Stream { state: 0x0f0f_f0f0_1234_4321 };
    for _ in 0..20_000 {
        let p = source.any_point();
        let finite = [p.x(), p.y(), p.z()]
            .iter()
            .all(|b| b & 0x7fff_ffff_ffff_ffff < 0x7ff0_0000_0000_0000);
        if finite {
            let r = p - p;
            assert_eq!((r.x(), r.y(), r.z()), (0, 0, 0));
        }
    }
    let p = point(-0.0, f64::MAX, -f64::MIN_POSITIVE);
    let r = p - p;
    assert_eq!((r.x(), r.y(), r.z()), (0, 0, 0));
}

#[test]
fn infinity_minus_itself_is_the_nan() {
    let p = point(f64::INFINITY, f64::NEG_INFINITY, 1.0);
    let r = p - p;
    assert_eq!((r.x(), r.y(), r.z()), (QUIET_NAN, QUIET_NAN, 0));
}

#[test]
fn division_by_zero_is_infinite() {
    let r = point(1.0, 1.0, 1.0) / point(0.0, 0.0, 0.0);
    assert_eq!(r.x(), 0x7ff0_0000_0000_0000);
    assert_eq!(r.y(), 0x7ff0_0000_0000_0000);
    assert_eq!(r.z(), 0x7ff0_0000_0000_0000);
    assert_eq!(x(&r), f64::INFINITY);

    let r = point(-1.0, 1.0, 0.0) / point(0.0, -0.0, 0.0);
    assert_eq!(r.x(), 0xfff0_0000_0000_0000);
    assert_eq!(r.y(), 0xfff0_0000_0000_0000);
    assert_eq!(r.z(), QUIET_NAN);

    let r = point(1.0, -1.0, f64::INFINITY) / point(f64::INFINITY, f64::INFINITY, f64::INFINITY);
    assert_eq!((r.x(), r.y(), r.z()), (0, 0x8000_0000_0000_0000, QUIET_NAN));
}

#[test]
fn the_product_is_componentwise() {
    // neither the dot product, a number, nor the cross product, which is zero
    // for a vector with itself
    let p = point(1.0, 2.0, 3.0);
    let r = p * p;
    assert_eq!((x(&r), y(&r), z(&r)), (1.0, 4.0, 9.0));
    let r = point(2.0, 3.0, 4.0) * point(5.0, 6.0, 7.0);
    assert_eq!((x(&r), y(&r), z(&r)), (10.0, 18.0, 28.0));
}

#[test]
fn operands_are_left_as_they_were() {
    let p = point(1.0, 2.0, 3.0);
    let q = point(4.0, 5.0, 6.0);
    let _ = p + q;
    let _ = p - q;
    let _ = p * q;
    let _ = p / q;
    let _ = p.distance(&q);
    assert_eq!((x(&p), y(&p), z(&p)), (1.0, 2.0, 3.0));
    assert_eq!((x(&q), y(&q), z(&q)), (4.0, 5.0, 6.0));
}

#[test]
fn equality_is_that_of_numbers() {
    let p = point(0.1, 0.2, 0.3);
    assert!(p == p);
    assert!(p == point(0.1, 0.2, 0.3));
    assert!(p != point(0.1, 0.2, 0.30000000000000004));
    assert!(p != point(0.1, 0.2000000000000001, 0.3));
    assert!(p != point(-0.1, 0.2, 0.3));
    // the two zeros are one number
    assert!(point(0.0, -0.0, 0.0) == point(-0.0, 0.0, -0.0));
    // a NaN equals nothing
    let n = point(f64::NAN, 0.0, 0.0);
    assert!(n != n);
    assert!(!(n == n));
    assert!(point(0.0, 0.0, f64::NAN) != point(0.0, 0.0, f64::NAN));
    // an infinity equals itself
    let i = point(f64::INFINITY, f64::NEG_INFINITY, 0.0);
    assert!(i == i);
    assert!(i != point(f64::INFINITY, f64::INFINITY, 0.0));
    // no tolerance: a sum that rounds is not the number written down
    assert!(point(0.1, 0.0, 0.0) + point(0.2, 0.0, 0.0) != point(0.3, 0.0, 0.0));
}

#[test]
fn equality_agrees_with_the_machine() {
    let mut source = Stream { state: 0x7777_1111_9999_3333 };
    for _ in 0..20_000 {
        let p = source.any_point();
        let q = if source.next() % 2 == 0 {
            p
        } else {
            Point3D::new(p.x() ^ (source.next() & 0x8000_0000_0000_0000), p.y(), p.z())
        };
        let expected = x(&p) == x(&q) && y(&p) == y(&q) && z(&p) == z(&q);
        assert_eq!(p == q, expected);
        assert_eq!(q == p, expected);
    }
}

#[test]
fn distance_of_a_right_triangle() {
    let d = point(0.0, 0.0, 0.0).distance(&point(3.0, 4.0, 0.0));
    assert_eq!(d, 5.0f64.to_bits());
    let d = point(1.0, 2.0, 3.0).distance(&point(4.0, 6.0, 3.0));
    assert_eq!(d, 5.0f64.to_bits());
    let d = point(1.0, 1.0, 1.0).distance(&point(2.0, 3.0, 3.0));
    assert_eq!(d, 3.0f64.to_bits());
    let d = point(0.0, 0.0, 0.0).distance(&point(1.0, 1.0, 1.0));
    assert_eq!(d, 0x3ffb_b67a_e858_4caa); // the root of three
    let d = point(0.1, 0.2, 0.3).distance(&point(0.2, 0.3, 0.4));
    assert_eq!(d, 0x3fc6_2b95_86ad_0a23); // 0.17320508075688776
}

#[test]
fn distance_to_itself_is_zero() {
    let mut source = Stream { state: 0x2468_ace0_1357_9bdf };
    for _ in 0..20_000 {
        let p = source.any_point();
        let finite = [p.x(), p.y(), p.z()]
            .iter()
            .all(|b| b & 0x7fff_ffff_ffff_ffff < 0x7ff0_0000_0000_0000);
        if finite {
            assert_eq!(p.distance(&p), 0);
        }
    }
    assert_eq!(point(0.1, 0.2, 0.3).distance(&point(0.1, 0.2, 0.3)), 0);
    assert_eq!(point(0.0, -0.0, 0.0).distance(&point(-0.0, 0.0, -0.0)), 0);
}

#[test]
fn distance_is_the_same_both_ways() {
    let mut source = Stream { state: 0xfeed_f00d_cafe_d00d };
    for _ in 0..20_000 {
        let p = source.any_point();
        let q = source.any_point();
        assert_eq!(p.distance(&q), q.distance(&p));
        let p = source.moderate_point();
        let q = source.moderate_point();
        assert_eq!(p.distance(&q), q.distance(&p));
    }
}

#[test]
fn distance_is_never_negative() {
    let mut source = Stream { state: 0x1111_2222_3333_4444 };
    for _ in 0..20_000 {
        let p = source.any_point();
        let q = source.any_point();
        let d = p.distance(&q);
        assert!(d <= 0x7ff0_0000_0000_0000 || d == QUIET_NAN);
        let p = source.moderate_point();
        let q = source.moderate_point();
        let d = p.distance(&q);
        assert!(d < 0x7ff0_0000_0000_0000);
    }
}

#[test]
fn distance_with_a_nan_is_the_nan() {
    let q = point(1.0, 2.0, 3.0);
    assert_eq!(point(f64::NAN, 0.0, 0.0).distance(&q), QUIET_NAN);
    assert_eq!(point(0.0, f64::NAN, 0.0).distance(&q), QUIET_NAN);
    assert_eq!(q.distance(&point(0.0, 0.0, f64::NAN)), QUIET_NAN);
    assert_eq!(
        point(f64::INFINITY, 0.0, 0.0).distance(&point(0.0, f64::NAN, 0.0)),
        QUIET_NAN
    );
    // the same infinity on both sides leaves no difference to measure
    assert_eq!(
        point(f64::INFINITY, 0.0, 0.0).distance(&point(f64::INFINITY, 0.0, 0.0)),
        QUIET_NAN
    );
}

#[test]
fn distance_over_an_infinite_difference_is_infinite() {
    let q = point(1.0, 2.0, 3.0);
    assert_eq!(point(f64::INFINITY, 0.0, 0.0).distance(&q), 0x7ff0_0000_0000_0000);
    assert_eq!(point(0.0, f64::NEG_INFINITY, 0.0).distance(&q), 0x7ff0_0000_0000_0000);
    assert_eq!(
        point(f64::INFINITY, 0.0, 0.0).distance(&point(f64::NEG_INFINITY, 0.0, 0.0)),
        0x7ff0_0000_0000_0000
    );
    // a finite difference whose square is too large
    assert_eq!(point(1.0e200, 0.0, 0.0).distance(&point(-1.0e200, 0.0, 0.0)), 0x7ff0_0000_0000_0000);
    // finite operands whose difference is too large
    assert_eq!(
        point(f64::MAX, 0.0, 0.0).distance(&point(-f64::MAX, 0.0, 0.0)),
        0x7ff0_0000_0000_0000
    );
}

#[test]
fn distance_between_close_points_can_vanish() {
    // the square of a difference this small is less than half the least
    // positive number
    let p = point(1.0e-200, 0.0, 0.0);
    let q = point(0.0, 0.0, 0.0);
    assert!(p != q);
    assert_eq!(p.distance(&q), 0);
}

#[test]
fn points_agree_with_the_machine() {
    let mut source = Stream { state: 0xabcd_ef01_2345_6789 };
    let same = |got: u64, expected: f64| {
        if is_nan_pattern(expected.to_bits()) {
            assert_eq!(got, QUIET_NAN);
        } else {
            assert_eq!(got, expected.to_bits());
        }
    };
    for round in 0..40_000 {
        let (p, q) = if round % 2 == 0 {
            (source.moderate_point(), source.moderate_point())
        } else {
            (source.any_point(), source.any_point())
        };
        let r = p + q;
        same(r.x(), x(&p) + x(&q));
        same(r.y(), y(&p) + y(&q));
        same(r.z(), z(&p) + z(&q));
        let r = p - q;
        same(r.x(), x(&p) - x(&q));
        same(r.y(), y(&p) - y(&q));
        same(r.z(), z(&p) - z(&q));
        let r = p * q;
        same(r.x(), x(&p) * x(&q));
        same(r.y(), y(&p) * y(&q));
        same(r.z(), z(&p) * z(&q));
        let r = p / q;
        same(r.x(), x(&p) / x(&q));
        same(r.y(), y(&p) / y(&q));
        same(r.z(), z(&p) / z(&q));
        let dx = x(&p) - x(&q);
        let dy = y(&p) - y(&q);
        let dz = z(&p) - z(&q);
        same(p.distance(&q), (dx * dx + dy * dy + dz * dz).sqrt());
    }
}
