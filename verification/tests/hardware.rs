//! The arithmetic on patterns against the machine's own binary64 arithmetic.
use raytracer::arith::{difference, equal, product, quotient, square_root, sum};
use raytracer::format::QUIET_NAN;

/// What the machine's result is as a pattern of the library: every NaN is
/// the one NaN that the library returns.
fn canonical(x: f64) -> u64 {
    let bits = x.to_bits();
    if bits & 0x7fff_ffff_ffff_ffff > 0x7ff0_0000_0000_0000 {
        QUIET_NAN
    } else {
        bits
    }
}

/// A fixed sequence of patterns that looks random (xorshift).
struct Patterns {
    state: u64,
}

impl Patterns {
    fn next(&mut self) -> u64 {
        self.state ^= self.state << 13;
        self.state ^= self.state >> 7;
        self.state ^= self.state << 17;
        self.state
    }

    /// A pattern whose exponent lies within `spread` of that of one.
    fn near_one(&mut self, spread: u64) -> u64 {
        let raw = self.next();
        let sign = raw & 0x8000_0000_0000_0000;
        let fraction = self.next() & 0x000f_ffff_ffff_ffff;
        let exponent = 1023 - spread + (raw >> 3) % (2 * spread + 1);
        sign | (exponent << 52) | fraction
    }
}

fn special_patterns() -> Vec<u64> {
    let magnitudes: Vec<u64> = vec![
        0x0000_0000_0000_0000, // zero
        0x0000_0000_0000_0001, // least subnormal
        0x0000_0000_0000_0002,
        0x0000_0000_0000_0003,
        0x0000_0000_8000_0000,
        0x0008_0000_0000_0000,
        0x000f_ffff_ffff_ffff, // greatest subnormal
        0x0010_0000_0000_0000, // least normal
        0x0010_0000_0000_0001,
        0x001f_ffff_ffff_ffff,
        0x0020_0000_0000_0000,
        0x1ff0_0000_0000_0000,
        0x1fff_ffff_ffff_ffff,
        0x2000_0000_0000_0000,
        0x3ca0_0000_0000_0000, // 2^-53
        0x3cb0_0000_0000_0000, // 2^-52
        0x3fd5_5555_5555_5555, // about a third
        0x3fe0_0000_0000_0000, // a half
        0x3fef_ffff_ffff_ffff,
        0x3ff0_0000_0000_0000, // one
        0x3ff0_0000_0000_0001,
        0x3ff8_0000_0000_0000, // one and a half
        0x4000_0000_0000_0000, // two
        0x4008_0000_0000_0000, // three
        0x4024_0000_0000_0000, // ten
        0x4330_0000_0000_0000, // 2^52
        0x4340_0000_0000_0000, // 2^53
        0x433f_ffff_ffff_ffff,
        0x4340_0000_0000_0001,
        0x5fe0_0000_0000_0000,
        0x5fef_ffff_ffff_ffff,
        0x5ff0_0000_0000_0000,
        0x7fd0_0000_0000_0000,
        0x7fe0_0000_0000_0000,
        0x7fef_ffff_ffff_fffe,
        0x7fef_ffff_ffff_ffff, // greatest finite
        0x7ff0_0000_0000_0000, // infinity
        0x7ff0_0000_0000_0001, // a signalling NaN
        0x7ff8_0000_0000_0000, // the quiet NaN
        0x7fff_ffff_ffff_ffff,
    ];
    let mut all = Vec::new();
    for m in magnitudes {
        all.push(m);
        all.push(m | 0x8000_0000_0000_0000);
    }
    all
}

fn check_pair(a: u64, b: u64) {
    let x = f64::from_bits(a);
    let y = f64::from_bits(b);
    assert_eq!(sum(a, b), canonical(x + y), "{:016x} + {:016x}", a, b);
    assert_eq!(difference(a, b), canonical(x - y), "{:016x} - {:016x}", a, b);
    assert_eq!(product(a, b), canonical(x * y), "{:016x} * {:016x}", a, b);
    assert_eq!(quotient(a, b), canonical(x / y), "{:016x} / {:016x}", a, b);
    assert_eq!(equal(a, b), x == y, "{:016x} == {:016x}", a, b);
}

fn check_one(a: u64) {
    let x = f64::from_bits(a);
    assert_eq!(square_root(a), canonical(x.sqrt()), "sqrt {:016x}", a);
}

#[test]
fn special_values_agree_with_the_machine() {
    let all = special_patterns();
    for &a in &all {
        check_one(a);
        for &b in &all {
            check_pair(a, b);
        }
    }
}

#[test]
fn arbitrary_patterns_agree_with_the_machine() {
    let mut source = Patterns { state: 0x2545_f491_4f6c_dd1d };
    for _ in 0..200_000 {
        let a = source.next();
        let b = source.next();
        check_pair(a, b);
        check_one(a);
    }
}

#[test]
fn patterns_of_like_size_agree_with_the_machine() {
    let mut source = Patterns { state: 0x9e37_79b9_7f4a_7c15 };
    for spread in [0u64, 1, 2, 30, 53, 54, 55, 64, 65, 66, 70, 600, 1022] {
        for _ in 0..20_000 {
            let a = source.near_one(spread);
            let b = source.near_one(spread);
            check_pair(a, b);
            check_one(a);
        }
    }
}

#[test]
fn small_patterns_agree_with_the_machine() {
    let mut source = Patterns { state: 0x1234_5678_9abc_def1 };
    for _ in 0..100_000 {
        let a = source.next() >> (source.next() % 64);
        let b = source.next() >> (source.next() % 64);
        check_pair(a, b);
        check_pair(a | 0x8000_0000_0000_0000, b);
        check_one(a);
    }
}

#[test]
fn neighbours_of_a_tie_agree_with_the_machine() {
    // sums and products that fall on or next to a midpoint
    let mut source = Patterns { state: 0x0bad_cafe_dead_beef };
    for _ in 0..50_000 {
        let a = source.near_one(3) & 0xffff_ffff_ffff_fff0;
        let low = source.near_one(3) & 0xfff0_0000_0000_0000;
        let shift = source.next() % 60;
        let b = (low & 0x8000_0000_0000_0000) | ((low & 0x7fff_ffff_ffff_ffff) - (shift << 52));
        check_pair(a, b);
        check_pair(a | 1, b);
        check_pair(a, b | 1);
    }
}
