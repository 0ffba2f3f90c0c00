//! Double precision arithmetic, held against that of the machine.
use base16::binary64::{tenths, Binary64};

fn b(x: f64) -> Binary64 {
    Binary64 { bits: x.to_bits() }
}

fn f(x: Binary64) -> f64 {
    f64::from_bits(x.bits)
}

/// A sequence of numbers of all sizes, of both signs.
struct Numbers(u64);

impl Numbers {
    fn bits(&mut self) -> u64 {
        self.0 ^= self.0 << 13;
        self.0 ^= self.0 >> 7;
        self.0 ^= self.0 << 17;
        self.0
    }

    /// A number with an exponent in the given range, and few or many digits.
    fn number(&mut self, low: i32, high: i32) -> f64 {
        let bits = self.bits();
        let span = (high - low) as u64;
        let exponent = low + (self.bits() % span) as i32;
        let mask = if bits % 3 == 0 { 0xffff_f000_0000_0000 } else { u64::MAX };
        let mantissa = self.bits() & mask & 0x000f_ffff_ffff_ffff;
        let sign = (bits >> 63) << 63;
        f64::from_bits(sign | (((exponent + 1023) as u64) << 52) | mantissa)
    }
}

#[test]
fn sums_and_differences_are_rounded_like_the_machine_does() {
    let mut numbers = Numbers(0x9e37_79b9_7f4a_7c15);
    for _ in 0..200_000 {
        let x = numbers.number(-60, 60);
        let y = numbers.number(-60, 60);
        assert_eq!(f(b(x).plus(b(y))), x + y, "{x:?} + {y:?}");
        assert_eq!(f(b(x).minus(b(y))), x - y, "{x:?} - {y:?}");
        let near = x * (1.0 + f64::EPSILON);
        assert_eq!(f(b(x).minus(b(near))), x - near);
    }
}

#[test]
fn small_numbers_lose_no_digits() {
    for (x, y) in [(5e-324, 5e-324), (2.2e-308, -2.1e-308), (1e-310, 3e-311), (0.0, -0.0)] {
        assert_eq!(f(b(x).plus(b(y))), x + y);
        assert_eq!(f(b(x).minus(b(y))), x - y);
        assert_eq!(f(b(x).times(b(y))), x * y);
    }
    assert_eq!(f(b(3e-200).times(b(-7e-120))), 3e-200 * -7e-120);
    assert_eq!(f(b(1e-323).divided_by(2)), 1e-323 / 2.0);
    assert_eq!(f(b(1.5e-323).divided_by(2)), 1.5e-323 / 2.0);
}

#[test]
fn products_are_rounded_like_the_machine_does() {
    let mut numbers = Numbers(0xdead_beef_cafe_f00d);
    for _ in 0..200_000 {
        let x = numbers.number(-200, 200);
        let y = numbers.number(-200, 200);
        assert_eq!(f(b(x).times(b(y))), x * y, "{x:?} * {y:?}");
    }
}

#[test]
fn quotients_are_rounded_like_the_machine_does() {
    let mut numbers = Numbers(0x1234_5678_9abc_def1);
    for n in 0..100_000 {
        let x = numbers.number(-100, 100);
        let d = (n % 255 + 1) as u8;
        assert_eq!(f(b(x).divided_by(d)), x / f64::from(d), "{x:?} / {d}");
    }
}

#[test]
fn fused_products_are_rounded_once() {
    let mut numbers = Numbers(0x0fed_cba9_8765_4321);
    for _ in 0..200_000 {
        let x = numbers.number(-40, 40);
        let y = numbers.number(-40, 40);
        let z = numbers.number(-80, 80);
        assert_eq!(f(b(x).mul_add(b(y), b(z))), x.mul_add(y, z), "{x:?} {y:?} {z:?}");
        let near = -(x * y);
        assert_eq!(f(b(x).mul_add(b(y), b(near))), x.mul_add(y, near));
    }
    assert_eq!(f(b(0.0).mul_add(b(3.0), b(-2.5))), -2.5);
    assert_eq!(f(b(5e-324).mul_add(b(0.5), b(5e-324))), 5e-324f64.mul_add(0.5, 5e-324));
}

#[test]
fn order_is_that_of_the_numbers() {
    let numbers = [-1e300, -2.5, -1.0, -5e-324, 0.0, 5e-324, 0.1, 1.0, 360.0, 1e300];
    for (i, &x) in numbers.iter().enumerate() {
        for (j, &y) in numbers.iter().enumerate() {
            assert_eq!(b(x).at_least(b(y)), x >= y);
            assert_eq!(b(x).order_key() < b(y).order_key(), i < j);
            assert_eq!(f(b(x).max(b(y))), x.max(y));
            assert_eq!(f(b(x).min(b(y))), x.min(y));
        }
    }
    assert!(b(-0.0).at_least(b(0.0)) && b(0.0).at_least(b(-0.0)));
    assert_eq!(b(-0.0).order_key(), 0);
    assert!(b(f64::INFINITY).at_least(b(f64::MAX)));
}

#[test]
fn only_numbers_are_finite() {
    assert!(b(0.0).is_finite() && b(f64::MAX).is_finite() && b(5e-324).is_finite());
    assert!(!b(f64::INFINITY).is_finite() && !b(f64::NEG_INFINITY).is_finite());
    assert!(!b(f64::NAN).is_finite());
}

#[test]
fn whole_numbers_and_tenths_are_those_of_literals() {
    for n in [0u16, 1, 2, 3, 10, 15, 60, 180, 255, 256, 360, 1000, 10000, 65535] {
        assert_eq!(f(Binary64::whole(n)), f64::from(n));
    }
    let literals = [0.1, 0.2, 0.3, 0.4, 0.5, 0.6, 0.7, 0.8, 0.9, 1.0, 1.1, 1.2, 1.3, 1.4, 1.5];
    for (i, &x) in literals.iter().enumerate() {
        assert_eq!(f(tenths(i as u16 + 1)), x);
    }
}

#[test]
fn truncation_drops_fractions_and_stays_in_range() {
    let mut numbers = Numbers(0x5555_aaaa_1234_0001);
    for _ in 0..50_000 {
        let x = numbers.number(-5, 70);
        assert_eq!(b(x).truncated(), x as i64, "{x:?}");
    }
    assert_eq!(b(-0.9).truncated(), 0);
    assert_eq!(b(1799999.9999).truncated(), 1799999);
    assert_eq!(b(1e300).truncated(), i64::MAX);
    assert_eq!(b(-1e300).truncated(), i64::MIN);
    assert_eq!(b(-9223372036854775808.0).truncated(), i64::MIN);
}

#[test]
fn channels_are_rounded_half_up_and_held_in_range() {
    let mut numbers = Numbers(0x7777_0000_1111_2223);
    for _ in 0..50_000 {
        let x = numbers.number(-10, 10);
        assert_eq!(b(x).channel(), x.round().min(255.0) as u8, "{x:?}");
    }
    for (x, n) in [(0.5, 1), (0.49999999999999994, 0), (254.5, 255), (127.5, 128), (-0.6, 0)] {
        assert_eq!(b(x).channel(), n);
    }
    assert_eq!(b(1e9).channel(), 255);
    assert_eq!(b(-0.0).channel(), 0);
}

#[test]
fn signs_are_turned_and_dropped() {
    assert_eq!(f(b(2.5).negated()), -2.5);
    assert_eq!(f(b(-2.5).negated()), 2.5);
    assert_eq!(f(b(-2.5).abs()), 2.5);
    assert_eq!(f(b(2.5).abs()), 2.5);
}
