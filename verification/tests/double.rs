//! Binary64 numbers, held against the machine's own.

use hls_probe::double::{push_integer, Double};

fn of(x: f64) -> Double {
    Double { bits: x.to_bits() }
}

fn same(a: Double, b: f64) -> bool {
    let a = f64::from_bits(a.bits);
    (a.is_nan() && b.is_nan()) || a.to_bits() == b.to_bits()
}

struct Numbers {
    state: u64,
}

impl Numbers {
    fn next(&mut self) -> u64 {
        self.state = self.state.wrapping_mul(6364136223846793005).wrapping_add(1442695040888963407);
        let x = self.state;
        (x ^ (x >> 31)).wrapping_mul(0x9e37_79b9_7f4a_7c15) ^ (x >> 17)
    }
}

/// Special values, values of everyday size, and patterns at random.
fn samples() -> Vec<f64> {
    let mut list = vec![
        0.0,
        -0.0,
        1.0,
        -1.0,
        0.1,
        0.5,
        1.5,
        2.5,
        1e-9,
        1000.0,
        9007199254740991.0,
        9007199254740992.0,
        9007199254740994.0,
        1e16,
        1.8446744073709552e19,
        f64::MAX,
        f64::MIN,
        f64::MIN_POSITIVE,
        5e-324,
        1.1125369292536007e-308,
        f64::INFINITY,
        f64::NEG_INFINITY,
        f64::NAN,
        f64::EPSILON,
    ];
    let mut numbers = Numbers { state: 42 };
    for _ in 0..250 {
        let x = numbers.next();
        list.push((x >> 40) as f64 / 1000.0);
        list.push(-((x >> 50) as f64) / 7.0);
        list.push((x >> 11) as f64);
        list.push(f64::from_bits(x));
        // Patterns of nearly the same size, and of small ones.
        list.push(f64::from_bits(0x4000_0000_0000_0000 + (x >> 8) % (1 << 56)));
        list.push(f64::from_bits((x >> 11) % (1 << 54)));
    }
    list
}

#[test]
fn arithmetic_agrees_bit_for_bit() {
    let list = samples();
    for &a in &list {
        for &b in list.iter().step_by(3) {
            assert!(same(of(a).plus(of(b)), a + b), "{a:e} + {b:e}");
            assert!(same(of(a).minus(of(b)), a - b), "{a:e} - {b:e}");
            assert!(same(of(a).times(of(b)), a * b), "{a:e} * {b:e}");
            assert!(same(of(a).over(of(b)), a / b), "{a:e} / {b:e}");
        }
    }
}

#[test]
fn neighbours_agree_bit_for_bit() {
    let mut numbers = Numbers { state: 7 };
    for _ in 0..60_000 {
        let x = numbers.next();
        let y = numbers.next();
        let a = f64::from_bits(x);
        let shift = y % 130;
        let exponent = ((x >> 52) & 0x7ff).saturating_sub(shift);
        let b = f64::from_bits((exponent << 52) | (y >> 12));
        assert!(same(of(a).plus(of(b)), a + b), "{a:e} + {b:e}");
        assert!(same(of(a).minus(of(b)), a - b), "{a:e} - {b:e}");
        assert!(same(of(b).minus(of(a)), b - a), "{b:e} - {a:e}");
        assert!(same(of(a).over(of(b)), a / b), "{a:e} / {b:e}");
    }
}

#[test]
fn order_agrees() {
    let list = samples();
    for &a in &list {
        for &b in list.iter().step_by(5) {
            assert_eq!(of(a).less_than(of(b)), a < b, "{a:e} {b:e}");
            if a != b {
                assert!(same(of(a).max(of(b)), a.max(b)), "{a:e} {b:e}");
                assert!(same(of(a).min(of(b)), a.min(b)), "{a:e} {b:e}");
            }
        }
        assert!(same(of(a).abs(), a.abs()));
        assert!(same(of(a).neg(), -a));
        assert!(same(of(a).rounded(), a.round()), "{a:e}");
        assert_eq!(of(a).is_nan(), a.is_nan());
    }
}

#[test]
fn conversions_agree() {
    let mut numbers = Numbers { state: 3 };
    let mut list = vec![0u64, 1, u64::MAX, 1 << 53, (1 << 53) + 1, (1 << 53) + 3, 1 << 63];
    for _ in 0..20_000 {
        let x = numbers.next();
        list.push(x >> (x % 64));
    }
    for n in list {
        assert!(same(Double::from_u64(n), n as f64), "{n}");
        assert!(same(Double::from_i64(n as i64), n as i64 as f64), "{n}");
        let single = f32::from_bits(n as u32);
        assert!(same(Double::from_single(n as u32), single as f64), "{single:e}");
    }
    assert!(same(Double::zero(true), -0.0));
    assert!(same(Double::infinity(true), f64::NEG_INFINITY));
    assert!(same(Double::from_integer(true, 1 << 100), -(2f64.powi(100))));
}

#[test]
fn text_agrees() {
    for a in samples() {
        for places in 0..4u8 {
            let mut s = String::new();
            of(a).push_text(&mut s, places);
            assert_eq!(s, format!("{:.*}", places as usize, a), "{a:e}");
            let mut s = String::new();
            of(a).push_signed_text(&mut s, places);
            assert_eq!(s, format!("{:+.*}", places as usize, a), "{a:e}");
        }
    }
}

#[test]
fn integers_are_written_in_the_fewest_digits() {
    let mut numbers = Numbers { state: 9 };
    let mut list = vec![
        0u64,
        6,
        10,
        100,
        9_007_199_254_740_991,
        9_007_199_254_740_993,
        u64::MAX,
        1 << 63,
        10_000_000_000_000_000_000,
    ];
    for _ in 0..5_000 {
        let x = numbers.next();
        list.push(x >> (x % 64));
        list.push(x | (1 << 63));
    }
    for n in list {
        let mut s = String::new();
        push_integer(&mut s, n);
        assert_eq!(s, format!("{}", n as f64), "{n}");
    }
}

#[test]
fn whole_numbers_add_up() {
    assert_eq!(Double::from_u64(40).plus(Double::from_u64(2)), Double::from_u64(42));
    let a = of(0.1);
    assert_eq!(a.plus(of(7.0)), of(7.0).plus(a));
    assert_eq!(a.minus(a), Double::zero(false));
}
