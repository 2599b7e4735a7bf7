//! Single-precision arithmetic against the machine's own.
use tracetext::single::Single;

/// A stream of varied 64-bit words.
struct Words(u64);

impl Words {
    fn next(&mut self) -> u64 {
        self.0 = self.0.wrapping_mul(6364136223846793005).wrapping_add(1442695040888963407);
        let x = self.0 ^ (self.0 >> 33);
        x.wrapping_mul(0xff51afd7ed558ccd) ^ (x >> 29)
    }

    /// An encoding up to `limit`.
    fn bits(&mut self, limit: u32) -> u32 {
        (self.next() % (limit as u64 + 1)) as u32
    }

    /// An encoding near the given one.
    fn near(&mut self, bits: u32) -> u32 {
        let d = (self.next() % 64) as u32;
        if self.next() % 2 == 0 {
            bits.saturating_add(d)
        } else {
            bits.saturating_sub(d)
        }
    }
}

fn single(value: f32) -> Single {
    Single { bits: value.to_bits() }
}

fn value(s: Single) -> f32 {
    f32::from_bits(s.bits)
}

#[test]
fn products_are_rounded_like_the_machine_rounds() {
    let mut words = Words(1);
    for _ in 0..20000 {
        let a = words.bits(0x6000_0000);
        let b = words.bits(0x5000_0000);
        let r = Single { bits: a }.times(Single { bits: b });
        assert_eq!(r.bits, (f32::from_bits(a) * f32::from_bits(b)).to_bits());
    }
    for _ in 0..5000 {
        let a = words.bits(0x0100_0000);
        let b = 0x3F00_0000 + words.bits(0x0100_0000);
        let r = Single { bits: a }.times(Single { bits: b });
        assert_eq!(r.bits, (f32::from_bits(a) * f32::from_bits(b)).to_bits());
    }
    assert_eq!(value(single(0.1).times(single(0.3))), 0.1 * 0.3);
    assert_eq!(single(0.4).times(single(0.0)).bits, 0);
}

#[test]
fn sums_and_differences_are_rounded_like_the_machine_rounds() {
    let mut words = Words(2);
    for i in 0..20000 {
        let a = words.bits(0x7E00_0000);
        let b = if i % 2 == 0 { words.bits(0x7E00_0000) } else { words.near(a).min(0x7E00_0000) };
        let (x, y) = (f32::from_bits(a), f32::from_bits(b));
        let sum = Single { bits: a }.plus(Single { bits: b });
        assert_eq!(sum.bits, (x + y).to_bits());
        let (high, low) = if a < b { (b, a) } else { (a, b) };
        let difference = Single { bits: high }.minus(Single { bits: low });
        assert_eq!(difference.bits, (f32::from_bits(high) - f32::from_bits(low)).to_bits());
    }
    for _ in 0..20000 {
        let a = 0x3F00_0000 + words.bits(0x0200_0000);
        let b = 0x3E00_0000 + words.bits(0x0200_0000);
        let sum = Single { bits: a }.plus(Single { bits: b });
        assert_eq!(sum.bits, (f32::from_bits(a) + f32::from_bits(b)).to_bits());
    }
    assert_eq!(value(single(0.1).plus(single(0.2))), 0.1 + 0.2);
}

#[test]
fn quotients_are_rounded_like_the_machine_rounds() {
    let mut words = Words(3);
    for _ in 0..20000 {
        let a = words.bits(0x6000_0000);
        let b = 0x3F80_0000 + words.bits(0x3FFF_FFFF);
        let r = Single { bits: a }.over(Single { bits: b });
        assert_eq!(r.bits, (f32::from_bits(a) / f32::from_bits(b)).to_bits());
    }
    for n in 1..200u32 {
        for k in 0..n {
            let r = single(k as f32).over(single(n as f32));
            assert_eq!(value(r), k as f32 / n as f32);
        }
    }
}

#[test]
fn counts_are_converted_like_the_machine_converts() {
    let mut words = Words(4);
    for i in 0..5000 {
        let n = (words.next() >> (i % 64)) as usize;
        assert_eq!(Single::from_count(n).bits, (n as f32).to_bits());
    }
    assert_eq!(Single::from_count(0).bits, 0);
    assert_eq!(Single::from_count(16_777_217).bits, 16_777_216f32.to_bits());
    assert_eq!(Single::from_count(16_777_219).bits, 16_777_220f32.to_bits());
}

#[test]
fn fractions_are_dropped() {
    let mut words = Words(5);
    for _ in 0..5000 {
        let bits = words.bits(0x6000_0000);
        assert_eq!(Single { bits }.truncate(), f32::from_bits(bits) as usize);
    }
    assert_eq!(single(6.9999995).truncate(), 6);
    assert_eq!(single(7.0).truncate(), 7);
    assert_eq!(single(10.0).times(single(0.7)).truncate(), (10.0f32 * 0.7) as usize);
}

#[test]
fn doubles_are_narrowed_like_the_machine_narrows() {
    let mut words = Words(6);
    for _ in 0..20000 {
        let bits = words.next() % (1f64.to_bits() + 1);
        let r = Single::from_double(bits);
        assert_eq!(r.bits, (f64::from_bits(bits) as f32).to_bits());
    }
    for _ in 0..20000 {
        let bits = 0x3690_0000_0000_0000 + words.next() % 0x0960_0000_0000_0000;
        let r = Single::from_double(bits);
        assert_eq!(r.bits, (f64::from_bits(bits) as f32).to_bits());
    }
    assert_eq!(Single::from_double(1f64.to_bits()).bits, 1f32.to_bits());
    assert_eq!(Single::from_double((1.0f64 / 3.0).to_bits()).bits, (1.0f32 / 3.0).to_bits());
}

#[test]
fn the_larger_number_wins() {
    assert_eq!(single(0.25).max(single(0.5)).bits, 0.5f32.to_bits());
    assert_eq!(single(0.5).max(single(0.25)).bits, 0.5f32.to_bits());
}

#[test]
fn numbers_are_compared_like_the_machine_compares() {
    let mut words = Words(7);
    for i in 0..20000 {
        let a = words.next() as u32;
        let b = match i % 3 {
            0 => words.next() as u32,
            1 => a ^ 0x8000_0000,
            _ => words.near(a),
        };
        let (x, y) = (f32::from_bits(a), f32::from_bits(b));
        let (s, t) = (Single { bits: a }, Single { bits: b });
        assert_eq!(s.at_least(t), x >= y);
        let low = value(s.lower_of(t));
        let high = value(s.higher_of(t));
        if x.is_nan() && y.is_nan() {
            assert!(low.is_nan() && high.is_nan());
        } else {
            assert_eq!(low, x.min(y));
            assert_eq!(high, x.max(y));
        }
    }
    assert!(single(-0.0).at_least(single(0.0)));
    assert!(single(0.0).at_least(single(-0.0)));
    assert!(!single(f32::NAN).at_least(single(0.0)));
    assert!(single(f32::INFINITY).at_least(single(f32::MAX)));
}

#[test]
fn distances_are_judged_like_the_machine_judges() {
    let limit = single(3.0);
    let mut words = Words(8);
    for i in 0..30000 {
        let a = words.next() as u32;
        let b = match i % 3 {
            0 => words.next() as u32,
            1 => (f32::from_bits(a) + 3.0).to_bits(),
            _ => words.near(a),
        };
        let near = (f32::from_bits(a) - f32::from_bits(b)).abs() < 3.0;
        assert_eq!(Single { bits: a }.within(Single { bits: b }, limit), near, "{a:x} {b:x}");
    }
    for i in 0..2000 {
        let a = 700.0 + (i as f32) * 0.37;
        for d in [2.9999, 2.99999, 2.999999, 2.9999998, 3.0, 3.0000002, 3.00001] {
            let near = (a - (a + d)).abs() < 3.0;
            assert_eq!(single(a).within(single(a + d), limit), near);
            let near = (-a - (-a - d)).abs() < 3.0;
            assert_eq!(single(-a).within(single(-a - d), limit), near);
        }
    }
    assert!(single(1.0).within(single(-1.0), limit));
    assert!(!single(2.0).within(single(-2.0), limit));
    assert!(single(f32::MAX).within(single(f32::MAX), limit));
    assert!(!single(f32::MAX).within(single(-f32::MAX), limit));
    assert!(!single(f32::INFINITY).within(single(f32::INFINITY), limit));
    assert!(!single(f32::NAN).within(single(0.0), limit));
}

#[test]
fn two_decimals_are_written_like_the_machine_writes_them() {
    let mut words = Words(9);
    for _ in 0..20000 {
        let bits = words.next() as u32;
        assert_eq!(Single { bits }.format(), format!("{:.2}", f32::from_bits(bits)));
    }
    for i in 0..20000u32 {
        let v = i as f32 / 8.0;
        assert_eq!(single(v).format(), format!("{v:.2}"));
        let v = i as f32 * 0.005;
        assert_eq!(single(v).format(), format!("{v:.2}"));
    }
    assert_eq!(single(100.0).format(), "100.00");
    assert_eq!(single(98.0).format(), "98.00");
    assert_eq!(single(0.0).format(), "0.00");
    assert_eq!(single(-0.0).format(), "-0.00");
    assert_eq!(single(0.125).format(), "0.12");
    assert_eq!(single(0.375).format(), "0.38");
    assert_eq!(single(93.456).format(), "93.46");
    assert_eq!(single(f32::MAX).format(), format!("{:.2}", f32::MAX));
    assert_eq!(single(f32::NAN).format(), "NaN");
    assert_eq!(single(f32::INFINITY).format(), "inf");
    assert_eq!(single(f32::NEG_INFINITY).format(), "-inf");
}
