//! Arithmetic of doubles against the machine's own.

use copytrading_bot::double::Double;

fn d(x: f64) -> Double {
    Double { bits: x.to_bits() }
}

fn check(x: f64, y: f64) {
    let pairs = [
        (d(x).add(d(y)), x + y),
        (d(x).sub(d(y)), x - y),
        (d(x).mul(d(y)), x * y),
        (d(x).div(d(y)), x / y),
    ];
    for (ours, theirs) in pairs {
        if theirs.is_nan() {
            assert!(ours.is_nan(), "{x:e} {y:e}");
        } else {
            assert_eq!(ours.bits, theirs.to_bits(), "{x:e} {y:e}");
        }
    }
    assert_eq!(d(x).lt(d(y)), x < y);
    assert_eq!(d(x).le(d(y)), x <= y);
    assert_eq!(d(x).is_nan(), x.is_nan());
    assert_eq!(d(x).abs().bits, x.abs().to_bits());
}

fn next(seed: &mut u64) -> u64 {
    *seed ^= *seed << 13;
    *seed ^= *seed >> 7;
    *seed ^= *seed << 17;
    *seed
}

#[test]
fn random_bit_patterns_agree() {
    let mut seed = 0x9e37_79b9_7f4a_7c15_u64;
    for _ in 0..20_000 {
        let x = f64::from_bits(next(&mut seed));
        let y = f64::from_bits(next(&mut seed));
        check(x, y);
    }
}

#[test]
fn close_exponents_agree() {
    let mut seed = 0x1234_5678_9abc_def1_u64;
    for _ in 0..20_000 {
        let a = next(&mut seed);
        let b = next(&mut seed);
        let x = f64::from_bits((a & 0x800f_ffff_ffff_ffff) | ((1000 + (a >> 52) % 60) << 52));
        let y = f64::from_bits((b & 0x800f_ffff_ffff_ffff) | ((1000 + (b >> 52) % 60) << 52));
        check(x, y);
    }
}

#[test]
fn subnormals_agree() {
    let mut seed = 0x0fed_cba9_8765_4321_u64;
    for _ in 0..5_000 {
        let a = next(&mut seed);
        let b = next(&mut seed);
        let x = f64::from_bits(a & 0x803f_ffff_ffff_ffff);
        let y = f64::from_bits(b & 0x803f_ffff_ffff_ffff);
        check(x, y);
        check(x, f64::from_bits(b));
        check(f64::from_bits(b), x);
    }
}

#[test]
fn special_values_agree() {
    let special = [
        0.0,
        -0.0,
        1.0,
        -1.0,
        f64::INFINITY,
        f64::NEG_INFINITY,
        f64::NAN,
        f64::MAX,
        f64::MIN,
        f64::MIN_POSITIVE,
        f64::from_bits(1),
        0.1,
        0.5,
        1e-9,
    ];
    for x in special {
        for y in special {
            check(x, y);
        }
    }
}

#[test]
fn whole_numbers_and_fractions_agree() {
    for n in [0, 1, 2, 3, 10, 200, 5000, 1 << 53, (1 << 53) + 1, (1 << 53) + 3, u64::MAX] {
        assert_eq!(Double::whole(n).bits, (n as f64).to_bits());
    }
    assert_eq!(Double::ratio(1, 10_000).bits, 0.0001_f64.to_bits());
    assert_eq!(Double::ratio(9999, 10_000).bits, 0.9999_f64.to_bits());
    assert_eq!(Double::ratio(1, 1_000_000_000).bits, 1e-9_f64.to_bits());
    assert_eq!(Double::ratio(3, 10).bits, 0.30_f64.to_bits());
    assert_eq!(Double::ratio(1, 100).bits, 0.01_f64.to_bits());
    assert_eq!(Double::ratio(40, 100).bits, 0.40_f64.to_bits());
    assert_eq!(Double::ratio(35, 100).bits, 0.35_f64.to_bits());
    assert_eq!(Double::ratio(25, 100).bits, 0.25_f64.to_bits());
    assert_eq!(Double::ratio(164, 100).bits, 1.64_f64.to_bits());
}

#[test]
fn bounds_agree() {
    let values = [-3.5, -0.0, 0.0, 0.25, 1.0, 7.0, f64::INFINITY, f64::NAN];
    for x in values {
        let c = d(x).clamp(d(0.0001), d(0.9999));
        let expected = x.clamp(0.0001, 0.9999);
        assert!(c.bits == expected.to_bits() || (c.is_nan() && expected.is_nan()));
        for y in values {
            if x == 0.0 && y == 0.0 {
                continue;
            }
            assert_eq!(d(x).max(d(y)).bits, x.max(y).to_bits());
            assert_eq!(d(x).min(d(y)).bits, x.min(y).to_bits());
        }
    }
}
