//! Position sizing.

use copytrading_bot::double::Double;
use copytrading_bot::trading::kelly::{kelly as kelly_of, KellyResult};

fn d(x: f64) -> Double {
    Double { bits: x.to_bits() }
}

fn f(x: Double) -> f64 {
    f64::from_bits(x.bits)
}

fn kelly(price: f64, win_rate: f64, bankroll: f64, fraction: f64, cap: f64) -> Option<KellyResult> {
    kelly_of(d(price), d(win_rate), d(bankroll), d(fraction), d(cap))
}

fn close(a: f64, b: f64, epsilon: f64) -> bool {
    (a - b).abs() <= epsilon
}

// At a price of 0.5 the odds are 1. With a win rate of 0.6 the full fraction is
// (1·0.6 − 0.4)/1 = 0.2.
#[test]
fn known_kelly_value() {
    let r = kelly(0.5, 0.6, 1000.0, 1.0, 1.0).unwrap();
    assert!(close(f(r.raw_fraction), 0.2, 1e-9));
    assert!(close(f(r.adjusted_fraction), 0.2, 1e-9));
    assert!(close(f(r.position_size_usdc), 200.0, 1e-6));
}

#[test]
fn half_kelly_halves_fraction() {
    let full = kelly(0.5, 0.6, 1000.0, 1.0, 1.0).unwrap();
    let half = kelly(0.5, 0.6, 1000.0, 0.5, 1.0).unwrap();
    assert!(close(f(half.adjusted_fraction), f(full.raw_fraction) * 0.5, 1e-9));
}

#[test]
fn hard_cap_is_respected() {
    let r = kelly(0.1, 0.95, 1000.0, 1.0, 0.20).unwrap();
    assert!(f(r.adjusted_fraction) <= 0.20 + 1e-10);
    assert!(close(f(r.position_size_usdc), 200.0, 1e-6));
}

#[test]
fn no_edge_returns_none() {
    assert!(kelly(0.5, 0.5, 1000.0, 0.5, 0.20).is_none());
}

#[test]
fn negative_edge_returns_none() {
    assert!(kelly(0.5, 0.3, 1000.0, 0.5, 0.20).is_none());
}

#[test]
fn invalid_price_returns_none() {
    assert!(kelly(0.0, 0.6, 1000.0, 0.5, 0.20).is_none());
    assert!(kelly(1.0, 0.6, 1000.0, 0.5, 0.20).is_none());
    assert!(kelly(-0.1, 0.6, 1000.0, 0.5, 0.20).is_none());
}

#[test]
fn position_size_scales_with_bankroll() {
    let r1 = kelly(0.5, 0.6, 1000.0, 0.5, 1.0).unwrap();
    let r2 = kelly(0.5, 0.6, 2000.0, 0.5, 1.0).unwrap();
    assert!(close(f(r2.position_size_usdc), 2.0 * f(r1.position_size_usdc), 1e-9));
}

#[test]
fn high_priced_token_lower_kelly() {
    let cheap = kelly(0.3, 0.7, 1000.0, 1.0, 1.0).unwrap();
    let expensive = kelly(0.6, 0.7, 1000.0, 1.0, 1.0).unwrap();
    assert!(f(cheap.raw_fraction) > f(expensive.raw_fraction));
}

#[test]
fn sell_side_uses_inverted_price() {
    let result = kelly(0.3, 0.7, 1000.0, 0.5, 0.20);
    assert!(result.is_some());
    let r = result.unwrap();
    assert!(f(r.adjusted_fraction) > 0.0);
    assert!(f(r.position_size_usdc) > 0.0);
}

#[test]
fn near_boundary_prices_handled() {
    let near_zero = kelly(0.01, 0.6, 1000.0, 0.5, 0.20);
    assert!(near_zero.is_some());
    let near_one = kelly(0.99, 0.6, 1000.0, 0.5, 0.20);
    assert!(near_one.is_none());
}

#[test]
fn tiny_bankroll_produces_small_position() {
    let r = kelly(0.4, 0.7, 10.0, 0.5, 0.20).unwrap();
    assert!(f(r.position_size_usdc) <= 2.0);
}

fn by_machine(p: f64, w: f64, bankroll: f64, fraction: f64, cap: f64) -> Option<(u64, u64, u64)> {
    if p <= 0.0 || p >= 1.0 || !(0.0..=1.0).contains(&w) {
        return None;
    }
    if bankroll <= 0.0 || fraction <= 0.0 || cap <= 0.0 {
        return None;
    }
    let b = (1.0 - p) / p;
    let raw = (b * w - (1.0 - w)) / b;
    if raw <= 0.0 {
        return None;
    }
    let adjusted = (raw * fraction).min(cap);
    Some((raw.to_bits(), adjusted.to_bits(), (bankroll * adjusted).to_bits()))
}

#[test]
fn every_bit_agrees_with_the_machine() {
    let prices = [0.0001, 0.013, 0.1, 0.25, 0.37, 0.5, 0.61, 0.77, 0.9, 0.9999, 1.5];
    let rates = [-0.1, 0.0, 0.2, 0.51, 0.6, 0.7321, 0.95, 1.0, 1.1];
    let bankrolls = [0.0, 5.0, 100.0, 12345.678];
    let fractions = [0.0, 0.25, 0.5, 1.0];
    let caps = [0.0, 0.05, 0.2, 1.0];
    for p in prices {
        for w in rates {
            for bankroll in bankrolls {
                for fraction in fractions {
                    for cap in caps {
                        let ours = kelly(p, w, bankroll, fraction, cap).map(|k| {
                            (
                                k.raw_fraction.bits,
                                k.adjusted_fraction.bits,
                                k.position_size_usdc.bits,
                            )
                        });
                        assert_eq!(ours, by_machine(p, w, bankroll, fraction, cap));
                    }
                }
            }
        }
    }
}

#[test]
fn position_never_exceeds_cap_or_bankroll() {
    for p in [0.05, 0.2, 0.5, 0.8] {
        for w in [0.5, 0.7, 0.9, 1.0] {
            if let Some(k) = kelly(p, w, 80.0, 1.0, 0.15) {
                assert!(f(k.adjusted_fraction) >= 0.0);
                assert!(f(k.adjusted_fraction) <= 0.15);
                assert!(f(k.position_size_usdc) <= 80.0 * 0.15);
                assert!(f(k.position_size_usdc) <= 80.0);
            }
        }
    }
}

#[test]
fn larger_bankroll_never_means_smaller_position() {
    let mut last = 0.0;
    for bankroll in [10.0, 10.5, 99.0, 100.0, 1e6] {
        let k = kelly(0.41, 0.66, bankroll, 0.5, 0.2).unwrap();
        assert!(f(k.position_size_usdc) >= last);
        last = f(k.position_size_usdc);
    }
}

#[test]
fn prices_win_rates_and_multipliers_are_numbers() {
    let n = f64::NAN;
    assert!(kelly(n, 0.6, 1000.0, 0.5, 0.20).is_none());
    assert!(kelly(0.5, n, 1000.0, 0.5, 0.20).is_none());
    assert!(kelly(0.5, 0.6, 1000.0, n, 0.20).is_none());
}

#[test]
fn bankroll_that_is_no_number_gives_no_amount() {
    let k = kelly(0.5, 0.6, f64::NAN, 0.5, 0.20).unwrap();
    assert_eq!(f(k.adjusted_fraction), f(k.raw_fraction) * 0.5);
    assert!(f(k.position_size_usdc).is_nan());
}

#[test]
fn cap_that_is_no_number_does_not_cap() {
    let k = kelly(0.5, 0.9, 1000.0, 1.0, f64::NAN).unwrap();
    assert_eq!(f(k.adjusted_fraction), f(k.raw_fraction));
}

#[test]
fn cap_decides_where_the_odds_are_infinite() {
    let k = kelly(1e-320, 0.6, 1000.0, 0.5, 0.20).unwrap();
    assert!(f(k.raw_fraction).is_nan());
    assert_eq!(f(k.adjusted_fraction), 0.20);
    assert_eq!(f(k.position_size_usdc), 200.0);
}

#[test]
fn half_the_multiplier_halves_every_uncapped_fraction() {
    for p in [0.0001, 0.25, 0.5, 0.77] {
        for w in [0.8, 0.9, 1.0] {
            for m in [1.0, 0.7, 0.01] {
                let full = kelly(p, w, 80.0, m, 1.0).unwrap();
                let half = kelly(p, w, 80.0, m / 2.0, 1.0).unwrap();
                assert_eq!(f(full.adjusted_fraction), 2.0 * f(half.adjusted_fraction));
                assert_eq!(full.raw_fraction.bits, half.raw_fraction.bits);
            }
        }
    }
}

#[test]
fn raw_fraction_is_a_share() {
    for p in [1e-300, 0.0001, 0.013, 0.25, 0.5, 0.77, 0.9999] {
        for w in [0.0, 0.2, 0.51, 0.7321, 1.0] {
            if let Some(k) = kelly(p, w, 80.0, 1.0, 1.0) {
                assert!(f(k.raw_fraction) > 0.0);
                assert!(f(k.raw_fraction) <= 1.0);
                assert!((f(k.raw_fraction) - (w - p) / (1.0 - p)).abs() <= 1e-15);
            }
        }
    }
}

#[test]
fn cheaper_token_never_means_smaller_position() {
    let (mut raw, mut last) = (0.0, 0.0);
    for p in [0.65, 0.64999, 0.5, 0.31, 0.3, 0.01, 1e-6] {
        let k = kelly(p, 0.66, 500.0, 0.5, 0.9).unwrap();
        assert!(f(k.raw_fraction) > raw);
        assert!(f(k.position_size_usdc) >= last);
        (raw, last) = (f(k.raw_fraction), f(k.position_size_usdc));
    }
}

#[test]
fn fractions_do_not_depend_on_the_bankroll() {
    let one = kelly(0.41, 0.66, 7.5, 0.5, 0.9).unwrap();
    let other = kelly(0.41, 0.66, 1e9, 0.5, 0.9).unwrap();
    assert_eq!(one.raw_fraction.bits, other.raw_fraction.bits);
    assert_eq!(one.adjusted_fraction.bits, other.adjusted_fraction.bits);
}
