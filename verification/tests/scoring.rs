//! Scoring and selection of traders.

use copytrading_bot::clock::Timestamp;
use copytrading_bot::config::{Config, Environment, Var};
use copytrading_bot::double::Double;
use copytrading_bot::investigation::scoring::{
    compute_score as score_of, conservative_win_rate, count_wins, posterior_variance,
    posterior_win_rate, rank_and_trim, score_exponents, sigmoid as sigmoid_of, win_rate,
    TraderProfile,
};
use copytrading_bot::investigation::{assess, profile};
use copytrading_bot::quantity::Quantity;
use rust_decimal::prelude::ToPrimitive;
use rust_decimal::Decimal;

fn d(x: f64) -> Double {
    Double { bits: x.to_bits() }
}

fn f(x: Double) -> f64 {
    f64::from_bits(x.bits)
}

fn sigmoid(x: f64) -> f64 {
    f(sigmoid_of(d((-x).exp())))
}

fn compute_score(pnl: Decimal, win_rate: f64, volume: Decimal, resolved: i32, min: i32) -> Option<f64> {
    let (a, b) = score_exponents(pnl.to_f64().map(d), volume.to_f64().map(d));
    score_of(d(f(a).exp()), d(win_rate), d(f(b).exp()), resolved, min).map(f)
}

fn dec(n: i64) -> Decimal {
    Decimal::from(n)
}

#[test]
fn sigmoid_bounds() {
    assert!(sigmoid(10.0) < 1.0);
    assert!(sigmoid(10.0) > 0.99);
    assert!(sigmoid(-10.0) > 0.0);
    assert!(sigmoid(-10.0) < 0.01);
    let mid = sigmoid(0.0);
    assert!((mid - 0.5).abs() < 1e-10);
}

#[test]
fn score_excluded_when_too_few_trades() {
    let result = compute_score(dec(500), 0.7, dec(20_000), 5, 10);
    assert!(result.is_none());
}

#[test]
fn score_in_unit_interval() {
    let score = compute_score(dec(500), 0.7, dec(20_000), 20, 10).unwrap();
    assert!(score >= 0.0 && score <= 1.0, "score={score}");
}

#[test]
fn better_trader_scores_higher() {
    let good = compute_score(dec(2000), 0.75, dec(100_000), 50, 10).unwrap();
    let poor = compute_score(dec(50), 0.40, dec(5_000), 15, 10).unwrap();
    assert!(good > poor, "good={good} poor={poor}");
}

fn make(address: &str, score: f64) -> TraderProfile {
    TraderProfile {
        address: address.to_string(),
        period_pnl: Quantity { mantissa: 0, scale: 0 },
        win_rate: d(0.5),
        posterior_win_rate: d(0.5),
        conservative_win_rate: d(0.5),
        wins: 10,
        resolved_trade_count: 20,
        volume: Quantity { mantissa: 0, scale: 0 },
        score: d(score),
        active_asset_ids: vec![],
        updated_at: Timestamp::new(0, 0).unwrap(),
    }
}

#[test]
fn rank_and_trim_keeps_top_n() {
    let mut profiles = vec![
        make("0xA", 0.3),
        make("0xB", 0.9),
        make("0xC", 0.6),
        make("0xD", 0.1),
        make("0xE", 0.8),
    ];

    rank_and_trim(&mut profiles, 3);

    assert_eq!(profiles.len(), 3);
    assert_eq!(profiles[0].address, "0xB");
    assert_eq!(profiles[1].address, "0xE");
    assert_eq!(profiles[2].address, "0xC");
}

#[test]
fn what_is_no_number_sinks_to_the_bottom() {
    let mut profiles = vec![make("0xN", f64::NAN), make("0xA", 0.1), make("0xM", f64::NAN), make("0xB", 0.2)];
    rank_and_trim(&mut profiles, 10);
    let order: Vec<&str> = profiles.iter().map(|p| p.address.as_str()).collect();
    assert_eq!(order, ["0xB", "0xA", "0xN", "0xM"]);
}

#[test]
fn equal_scores_keep_their_order() {
    let mut profiles = vec![make("0x1", 0.5), make("0x2", 0.5), make("0x3", 0.7), make("0x4", 0.5)];
    rank_and_trim(&mut profiles, 3);
    let order: Vec<&str> = profiles.iter().map(|p| p.address.as_str()).collect();
    assert_eq!(order, ["0x3", "0x1", "0x2"]);
}

#[test]
fn score_is_the_weighted_sum() {
    let s = score_of(d(1.0), d(0.6), d(3.0), 10, 10).unwrap();
    assert_eq!(f(s), 0.40 * 0.5 + 0.35 * 0.6 + 0.25 * 0.25);
    let clamped = score_of(d(1.0), d(1.7), d(3.0), 10, 10).unwrap();
    assert_eq!(f(clamped), 0.40 * 0.5 + 0.35 * 1.0 + 0.25 * 0.25);
}

#[test]
fn score_reaches_but_never_passes_one() {
    assert_eq!(f(score_of(d(0.0), d(1.0), d(0.0), 1, 1).unwrap()), 1.0);
    assert_eq!(f(score_of(d(f64::INFINITY), d(0.0), d(f64::INFINITY), 1, 1).unwrap()), 0.0);
}

#[test]
fn exponents_are_scaled_and_negated() {
    let (a, b) = score_exponents(Some(d(2500.0)), None);
    assert_eq!(f(a), -2.5);
    assert_eq!(b.bits, (-0.0_f64).to_bits());
    let (_, b) = score_exponents(None, Some(d(-100_000.0)));
    assert_eq!(f(b), 2.0);
}

#[test]
fn only_profits_are_wins() {
    let q = |mantissa: i128| Quantity { mantissa, scale: 2 };
    assert_eq!(count_wins(&vec![q(5), q(-5), q(0), q(1)]), 2);
    assert_eq!(f(win_rate(2, 4)), 0.5);
    assert_eq!(f(win_rate(1, 3)), 1.0 / 3.0);
    assert_eq!(f(win_rate(0, 0)), 0.0);
}

#[test]
fn prior_draws_the_win_rate_to_the_middle() {
    let mean = posterior_win_rate(8, 10, d(2.0), d(2.0));
    assert_eq!(f(mean), 10.0 / 14.0);
    let variance = posterior_variance(mean, 10, d(2.0), d(2.0));
    assert_eq!(f(variance), (10.0 / 14.0) * (1.0 - 10.0 / 14.0) / 15.0);
    let low = conservative_win_rate(mean, d(1.64), d(f(variance).sqrt()));
    assert!(f(low) < f(mean));
    assert_eq!(f(conservative_win_rate(d(0.1), d(4.0), d(0.5))), 0.0);
}

fn config() -> Config {
    Config::from_env(&Environment {
        dry_run: Var::Value("true".to_string()),
        dry_run_balance_usdc: Var::Absent,
        dashboard_port: Var::Absent,
        skip_alert_webhook_url: None,
        skip_alert_1h_threshold: Var::Absent,
        skip_alert_cooldown_secs: Var::Absent,
        skip_alert_eval_interval_secs: Var::Absent,
        skip_alert_hmac_secret: None,
        skip_alert_max_retries: Var::Absent,
        skip_alert_retry_backoff_ms: Var::Absent,
        state_dir: Var::Absent,
        state_flush_interval_secs: Var::Absent,
        account_sync_interval_secs: Var::Absent,
        leaderboard_fetch_size: Var::Absent,
        max_whales: Var::Absent,
        min_resolved_trades: Var::Value("3".to_string()),
        investigation_interval_secs: Var::Absent,
        bayes_prior_alpha: Var::Absent,
        bayes_prior_beta: Var::Absent,
        bayes_confidence_z: Var::Absent,
        bankroll_usdc: Var::Absent,
        kelly_fraction: Var::Absent,
        max_position_fraction: Var::Absent,
        poll_interval_secs: Var::Absent,
        estimated_fee_bps: Var::Absent,
        estimated_slippage_bps: Var::Absent,
        adverse_selection_bps: Var::Absent,
        min_net_edge_bps: Var::Absent,
        max_copy_price_drift_bps: Var::Absent,
        max_order_slippage_bps: Var::Absent,
        daily_loss_limit_usdc: Var::Absent,
        max_consecutive_losses: Var::Absent,
        max_notional_per_market_usdc: Var::Absent,
        private_key: None,
        address: None,
        api_key: None,
        api_secret: None,
        api_passphrase: None,
    })
    .unwrap()
}

#[test]
fn candidate_is_assessed_by_its_results() {
    let config = config();
    let q = |mantissa: i128| Quantity { mantissa, scale: 0 };
    assert!(assess(&vec![q(1), q(1)], d(1.0), d(1.0), &config).is_none());
    let a = assess(&vec![q(1), q(-1), q(3)], d(1.0), d(1.0), &config).unwrap();
    assert_eq!(a.wins, 2);
    assert_eq!(a.resolved_trade_count, 3);
    assert_eq!(f(a.win_rate), 2.0 / 3.0);
    assert_eq!(f(a.posterior_win_rate), 4.0 / 7.0);
    assert_eq!(f(a.score), 0.40 * 0.5 + 0.35 * (2.0 / 3.0) + 0.25 * 0.5);
    let p = profile(
        "0xA".to_string(),
        q(7),
        q(9),
        a,
        d(0.1),
        vec!["1".to_string()],
        Timestamp::new(5, 0).unwrap(),
        &config,
    );
    assert_eq!(f(p.conservative_win_rate), 4.0 / 7.0 - 1.64 * 0.1);
    assert_eq!(p.wins, 2);
    assert_eq!(p.volume, q(9));
}

#[test]
fn logistic_curve_stays_inside_the_unit_interval() {
    for decay in [f64::EPSILON, 1e-9, 1.0, 1e300, f64::MAX] {
        let y = f(sigmoid_of(d(decay)));
        assert!(0.0 < y && y < 1.0);
    }
    assert_eq!(f(sigmoid_of(d(1e-300))), 1.0);
    assert_eq!(f(sigmoid_of(d(f64::INFINITY))), 0.0);
}
