//! Settings.

use copytrading_bot::config::{Config, Environment, Var};
use copytrading_bot::double::Double;
use copytrading_bot::text::{is_white_space, parse_integer, parse_natural, trimmed};

fn d(x: f64) -> Double {
    Double { bits: x.to_bits() }
}

fn f(x: Double) -> f64 {
    f64::from_bits(x.bits)
}

fn empty() -> Environment {
    Environment {
        dry_run: text("true"),
        dry_run_balance_usdc: Var::Absent,
        dashboard_port: Var::Absent,
        skip_alert_webhook_url: None,
        skip_alert_1h_threshold: Var::Absent,
        skip_alert_cooldown_secs: Var::Absent,
        skip_alert_eval_interval_secs: Var::Absent,
        skip_alert_hmac_secret: None,
        skip_alert_max_retries: Var::Absent,
        skip_alert_retry_backoff_ms: Var::Absent,
        state_dir: Var::Absent,
        state_flush_interval_secs: Var::Absent,
        account_sync_interval_secs: Var::Absent,
        leaderboard_fetch_size: Var::Absent,
        max_whales: Var::Absent,
        min_resolved_trades: Var::Absent,
        investigation_interval_secs: Var::Absent,
        bayes_prior_alpha: Var::Absent,
        bayes_prior_beta: Var::Absent,
        bayes_confidence_z: Var::Absent,
        bankroll_usdc: Var::Absent,
        kelly_fraction: Var::Absent,
        max_position_fraction: Var::Absent,
        poll_interval_secs: Var::Absent,
        estimated_fee_bps: Var::Absent,
        estimated_slippage_bps: Var::Absent,
        adverse_selection_bps: Var::Absent,
        min_net_edge_bps: Var::Absent,
        max_copy_price_drift_bps: Var::Absent,
        max_order_slippage_bps: Var::Absent,
        daily_loss_limit_usdc: Var::Absent,
        max_consecutive_losses: Var::Absent,
        max_notional_per_market_usdc: Var::Absent,
        private_key: None,
        address: None,
        api_key: None,
        api_secret: None,
        api_passphrase: None,
    }
}

fn text(value: &str) -> Var<String> {
    Var::Value(value.to_string())
}

fn error(env: &Environment) -> String {
    Config::from_env(env).unwrap_err()
}

#[test]
fn defaults_are_taken_for_what_is_not_set() {
    let c = Config::from_env(&empty()).unwrap();
    assert!(c.dry_run);
    assert_eq!(f(c.dry_run_balance_usdc), 100.0);
    assert_eq!(c.dashboard_port, 8080);
    assert!(c.skip_alert_webhook_url.is_none());
    assert_eq!(c.skip_alert_1h_threshold, 25);
    assert_eq!(c.skip_alert_cooldown_secs, 900);
    assert_eq!(c.skip_alert_eval_interval_secs, 60);
    assert!(c.skip_alert_hmac_secret.is_none());
    assert_eq!(c.skip_alert_max_retries, 3);
    assert_eq!(c.skip_alert_retry_backoff_ms, 500);
    assert_eq!(c.state_dir, ".runtime");
    assert_eq!(c.state_flush_interval_secs, 30);
    assert_eq!(c.account_sync_interval_secs, 120);
    assert_eq!(c.leaderboard_fetch_size, 50);
    assert_eq!(c.max_whales, 10);
    assert_eq!(c.min_resolved_trades, 10);
    assert_eq!(c.investigation_interval_secs, 3600);
    assert_eq!(f(c.bayes_prior_alpha), 2.0);
    assert_eq!(f(c.bayes_prior_beta), 2.0);
    assert_eq!(f(c.bayes_confidence_z), 1.64);
    assert_eq!(f(c.bankroll_usdc), 1000.0);
    assert_eq!(f(c.kelly_fraction), 0.5);
    assert_eq!(f(c.max_position_fraction), 0.20);
    assert_eq!(c.poll_interval_secs, 30);
    assert_eq!(f(c.estimated_fee_bps), 20.0);
    assert_eq!(f(c.estimated_slippage_bps), 25.0);
    assert_eq!(f(c.adverse_selection_bps), 10.0);
    assert_eq!(f(c.min_net_edge_bps), 15.0);
    assert_eq!(f(c.max_copy_price_drift_bps), 150.0);
    assert_eq!(f(c.max_order_slippage_bps), 80.0);
    assert_eq!(f(c.daily_loss_limit_usdc), 150.0);
    assert_eq!(c.max_consecutive_losses, 8);
    assert_eq!(f(c.max_notional_per_market_usdc), 350.0);
    assert_eq!(c.private_key, "");
    assert_eq!(f(c.starting_balance_usdc()), 100.0);
}

#[test]
fn settings_out_of_bounds_are_rejected() {
    let mut e = empty();
    e.leaderboard_fetch_size = text("51");
    assert_eq!(error(&e), "LEADERBOARD_FETCH_SIZE must be between 1 and 50");
    let mut e = empty();
    e.max_whales = text("11");
    assert_eq!(error(&e), "MAX_WHALES must be between 1 and 10");
    let mut e = empty();
    e.max_whales = text("0");
    assert_eq!(error(&e), "MAX_WHALES must be between 1 and 10");
    let mut e = empty();
    e.skip_alert_1h_threshold = text("0");
    assert_eq!(error(&e), "SKIP_ALERT_1H_THRESHOLD must be >= 1");
    let mut e = empty();
    e.skip_alert_cooldown_secs = text("0");
    assert_eq!(error(&e), "SKIP_ALERT_COOLDOWN_SECS must be >= 1");
    let mut e = empty();
    e.skip_alert_eval_interval_secs = text("0");
    assert_eq!(error(&e), "SKIP_ALERT_EVAL_INTERVAL_SECS must be >= 1");
    let mut e = empty();
    e.skip_alert_max_retries = text("11");
    assert_eq!(error(&e), "SKIP_ALERT_MAX_RETRIES must be between 0 and 10");
    let mut e = empty();
    e.skip_alert_retry_backoff_ms = text("0");
    assert_eq!(error(&e), "SKIP_ALERT_RETRY_BACKOFF_MS must be >= 1");
    let mut e = empty();
    e.state_dir = Var::Value(" \t".to_string());
    assert_eq!(error(&e), "STATE_DIR cannot be empty");
    let mut e = empty();
    e.state_flush_interval_secs = text("0");
    assert_eq!(error(&e), "STATE_FLUSH_INTERVAL_SECS must be >= 1");
    let mut e = empty();
    e.account_sync_interval_secs = text("0");
    assert_eq!(error(&e), "ACCOUNT_SYNC_INTERVAL_SECS must be >= 1");
    let mut e = empty();
    e.kelly_fraction = Var::Value(d(1.5));
    assert_eq!(error(&e), "KELLY_FRACTION must be between 0.0 and 1.0");
    let mut e = empty();
    e.kelly_fraction = Var::Value(d(f64::NAN));
    assert_eq!(error(&e), "KELLY_FRACTION must be between 0.0 and 1.0");
    let mut e = empty();
    e.max_position_fraction = Var::Value(d(-0.1));
    assert_eq!(error(&e), "MAX_POSITION_FRACTION must be between 0.0 and 1.0");
    let mut e = empty();
    e.dry_run_balance_usdc = Var::Value(d(0.0));
    assert_eq!(error(&e), "DRY_RUN_BALANCE_USDC must be > 0");
    let mut e = empty();
    e.min_resolved_trades = text("0");
    assert_eq!(error(&e), "MIN_RESOLVED_TRADES must be > 0");
    let mut e = empty();
    e.investigation_interval_secs = text("0");
    assert_eq!(error(&e), "INVESTIGATION_INTERVAL_SECS must be >= 1");
    let mut e = empty();
    e.bankroll_usdc = Var::Value(d(-1.0));
    assert_eq!(error(&e), "BANKROLL_USDC must be > 0");
    let mut e = empty();
    e.poll_interval_secs = text("0");
    assert_eq!(error(&e), "POLL_INTERVAL_SECS must be >= 1");
    let mut e = empty();
    e.bayes_prior_alpha = Var::Value(d(0.0));
    assert_eq!(error(&e), "BAYES_PRIOR_ALPHA must be > 0");
    let mut e = empty();
    e.bayes_prior_beta = Var::Value(d(0.0));
    assert_eq!(error(&e), "BAYES_PRIOR_BETA must be > 0");
    let mut e = empty();
    e.bayes_confidence_z = Var::Value(d(4.1));
    assert_eq!(error(&e), "BAYES_CONFIDENCE_Z must be between 0.0 and 4.0");
    let mut e = empty();
    e.daily_loss_limit_usdc = Var::Value(d(0.0));
    assert_eq!(error(&e), "DAILY_LOSS_LIMIT_USDC must be > 0");
    let mut e = empty();
    e.max_consecutive_losses = text("0");
    assert_eq!(error(&e), "MAX_CONSECUTIVE_LOSSES must be >= 1");
    let mut e = empty();
    e.max_notional_per_market_usdc = Var::Value(d(0.0));
    assert_eq!(error(&e), "MAX_NOTIONAL_PER_MARKET_USDC must be > 0");
    let mut e = empty();
    e.min_net_edge_bps = Var::Value(d(5000.5));
    assert_eq!(error(&e), "MIN_NET_EDGE_BPS must be between 0 and 5000 bps");
    let mut e = empty();
    e.estimated_fee_bps = Var::Value(d(-1.0));
    assert_eq!(error(&e), "ESTIMATED_FEE_BPS must be between 0 and 5000 bps");
    let mut e = empty();
    e.estimated_slippage_bps = Var::Value(d(9999.0));
    assert_eq!(error(&e), "ESTIMATED_SLIPPAGE_BPS must be between 0 and 5000 bps");
    let mut e = empty();
    e.adverse_selection_bps = Var::Value(d(9999.0));
    assert_eq!(error(&e), "ADVERSE_SELECTION_BPS must be between 0 and 5000 bps");
    let mut e = empty();
    e.max_copy_price_drift_bps = Var::Value(d(9999.0));
    assert_eq!(error(&e), "MAX_COPY_PRICE_DRIFT_BPS must be between 0 and 5000 bps");
    let mut e = empty();
    e.max_order_slippage_bps = Var::Value(d(9999.0));
    assert_eq!(error(&e), "MAX_ORDER_SLIPPAGE_BPS must be between 0 and 5000 bps");
}

#[test]
fn first_problem_is_reported() {
    let mut e = empty();
    e.poll_interval_secs = text("0");
    e.max_whales = text("ten");
    e.dashboard_port = Var::Unreadable("gone".to_string());
    assert_eq!(error(&e), "Invalid env var MAX_WHALES: invalid digit found in string");
    e.max_whales = Var::Absent;
    assert_eq!(error(&e), "POLL_INTERVAL_SECS must be >= 1");
    e.poll_interval_secs = Var::Absent;
    assert_eq!(error(&e), "Failed reading env var DASHBOARD_PORT: gone");
}

#[test]
fn live_trading_needs_every_credential() {
    let mut e = empty();
    e.dry_run = Var::Absent;
    assert_eq!(error(&e), "Missing required env var: POLYMARKET_PRIVATE_KEY");
    e.private_key = Some("k".to_string());
    assert_eq!(error(&e), "Missing required env var: POLYMARKET_ADDRESS");
    e.address = Some("a".to_string());
    assert_eq!(error(&e), "Missing required env var: POLYMARKET_API_KEY");
    e.api_key = Some("x".to_string());
    assert_eq!(error(&e), "Missing required env var: POLYMARKET_API_SECRET");
    e.api_secret = Some("y".to_string());
    assert_eq!(error(&e), "Missing required env var: POLYMARKET_API_PASSPHRASE");
    e.api_passphrase = Some("z".to_string());
    let c = Config::from_env(&e).unwrap();
    assert!(!c.dry_run);
    assert_eq!(c.private_key, "k");
    assert_eq!(c.address, "a");
    assert_eq!(f(c.starting_balance_usdc()), 1000.0);
}

#[test]
fn white_space_around_a_text_is_dropped() {
    let mut e = empty();
    e.skip_alert_webhook_url = Some("  https://example.org/hook \n".to_string());
    e.skip_alert_hmac_secret = Some("   ".to_string());
    e.state_dir = Var::Value(" dir ".to_string());
    let c = Config::from_env(&e).unwrap();
    assert_eq!(c.skip_alert_webhook_url.as_deref(), Some("https://example.org/hook"));
    assert!(c.skip_alert_hmac_secret.is_none());
    assert_eq!(c.state_dir, " dir ");
}

#[test]
fn whole_numbers_and_switches_are_read_from_texts() {
    let mut e = empty();
    e.dry_run = text("false");
    e.private_key = Some("k".to_string());
    e.address = Some("a".to_string());
    e.api_key = Some("x".to_string());
    e.api_secret = Some("y".to_string());
    e.api_passphrase = Some("z".to_string());
    e.dashboard_port = text("65535");
    e.max_whales = text("+7");
    e.leaderboard_fetch_size = text("007");
    e.poll_interval_secs = text("18446744073709551615");
    let c = Config::from_env(&e).unwrap();
    assert!(!c.dry_run);
    assert_eq!(c.dashboard_port, 65535);
    assert_eq!(c.max_whales, 7);
    assert_eq!(c.leaderboard_fetch_size, 7);
    assert_eq!(c.poll_interval_secs, u64::MAX);
}

#[test]
fn texts_that_are_no_values_are_rejected() {
    let mut e = empty();
    e.dry_run = text("yes");
    assert_eq!(error(&e), "Invalid env var DRY_RUN: provided string was not `true` or `false`");
    let mut e = empty();
    e.dashboard_port = text("65536");
    assert_eq!(
        error(&e),
        "Invalid env var DASHBOARD_PORT: number too large to fit in target type"
    );
    let mut e = empty();
    e.leaderboard_fetch_size = text("-2147483649");
    assert_eq!(
        error(&e),
        "Invalid env var LEADERBOARD_FETCH_SIZE: number too small to fit in target type"
    );
    let mut e = empty();
    e.leaderboard_fetch_size = text("-3");
    assert_eq!(error(&e), "LEADERBOARD_FETCH_SIZE must be between 1 and 50");
    let mut e = empty();
    e.poll_interval_secs = text("");
    assert_eq!(
        error(&e),
        "Invalid env var POLL_INTERVAL_SECS: cannot parse integer from empty string"
    );
    let mut e = empty();
    e.poll_interval_secs = text("-1");
    assert_eq!(error(&e), "Invalid env var POLL_INTERVAL_SECS: invalid digit found in string");
    let mut e = empty();
    e.bankroll_usdc = Var::Invalid("invalid float literal".to_string());
    assert_eq!(error(&e), "Invalid env var BANKROLL_USDC: invalid float literal");
}

const TEXTS: [&str; 40] = [
    "", "+", "-", "0", "00", "+0", "-0", "7", "+7", "-7", "++7", "--7", "+-7", " 7", "7 ", "7_000", "1e3",
    "3.0", "\u{0663}", "12a", "a12", "255", "256", "65535", "65536", "65536x", "6553x6", "2147483647",
    "2147483648", "-2147483648", "-2147483649", "-2147483649x", "-214748364x9", "18446744073709551615",
    "18446744073709551616", "18446744073709551616x", "1844674407370955161x6", "99999999999999999999999999",
    "00000000000000000000000000000000001", "-00000000000000000000000000000002147483648",
];

#[test]
fn numbers_are_read_as_the_standard_library_reads_them() {
    for t in TEXTS {
        assert_eq!(
            parse_natural(t, u64::MAX).map_err(|e| e.text().to_string()),
            t.parse::<u64>().map_err(|e| e.to_string()),
            "{t:?}"
        );
        assert_eq!(
            parse_natural(t, u16::MAX as u64).map(|n| n as u16).map_err(|e| e.text().to_string()),
            t.parse::<u16>().map_err(|e| e.to_string()),
            "{t:?}"
        );
        assert_eq!(
            parse_integer(t).map_err(|e| e.text().to_string()),
            t.parse::<i32>().map_err(|e| e.to_string()),
            "{t:?}"
        );
    }
}

#[test]
fn settings_that_are_no_numbers_are_rejected() {
    let nan = || Var::Value(d(f64::NAN));
    let mut e = empty();
    e.dry_run_balance_usdc = nan();
    assert_eq!(error(&e), "DRY_RUN_BALANCE_USDC must be > 0");
    let mut e = empty();
    e.bankroll_usdc = nan();
    assert_eq!(error(&e), "BANKROLL_USDC must be > 0");
    let mut e = empty();
    e.bayes_prior_alpha = nan();
    assert_eq!(error(&e), "BAYES_PRIOR_ALPHA must be > 0");
    let mut e = empty();
    e.bayes_prior_beta = nan();
    assert_eq!(error(&e), "BAYES_PRIOR_BETA must be > 0");
    let mut e = empty();
    e.daily_loss_limit_usdc = nan();
    assert_eq!(error(&e), "DAILY_LOSS_LIMIT_USDC must be > 0");
    let mut e = empty();
    e.max_notional_per_market_usdc = nan();
    assert_eq!(error(&e), "MAX_NOTIONAL_PER_MARKET_USDC must be > 0");
    let mut e = empty();
    e.max_position_fraction = nan();
    assert_eq!(error(&e), "MAX_POSITION_FRACTION must be between 0.0 and 1.0");
    let mut e = empty();
    e.min_net_edge_bps = nan();
    assert_eq!(error(&e), "MIN_NET_EDGE_BPS must be between 0 and 5000 bps");
}

#[test]
fn white_space_is_that_of_the_standard_library() {
    for c in '\0'..=char::MAX {
        assert_eq!(is_white_space(c), c.is_whitespace(), "{c:?}");
    }
}

#[test]
fn texts_are_trimmed_as_the_standard_library_trims_them() {
    for t in ["", " ", "a", " a", "a ", "\t a b \n", "\u{3000}x\u{a0}", "\u{200b}x", " \u{2028}\u{85} "] {
        assert_eq!(trimmed(t), t.trim(), "{t:?}");
    }
}
