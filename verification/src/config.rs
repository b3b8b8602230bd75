//! Settings: their defaults, their bounds, and what is wrong with them.

use crate::double::{fraction, Double};
use crate::text::{
    integer, natural, number_error_text, optional_text, parse_integer, parse_natural, same, trimmed,
    trimmed_text,
};
use vstd::prelude::*;

verus! {

/// A setting as it was found.
#[derive(Debug)]
pub enum Var<T> {
    /// It is not set.
    Absent,
    /// It is set to a value.
    Value(T),
    /// It is set to what is no value of its type, with the reason.
    Invalid(String),
    /// It cannot be read, with the reason.
    Unreadable(String),
}

/// All settings as they were found: whole numbers and switches as texts,
/// fractions as numbers, and credentials if they are there.
#[derive(Debug)]
pub struct Environment {
    pub dry_run: Var<String>,
    pub dry_run_balance_usdc: Var<Double>,
    pub dashboard_port: Var<String>,
    pub skip_alert_webhook_url: Option<String>,
    pub skip_alert_1h_threshold: Var<String>,
    pub skip_alert_cooldown_secs: Var<String>,
    pub skip_alert_eval_interval_secs: Var<String>,
    pub skip_alert_hmac_secret: Option<String>,
    pub skip_alert_max_retries: Var<String>,
    pub skip_alert_retry_backoff_ms: Var<String>,
    pub state_dir: Var<String>,
    pub state_flush_interval_secs: Var<String>,
    pub account_sync_interval_secs: Var<String>,
    pub leaderboard_fetch_size: Var<String>,
    pub max_whales: Var<String>,
    pub min_resolved_trades: Var<String>,
    pub investigation_interval_secs: Var<String>,
    pub bayes_prior_alpha: Var<Double>,
    pub bayes_prior_beta: Var<Double>,
    pub bayes_confidence_z: Var<Double>,
    pub bankroll_usdc: Var<Double>,
    pub kelly_fraction: Var<Double>,
    pub max_position_fraction: Var<Double>,
    pub poll_interval_secs: Var<String>,
    pub estimated_fee_bps: Var<Double>,
    pub estimated_slippage_bps: Var<Double>,
    pub adverse_selection_bps: Var<Double>,
    pub min_net_edge_bps: Var<Double>,
    pub max_copy_price_drift_bps: Var<Double>,
    pub max_order_slippage_bps: Var<Double>,
    pub daily_loss_limit_usdc: Var<Double>,
    pub max_consecutive_losses: Var<String>,
    pub max_notional_per_market_usdc: Var<Double>,
    pub private_key: Option<String>,
    pub address: Option<String>,
    pub api_key: Option<String>,
    pub api_secret: Option<String>,
    pub api_passphrase: Option<String>,
}

/// The settings of the bot.
#[derive(Debug)]
pub struct Config {
    /// Whether trades are only simulated; no credentials are needed then.
    pub dry_run: bool,
    /// Starting balance of a simulation.
    pub dry_run_balance_usdc: Double,
    /// TCP port of the dashboard.
    pub dashboard_port: u16,
    /// Where alerts are sent, if anywhere.
    pub skip_alert_webhook_url: Option<String>,
    /// How often a reason must occur within an hour to raise an alert.
    pub skip_alert_1h_threshold: usize,
    /// Seconds between alerts of an unchanged spike.
    pub skip_alert_cooldown_secs: u64,
    /// Seconds between evaluations of alerts.
    pub skip_alert_eval_interval_secs: u64,
    /// Secret that alerts are signed with, if any.
    pub skip_alert_hmac_secret: Option<String>,
    /// How often delivery is tried again.
    pub skip_alert_max_retries: usize,
    /// Base delay between tries, in milliseconds.
    pub skip_alert_retry_backoff_ms: u64,
    /// Directory of the state files.
    pub state_dir: String,
    /// Seconds between writes of the books.
    pub state_flush_interval_secs: u64,
    /// Seconds between synchronisations of a live account.
    pub account_sync_interval_secs: u64,
    /// How many candidates are taken from the leaderboard.
    pub leaderboard_fetch_size: i32,
    /// How many wallets are followed at most.
    pub max_whales: usize,
    /// How many resolved trades a candidate must have.
    pub min_resolved_trades: i32,
    /// Seconds between investigations.
    pub investigation_interval_secs: u64,
    /// First parameter of the prior over win rates.
    pub bayes_prior_alpha: Double,
    /// Second parameter of the prior over win rates.
    pub bayes_prior_beta: Double,
    /// Standard deviations by which a win rate is lowered.
    pub bayes_confidence_z: Double,
    /// Total USDC available.
    pub bankroll_usdc: Double,
    /// Share of the full Kelly fraction that is used.
    pub kelly_fraction: Double,
    /// Greatest share of the bankroll in one position.
    pub max_position_fraction: Double,
    /// Seconds between polls for trades.
    pub poll_interval_secs: u64,
    /// Estimated fees, in basis points.
    pub estimated_fee_bps: Double,
    /// Estimated slippage, in basis points.
    pub estimated_slippage_bps: Double,
    /// Buffer against adverse selection, in basis points.
    pub adverse_selection_bps: Double,
    /// Least net edge of a trade, in basis points.
    pub min_net_edge_bps: Double,
    /// Greatest drift of the quote from the copied price, in basis points.
    pub max_copy_price_drift_bps: Double,
    /// Protective distance of an order from the quote, in basis points.
    pub max_order_slippage_bps: Double,
    /// Drawdown within a day that stops trading.
    pub daily_loss_limit_usdc: Double,
    /// Losses in a row that stop trading.
    pub max_consecutive_losses: usize,
    /// Greatest amount in one market.
    pub max_notional_per_market_usdc: Double,
    /// Private key, needed for live trading.
    pub private_key: String,
    /// Address of the private key, needed for live trading.
    pub address: String,
}

/// What a setting says.
pub enum Reading<T> {
    Absent,
    Value(T),
    Invalid(Seq<char>),
    Unreadable(Seq<char>),
}

/// What all settings say.
pub struct Readings {
    pub dry_run: Reading<bool>,
    pub dry_run_balance_usdc: Reading<Double>,
    pub dashboard_port: Reading<u16>,
    pub skip_alert_webhook_url: Option<Seq<char>>,
    pub skip_alert_1h_threshold: Reading<usize>,
    pub skip_alert_cooldown_secs: Reading<u64>,
    pub skip_alert_eval_interval_secs: Reading<u64>,
    pub skip_alert_hmac_secret: Option<Seq<char>>,
    pub skip_alert_max_retries: Reading<usize>,
    pub skip_alert_retry_backoff_ms: Reading<u64>,
    pub state_dir: Reading<Seq<char>>,
    pub state_flush_interval_secs: Reading<u64>,
    pub account_sync_interval_secs: Reading<u64>,
    pub leaderboard_fetch_size: Reading<i32>,
    pub max_whales: Reading<usize>,
    pub min_resolved_trades: Reading<i32>,
    pub investigation_interval_secs: Reading<u64>,
    pub bayes_prior_alpha: Reading<Double>,
    pub bayes_prior_beta: Reading<Double>,
    pub bayes_confidence_z: Reading<Double>,
    pub bankroll_usdc: Reading<Double>,
    pub kelly_fraction: Reading<Double>,
    pub max_position_fraction: Reading<Double>,
    pub poll_interval_secs: Reading<u64>,
    pub estimated_fee_bps: Reading<Double>,
    pub estimated_slippage_bps: Reading<Double>,
    pub adverse_selection_bps: Reading<Double>,
    pub min_net_edge_bps: Reading<Double>,
    pub max_copy_price_drift_bps: Reading<Double>,
    pub max_order_slippage_bps: Reading<Double>,
    pub daily_loss_limit_usdc: Reading<Double>,
    pub max_consecutive_losses: Reading<usize>,
    pub max_notional_per_market_usdc: Reading<Double>,
    pub private_key: Option<Seq<char>>,
    pub address: Option<Seq<char>>,
    pub api_key: Option<Seq<char>>,
    pub api_secret: Option<Seq<char>>,
    pub api_passphrase: Option<Seq<char>>,
}

impl<T> Var<T> {
    /// What the setting says.
    pub open spec fn reading(self) -> Reading<T> {
        match self {
            Var::Absent => Reading::Absent,
            Var::Value(v) => Reading::Value(v),
            Var::Invalid(why) => Reading::Invalid(why@),
            Var::Unreadable(why) => Reading::Unreadable(why@),
        }
    }
}

/// What the setting of a text says.
pub open spec fn text_reading(var: Var<String>) -> Reading<Seq<char>> {
    match var.reading() {
        Reading::Absent => Reading::Absent,
        Reading::Value(text) => Reading::Value(text@),
        Reading::Invalid(why) => Reading::Invalid(why),
        Reading::Unreadable(why) => Reading::Unreadable(why),
    }
}

/// What the setting of a switch says: `true` or `false`.
pub open spec fn switch_reading(var: Var<String>) -> Reading<bool> {
    match var.reading() {
        Reading::Absent => Reading::Absent,
        Reading::Value(text) => if text@ == "true"@ {
            Reading::Value(true)
        } else if text@ == "false"@ {
            Reading::Value(false)
        } else {
            Reading::Invalid("provided string was not `true` or `false`"@)
        },
        Reading::Invalid(why) => Reading::Invalid(why),
        Reading::Unreadable(why) => Reading::Unreadable(why),
    }
}

/// What the setting of a natural number up to a greatest one says.
pub open spec fn natural_reading(var: Var<String>, greatest: nat) -> Reading<nat> {
    match var.reading() {
        Reading::Absent => Reading::Absent,
        Reading::Value(text) => match natural(text@, greatest) {
            Ok(n) => Reading::Value(n),
            Err(e) => Reading::Invalid(number_error_text(e)),
        },
        Reading::Invalid(why) => Reading::Invalid(why),
        Reading::Unreadable(why) => Reading::Unreadable(why),
    }
}

/// What the setting of a whole number says.
pub open spec fn i32_reading(var: Var<String>) -> Reading<i32> {
    match var.reading() {
        Reading::Absent => Reading::Absent,
        Reading::Value(text) => match integer(text@, i32::MAX as nat) {
            Ok(n) => Reading::Value(n as i32),
            Err(e) => Reading::Invalid(number_error_text(e)),
        },
        Reading::Invalid(why) => Reading::Invalid(why),
        Reading::Unreadable(why) => Reading::Unreadable(why),
    }
}

/// What the setting of a natural number of 64 bits says.
pub open spec fn u64_reading(var: Var<String>) -> Reading<u64> {
    match natural_reading(var, u64::MAX as nat) {
        Reading::Absent => Reading::Absent,
        Reading::Value(n) => Reading::Value(n as u64),
        Reading::Invalid(why) => Reading::Invalid(why),
        Reading::Unreadable(why) => Reading::Unreadable(why),
    }
}

/// What the setting of a natural number of the size of an address says.
pub open spec fn usize_reading(var: Var<String>) -> Reading<usize> {
    match natural_reading(var, usize::MAX as nat) {
        Reading::Absent => Reading::Absent,
        Reading::Value(n) => Reading::Value(n as usize),
        Reading::Invalid(why) => Reading::Invalid(why),
        Reading::Unreadable(why) => Reading::Unreadable(why),
    }
}

/// What the setting of a natural number of 16 bits says.
pub open spec fn u16_reading(var: Var<String>) -> Reading<u16> {
    match natural_reading(var, u16::MAX as nat) {
        Reading::Absent => Reading::Absent,
        Reading::Value(n) => Reading::Value(n as u16),
        Reading::Invalid(why) => Reading::Invalid(why),
        Reading::Unreadable(why) => Reading::Unreadable(why),
    }
}

/// What all settings say.
pub open spec fn readings(env: Environment) -> Readings {
    Readings {
        dry_run: switch_reading(env.dry_run),
        dry_run_balance_usdc: env.dry_run_balance_usdc.reading(),
        dashboard_port: u16_reading(env.dashboard_port),
        skip_alert_webhook_url: optional_text(env.skip_alert_webhook_url),
        skip_alert_1h_threshold: usize_reading(env.skip_alert_1h_threshold),
        skip_alert_cooldown_secs: u64_reading(env.skip_alert_cooldown_secs),
        skip_alert_eval_interval_secs: u64_reading(env.skip_alert_eval_interval_secs),
        skip_alert_hmac_secret: optional_text(env.skip_alert_hmac_secret),
        skip_alert_max_retries: usize_reading(env.skip_alert_max_retries),
        skip_alert_retry_backoff_ms: u64_reading(env.skip_alert_retry_backoff_ms),
        state_dir: text_reading(env.state_dir),
        state_flush_interval_secs: u64_reading(env.state_flush_interval_secs),
        account_sync_interval_secs: u64_reading(env.account_sync_interval_secs),
        leaderboard_fetch_size: i32_reading(env.leaderboard_fetch_size),
        max_whales: usize_reading(env.max_whales),
        min_resolved_trades: i32_reading(env.min_resolved_trades),
        investigation_interval_secs: u64_reading(env.investigation_interval_secs),
        bayes_prior_alpha: env.bayes_prior_alpha.reading(),
        bayes_prior_beta: env.bayes_prior_beta.reading(),
        bayes_confidence_z: env.bayes_confidence_z.reading(),
        bankroll_usdc: env.bankroll_usdc.reading(),
        kelly_fraction: env.kelly_fraction.reading(),
        max_position_fraction: env.max_position_fraction.reading(),
        poll_interval_secs: u64_reading(env.poll_interval_secs),
        estimated_fee_bps: env.estimated_fee_bps.reading(),
        estimated_slippage_bps: env.estimated_slippage_bps.reading(),
        adverse_selection_bps: env.adverse_selection_bps.reading(),
        min_net_edge_bps: env.min_net_edge_bps.reading(),
        max_copy_price_drift_bps: env.max_copy_price_drift_bps.reading(),
        max_order_slippage_bps: env.max_order_slippage_bps.reading(),
        daily_loss_limit_usdc: env.daily_loss_limit_usdc.reading(),
        max_consecutive_losses: usize_reading(env.max_consecutive_losses),
        max_notional_per_market_usdc: env.max_notional_per_market_usdc.reading(),
        private_key: optional_text(env.private_key),
        address: optional_text(env.address),
        api_key: optional_text(env.api_key),
        api_secret: optional_text(env.api_secret),
        api_passphrase: optional_text(env.api_passphrase),
    }
}

/// The value of a setting, or its default.
pub open spec fn chosen<T>(reading: Reading<T>, default: T) -> T {
    match reading {
        Reading::Value(v) => v,
        _ => default,
    }
}

/// The first problem, or that of a setting that is no value or cannot be read.
pub open spec fn or_unusable<T>(
    problem: Option<Seq<char>>,
    reading: Reading<T>,
    key: Seq<char>,
) -> Option<Seq<char>> {
    if problem is Some {
        problem
    } else {
        match reading {
            Reading::Invalid(why) => Some("Invalid env var "@ + key + ": "@ + why),
            Reading::Unreadable(why) => Some("Failed reading env var "@ + key + ": "@ + why),
            _ => None,
        }
    }
}

/// The first problem, or that of a demand that is not met.
pub open spec fn or_unmet(
    problem: Option<Seq<char>>,
    met: bool,
    key: Seq<char>,
    demand: Seq<char>,
) -> Option<Seq<char>> {
    if problem is None && !met {
        Some(key + demand)
    } else {
        problem
    }
}

/// The first problem, or that of a credential that is needed and not set.
pub open spec fn or_missing(
    problem: Option<Seq<char>>,
    needed: bool,
    credential: Option<Seq<char>>,
    key: Seq<char>,
) -> Option<Seq<char>> {
    if problem is None && needed && credential is None {
        Some("Missing required env var: "@ + key)
    } else {
        problem
    }
}

/// Whether a number lies between two whole numbers.
pub open spec fn within(x: Double, low: nat, high: nat) -> bool {
    fraction(low, 1).at_most(x) && x.at_most(fraction(high, 1))
}

/// Whether this is a number greater than zero.
pub open spec fn exceeds_zero(x: Double) -> bool {
    fraction(0, 1).below(x)
}

/// A text without the white space around it, if anything is left.
pub open spec fn significant(text: Option<Seq<char>>) -> Option<Seq<char>> {
    match text {
        Some(t) => if trimmed_text(t).len() == 0 {
            None
        } else {
            Some(trimmed_text(t))
        },
        None => None,
    }
}

/// The first problem, or the first of the settings for
/// the mode, the universe, alerts and state files.
pub open spec fn or_service(problem: Option<Seq<char>>, found: Readings) -> Option<Seq<char>> {
    let p = problem;
    let p = or_unusable(p, found.dry_run, "DRY_RUN"@);
    let p = or_unusable(p, found.leaderboard_fetch_size, "LEADERBOARD_FETCH_SIZE"@);
    let p = or_unmet(
        p,
        1 <= chosen(found.leaderboard_fetch_size, 50i32) && chosen(found.leaderboard_fetch_size, 50i32) <= 50,
        "LEADERBOARD_FETCH_SIZE"@,
        " must be between 1 and 50"@,
    );
    let p = or_unusable(p, found.max_whales, "MAX_WHALES"@);
    let p = or_unmet(
        p,
        chosen(found.max_whales, 10usize) != 0 && chosen(found.max_whales, 10usize) <= 10,
        "MAX_WHALES"@,
        " must be between 1 and 10"@,
    );
    let p = or_unusable(p, found.skip_alert_1h_threshold, "SKIP_ALERT_1H_THRESHOLD"@);
    let p = or_unmet(
        p,
        chosen(found.skip_alert_1h_threshold, 25usize) != 0,
        "SKIP_ALERT_1H_THRESHOLD"@,
        " must be >= 1"@,
    );
    let p = or_unusable(p, found.skip_alert_cooldown_secs, "SKIP_ALERT_COOLDOWN_SECS"@);
    let p = or_unmet(
        p,
        chosen(found.skip_alert_cooldown_secs, 900u64) != 0,
        "SKIP_ALERT_COOLDOWN_SECS"@,
        " must be >= 1"@,
    );
    let p = or_unusable(p, found.skip_alert_eval_interval_secs, "SKIP_ALERT_EVAL_INTERVAL_SECS"@);
    let p = or_unmet(
        p,
        chosen(found.skip_alert_eval_interval_secs, 60u64) != 0,
        "SKIP_ALERT_EVAL_INTERVAL_SECS"@,
        " must be >= 1"@,
    );
    let p = or_unusable(p, found.skip_alert_max_retries, "SKIP_ALERT_MAX_RETRIES"@);
    let p = or_unmet(
        p,
        chosen(found.skip_alert_max_retries, 3usize) <= 10,
        "SKIP_ALERT_MAX_RETRIES"@,
        " must be between 0 and 10"@,
    );
    let p = or_unusable(p, found.skip_alert_retry_backoff_ms, "SKIP_ALERT_RETRY_BACKOFF_MS"@);
    let p = or_unmet(
        p,
        chosen(found.skip_alert_retry_backoff_ms, 500u64) != 0,
        "SKIP_ALERT_RETRY_BACKOFF_MS"@,
        " must be >= 1"@,
    );
    let p = or_unusable(p, found.state_dir, "STATE_DIR"@);
    let p = or_unmet(
        p,
        trimmed_text(chosen(found.state_dir, ".runtime"@)).len() > 0,
        "STATE_DIR"@,
        " cannot be empty"@,
    );
    let p = or_unusable(p, found.state_flush_interval_secs, "STATE_FLUSH_INTERVAL_SECS"@);
    let p = or_unmet(
        p,
        chosen(found.state_flush_interval_secs, 30u64) != 0,
        "STATE_FLUSH_INTERVAL_SECS"@,
        " must be >= 1"@,
    );
    let p = or_unusable(p, found.account_sync_interval_secs, "ACCOUNT_SYNC_INTERVAL_SECS"@);
    let p = or_unmet(
        p,
        chosen(found.account_sync_interval_secs, 120u64) != 0,
        "ACCOUNT_SYNC_INTERVAL_SECS"@,
        " must be >= 1"@,
    );
    p
}

/// The first problem, or the first of the settings for
/// sizing, investigation and polling.
pub open spec fn or_sizing(problem: Option<Seq<char>>, found: Readings) -> Option<Seq<char>> {
    let p = problem;
    let p = or_unusable(p, found.kelly_fraction, "KELLY_FRACTION"@);
    let p = or_unmet(
        p,
        within(chosen(found.kelly_fraction, fraction(1, 2)), 0, 1),
        "KELLY_FRACTION"@,
        " must be between 0.0 and 1.0"@,
    );
    let p = or_unusable(p, found.max_position_fraction, "MAX_POSITION_FRACTION"@);
    let p = or_unmet(
        p,
        within(chosen(found.max_position_fraction, fraction(20, 100)), 0, 1),
        "MAX_POSITION_FRACTION"@,
        " must be between 0.0 and 1.0"@,
    );
    let p = or_unusable(p, found.dry_run_balance_usdc, "DRY_RUN_BALANCE_USDC"@);
    let p = or_unmet(
        p,
        exceeds_zero(chosen(found.dry_run_balance_usdc, fraction(100, 1))),
        "DRY_RUN_BALANCE_USDC"@,
        " must be > 0"@,
    );
    let p = or_unusable(p, found.min_resolved_trades, "MIN_RESOLVED_TRADES"@);
    let p = or_unmet(
        p,
        chosen(found.min_resolved_trades, 10i32) > 0,
        "MIN_RESOLVED_TRADES"@,
        " must be > 0"@,
    );
    let p = or_unusable(p, found.investigation_interval_secs, "INVESTIGATION_INTERVAL_SECS"@);
    let p = or_unmet(
        p,
        chosen(found.investigation_interval_secs, 3600u64) != 0,
        "INVESTIGATION_INTERVAL_SECS"@,
        " must be >= 1"@,
    );
    let p = or_unusable(p, found.bankroll_usdc, "BANKROLL_USDC"@);
    let p = or_unmet(
        p,
        exceeds_zero(chosen(found.bankroll_usdc, fraction(1000, 1))),
        "BANKROLL_USDC"@,
        " must be > 0"@,
    );
    let p = or_unusable(p, found.poll_interval_secs, "POLL_INTERVAL_SECS"@);
    let p = or_unmet(
        p,
        chosen(found.poll_interval_secs, 30u64) != 0,
        "POLL_INTERVAL_SECS"@,
        " must be >= 1"@,
    );
    let p = or_unusable(p, found.bayes_prior_alpha, "BAYES_PRIOR_ALPHA"@);
    let p = or_unmet(
        p,
        exceeds_zero(chosen(found.bayes_prior_alpha, fraction(2, 1))),
        "BAYES_PRIOR_ALPHA"@,
        " must be > 0"@,
    );
    let p = or_unusable(p, found.bayes_prior_beta, "BAYES_PRIOR_BETA"@);
    let p = or_unmet(
        p,
        exceeds_zero(chosen(found.bayes_prior_beta, fraction(2, 1))),
        "BAYES_PRIOR_BETA"@,
        " must be > 0"@,
    );
    let p = or_unusable(p, found.bayes_confidence_z, "BAYES_CONFIDENCE_Z"@);
    let p = or_unmet(
        p,
        within(chosen(found.bayes_confidence_z, fraction(164, 100)), 0, 4),
        "BAYES_CONFIDENCE_Z"@,
        " must be between 0.0 and 4.0"@,
    );
    p
}

/// The first problem, or the first of the settings for
/// costs, guards and risk limits.
pub open spec fn or_risk(problem: Option<Seq<char>>, found: Readings) -> Option<Seq<char>> {
    let p = problem;
    let p = or_unusable(p, found.estimated_fee_bps, "ESTIMATED_FEE_BPS"@);
    let p = or_unusable(p, found.estimated_slippage_bps, "ESTIMATED_SLIPPAGE_BPS"@);
    let p = or_unusable(p, found.adverse_selection_bps, "ADVERSE_SELECTION_BPS"@);
    let p = or_unusable(p, found.min_net_edge_bps, "MIN_NET_EDGE_BPS"@);
    let p = or_unusable(p, found.max_copy_price_drift_bps, "MAX_COPY_PRICE_DRIFT_BPS"@);
    let p = or_unusable(p, found.max_order_slippage_bps, "MAX_ORDER_SLIPPAGE_BPS"@);
    let p = or_unusable(p, found.daily_loss_limit_usdc, "DAILY_LOSS_LIMIT_USDC"@);
    let p = or_unmet(
        p,
        exceeds_zero(chosen(found.daily_loss_limit_usdc, fraction(150, 1))),
        "DAILY_LOSS_LIMIT_USDC"@,
        " must be > 0"@,
    );
    let p = or_unusable(p, found.max_consecutive_losses, "MAX_CONSECUTIVE_LOSSES"@);
    let p = or_unmet(
        p,
        chosen(found.max_consecutive_losses, 8usize) != 0,
        "MAX_CONSECUTIVE_LOSSES"@,
        " must be >= 1"@,
    );
    let p = or_unusable(p, found.max_notional_per_market_usdc, "MAX_NOTIONAL_PER_MARKET_USDC"@);
    let p = or_unmet(
        p,
        exceeds_zero(chosen(found.max_notional_per_market_usdc, fraction(350, 1))),
        "MAX_NOTIONAL_PER_MARKET_USDC"@,
        " must be > 0"@,
    );
    p
}

/// The first problem, or the first of the costs and guards that are out of range.
pub open spec fn or_range(problem: Option<Seq<char>>, found: Readings) -> Option<Seq<char>> {
    let p = problem;
    let p = or_unmet(
        p,
        within(chosen(found.estimated_fee_bps, fraction(20, 1)), 0, 5000),
        "ESTIMATED_FEE_BPS"@,
        " must be between 0 and 5000 bps"@,
    );
    let p = or_unmet(
        p,
        within(chosen(found.estimated_slippage_bps, fraction(25, 1)), 0, 5000),
        "ESTIMATED_SLIPPAGE_BPS"@,
        " must be between 0 and 5000 bps"@,
    );
    let p = or_unmet(
        p,
        within(chosen(found.adverse_selection_bps, fraction(10, 1)), 0, 5000),
        "ADVERSE_SELECTION_BPS"@,
        " must be between 0 and 5000 bps"@,
    );
    let p = or_unmet(
        p,
        within(chosen(found.min_net_edge_bps, fraction(15, 1)), 0, 5000),
        "MIN_NET_EDGE_BPS"@,
        " must be between 0 and 5000 bps"@,
    );
    let p = or_unmet(
        p,
        within(chosen(found.max_copy_price_drift_bps, fraction(150, 1)), 0, 5000),
        "MAX_COPY_PRICE_DRIFT_BPS"@,
        " must be between 0 and 5000 bps"@,
    );
    let p = or_unmet(
        p,
        within(chosen(found.max_order_slippage_bps, fraction(80, 1)), 0, 5000),
        "MAX_ORDER_SLIPPAGE_BPS"@,
        " must be between 0 and 5000 bps"@,
    );
    p
}

/// The first problem, or the first of the credentials; they are needed unless
/// trades are only simulated.
pub open spec fn or_credentials(problem: Option<Seq<char>>, found: Readings) -> Option<Seq<char>> {
    let p = problem;
    let live = !chosen(found.dry_run, false);
    let p = or_missing(p, live, found.private_key, "POLYMARKET_PRIVATE_KEY"@);
    let p = or_missing(p, live, found.address, "POLYMARKET_ADDRESS"@);
    let p = or_missing(p, live, found.api_key, "POLYMARKET_API_KEY"@);
    let p = or_missing(p, live, found.api_secret, "POLYMARKET_API_SECRET"@);
    let p = or_missing(p, live, found.api_passphrase, "POLYMARKET_API_PASSPHRASE"@);
    p
}

/// The first thing that is wrong with the settings, in the order in which they
/// are looked at.
pub open spec fn first_problem(env: Environment) -> Option<Seq<char>> {
    let found = readings(env);
    let p = or_service(None, found);
    let p = or_sizing(p, found);
    let p = or_risk(p, found);
    let p = or_range(p, found);
    let p = or_credentials(p, found);
    or_unusable(p, found.dashboard_port, "DASHBOARD_PORT"@)
}

/// The text of a credential; empty if it is not set.
pub open spec fn text_or_empty(text: Option<Seq<char>>) -> Seq<char> {
    match text {
        Some(t) => t,
        None => Seq::empty(),
    }
}

/// Whether the settings are those that were found, with defaults for the rest.
pub open spec fn settled(env: Environment, config: Config) -> bool {
    let found = readings(env);
    &&& config.dry_run == chosen(found.dry_run, false)
    &&& config.dry_run_balance_usdc == chosen(found.dry_run_balance_usdc, fraction(100, 1))
    &&& config.dashboard_port == chosen(found.dashboard_port, 8080u16)
    &&& optional_text(config.skip_alert_webhook_url) == significant(found.skip_alert_webhook_url)
    &&& config.skip_alert_1h_threshold == chosen(found.skip_alert_1h_threshold, 25usize)
    &&& config.skip_alert_cooldown_secs == chosen(found.skip_alert_cooldown_secs, 900u64)
    &&& config.skip_alert_eval_interval_secs == chosen(found.skip_alert_eval_interval_secs, 60u64)
    &&& optional_text(config.skip_alert_hmac_secret) == significant(found.skip_alert_hmac_secret)
    &&& config.skip_alert_max_retries == chosen(found.skip_alert_max_retries, 3usize)
    &&& config.skip_alert_retry_backoff_ms == chosen(found.skip_alert_retry_backoff_ms, 500u64)
    &&& config.state_dir@ == chosen(found.state_dir, ".runtime"@)
    &&& config.state_flush_interval_secs == chosen(found.state_flush_interval_secs, 30u64)
    &&& config.account_sync_interval_secs == chosen(found.account_sync_interval_secs, 120u64)
    &&& config.leaderboard_fetch_size == chosen(found.leaderboard_fetch_size, 50i32)
    &&& config.max_whales == chosen(found.max_whales, 10usize)
    &&& config.min_resolved_trades == chosen(found.min_resolved_trades, 10i32)
    &&& config.investigation_interval_secs == chosen(found.investigation_interval_secs, 3600u64)
    &&& config.bayes_prior_alpha == chosen(found.bayes_prior_alpha, fraction(2, 1))
    &&& config.bayes_prior_beta == chosen(found.bayes_prior_beta, fraction(2, 1))
    &&& config.bayes_confidence_z == chosen(found.bayes_confidence_z, fraction(164, 100))
    &&& config.bankroll_usdc == chosen(found.bankroll_usdc, fraction(1000, 1))
    &&& config.kelly_fraction == chosen(found.kelly_fraction, fraction(1, 2))
    &&& config.max_position_fraction == chosen(found.max_position_fraction, fraction(20, 100))
    &&& config.poll_interval_secs == chosen(found.poll_interval_secs, 30u64)
    &&& config.estimated_fee_bps == chosen(found.estimated_fee_bps, fraction(20, 1))
    &&& config.estimated_slippage_bps == chosen(found.estimated_slippage_bps, fraction(25, 1))
    &&& config.adverse_selection_bps == chosen(found.adverse_selection_bps, fraction(10, 1))
    &&& config.min_net_edge_bps == chosen(found.min_net_edge_bps, fraction(15, 1))
    &&& config.max_copy_price_drift_bps == chosen(found.max_copy_price_drift_bps, fraction(150, 1))
    &&& config.max_order_slippage_bps == chosen(found.max_order_slippage_bps, fraction(80, 1))
    &&& config.daily_loss_limit_usdc == chosen(found.daily_loss_limit_usdc, fraction(150, 1))
    &&& config.max_consecutive_losses == chosen(found.max_consecutive_losses, 8usize)
    &&& config.max_notional_per_market_usdc == chosen(
        found.max_notional_per_market_usdc,
        fraction(350, 1),
    )
    &&& config.private_key@ == text_or_empty(found.private_key)
    &&& config.address@ == text_or_empty(found.address)
}

/// Whether every setting lies within its bounds.
pub open spec fn sound(config: Config) -> bool {
    &&& 1 <= config.leaderboard_fetch_size <= 50
    &&& 1 <= config.max_whales <= 10
    &&& config.skip_alert_1h_threshold >= 1
    &&& config.skip_alert_cooldown_secs >= 1
    &&& config.skip_alert_eval_interval_secs >= 1
    &&& config.skip_alert_max_retries <= 10
    &&& config.skip_alert_retry_backoff_ms >= 1
    &&& trimmed_text(config.state_dir@).len() > 0
    &&& config.state_flush_interval_secs >= 1
    &&& config.account_sync_interval_secs >= 1
    &&& within(config.kelly_fraction, 0, 1)
    &&& within(config.max_position_fraction, 0, 1)
    &&& exceeds_zero(config.dry_run_balance_usdc)
    &&& config.min_resolved_trades >= 1
    &&& config.investigation_interval_secs >= 1
    &&& exceeds_zero(config.bankroll_usdc)
    &&& config.poll_interval_secs >= 1
    &&& exceeds_zero(config.bayes_prior_alpha)
    &&& exceeds_zero(config.bayes_prior_beta)
    &&& within(config.bayes_confidence_z, 0, 4)
    &&& within(config.estimated_fee_bps, 0, 5000)
    &&& within(config.estimated_slippage_bps, 0, 5000)
    &&& within(config.adverse_selection_bps, 0, 5000)
    &&& within(config.min_net_edge_bps, 0, 5000)
    &&& within(config.max_copy_price_drift_bps, 0, 5000)
    &&& within(config.max_order_slippage_bps, 0, 5000)
    &&& exceeds_zero(config.daily_loss_limit_usdc)
    &&& config.max_consecutive_losses >= 1
    &&& exceeds_zero(config.max_notional_per_market_usdc)
}

/// Settings that are accepted lie within their bounds.
pub proof fn accepted_settings_are_sound(env: Environment, config: Config)
    requires
        first_problem(env) is None,
        settled(env, config),
    ensures
        sound(config),
{
    let found = readings(env);
    let service = or_service(None, found);
    let sizing = or_sizing(service, found);
    let risk = or_risk(sizing, found);
    let range = or_range(risk, found);
    assert(or_credentials(range, found) is None);
    assert(range is None);
    assert(risk is None);
    assert(sizing is None);
    assert(service is None);
}

/// Live trading is accepted only with every credential.
pub proof fn live_trading_needs_credentials(env: Environment)
    requires
        first_problem(env) is None,
        !chosen(readings(env).dry_run, false),
    ensures
        env.private_key is Some,
        env.address is Some,
        env.api_key is Some,
        env.api_secret is Some,
        env.api_passphrase is Some,
{
}

/// The value of a setting, or its default.
fn value_or<T: Copy>(var: &Var<T>, default: T) -> (r: T)
    ensures
        r == chosen(var.reading(), default),
{
    match var {
        Var::Value(v) => *v,
        _ => default,
    }
}

/// Notes that a setting is no value or cannot be read.
fn note_unusable<T>(problem: &mut Option<String>, var: &Var<T>, key: &str)
    ensures
        optional_text(*final(problem)) == or_unusable(
            optional_text(*old(problem)),
            var.reading(),
            key@,
        ),
{
    if problem.is_some() {
        return;
    }
    match var {
        Var::Invalid(why) => {
            let mut message = "Invalid env var ".to_owned();
            message.append(key);
            message.append(": ");
            message.append(why.as_str());
            *problem = Some(message);
        },
        Var::Unreadable(why) => {
            let mut message = "Failed reading env var ".to_owned();
            message.append(key);
            message.append(": ");
            message.append(why.as_str());
            *problem = Some(message);
        },
        _ => {},
    }
}

/// Notes that a demand is not met.
fn note_unmet(problem: &mut Option<String>, met: bool, key: &str, demand: &str)
    ensures
        optional_text(*final(problem)) == or_unmet(optional_text(*old(problem)), met, key@, demand@),
{
    if problem.is_none() && !met {
        let mut message = key.to_owned();
        message.append(demand);
        *problem = Some(message);
    }
}

/// Notes that a credential is needed and not set.
fn note_missing(problem: &mut Option<String>, needed: bool, credential: &Option<String>, key: &str)
    ensures
        optional_text(*final(problem)) == or_missing(
            optional_text(*old(problem)),
            needed,
            optional_text(*credential),
            key@,
        ),
{
    if problem.is_none() && needed && credential.is_none() {
        let mut message = "Missing required env var: ".to_owned();
        message.append(key);
        *problem = Some(message);
    }
}

/// Whether a number lies between two whole numbers.
fn is_within(x: Double, low: u64, high: u64) -> (r: bool)
    ensures
        r == within(x, low as nat, high as nat),
{
    Double::whole(low).le(x) && x.le(Double::whole(high))
}

/// Whether this is a number greater than zero.
fn is_positive(x: Double) -> (r: bool)
    ensures
        r == exceeds_zero(x),
{
    Double::whole(0).lt(x)
}

/// A text without the white space around it, if anything is left.
fn significant_text(text: &Option<String>) -> (r: Option<String>)
    ensures
        optional_text(r) == significant(optional_text(*text)),
{
    match text {
        Some(t) => {
            let rest = trimmed(t.as_str());
            if rest.as_str().unicode_len() == 0 {
                None
            } else {
                Some(rest)
            }
        },
        None => None,
    }
}

/// The text of a credential; empty if it is not set.
fn text_or_default(text: &Option<String>) -> (r: String)
    ensures
        r@ == text_or_empty(optional_text(*text)),
{
    match text {
        Some(t) => t.clone(),
        None => String::new(),
    }
}

/// The directory of the state files.
fn state_dir(env: &Environment) -> (r: String)
    ensures
        r@ == chosen(text_reading(env.state_dir), ".runtime"@),
{
    match &env.state_dir {
        Var::Value(v) => v.clone(),
        _ => ".runtime".to_owned(),
    }
}

/// The settings that are whole numbers or switches, read from their texts.
struct Parsed {
    dry_run: Var<bool>,
    dashboard_port: Var<u16>,
    skip_alert_1h_threshold: Var<usize>,
    skip_alert_cooldown_secs: Var<u64>,
    skip_alert_eval_interval_secs: Var<u64>,
    skip_alert_max_retries: Var<usize>,
    skip_alert_retry_backoff_ms: Var<u64>,
    state_flush_interval_secs: Var<u64>,
    account_sync_interval_secs: Var<u64>,
    leaderboard_fetch_size: Var<i32>,
    max_whales: Var<usize>,
    min_resolved_trades: Var<i32>,
    investigation_interval_secs: Var<u64>,
    poll_interval_secs: Var<u64>,
    max_consecutive_losses: Var<usize>,
}

impl Parsed {
    /// Whether these are the settings of an environment.
    spec fn of(self, env: Environment) -> bool {
        let found = readings(env);
        &&& self.dry_run.reading() == found.dry_run
        &&& self.dashboard_port.reading() == found.dashboard_port
        &&& self.skip_alert_1h_threshold.reading() == found.skip_alert_1h_threshold
        &&& self.skip_alert_cooldown_secs.reading() == found.skip_alert_cooldown_secs
        &&& self.skip_alert_eval_interval_secs.reading() == found.skip_alert_eval_interval_secs
        &&& self.skip_alert_max_retries.reading() == found.skip_alert_max_retries
        &&& self.skip_alert_retry_backoff_ms.reading() == found.skip_alert_retry_backoff_ms
        &&& self.state_flush_interval_secs.reading() == found.state_flush_interval_secs
        &&& self.account_sync_interval_secs.reading() == found.account_sync_interval_secs
        &&& self.leaderboard_fetch_size.reading() == found.leaderboard_fetch_size
        &&& self.max_whales.reading() == found.max_whales
        &&& self.min_resolved_trades.reading() == found.min_resolved_trades
        &&& self.investigation_interval_secs.reading() == found.investigation_interval_secs
        &&& self.poll_interval_secs.reading() == found.poll_interval_secs
        &&& self.max_consecutive_losses.reading() == found.max_consecutive_losses
    }
}

/// Reads a switch.
fn read_switch(var: &Var<String>) -> (r: Var<bool>)
    ensures
        r.reading() == switch_reading(*var),
{
    match var {
        Var::Absent => Var::Absent,
        Var::Value(text) => if same(text.as_str(), "true") {
            Var::Value(true)
        } else if same(text.as_str(), "false") {
            Var::Value(false)
        } else {
            Var::Invalid("provided string was not `true` or `false`".to_owned())
        },
        Var::Invalid(why) => Var::Invalid(why.clone()),
        Var::Unreadable(why) => Var::Unreadable(why.clone()),
    }
}

/// Reads a natural number up to a greatest one.
fn read_natural(var: &Var<String>, greatest: u64) -> (r: Var<u64>)
    ensures
        match natural_reading(*var, greatest as nat) {
            Reading::Absent => r.reading() is Absent,
            Reading::Value(n) => n <= greatest && r.reading() == Reading::Value(n as u64),
            Reading::Invalid(why) => r.reading() == Reading::<u64>::Invalid(why),
            Reading::Unreadable(why) => r.reading() == Reading::<u64>::Unreadable(why),
        },
{
    match var {
        Var::Absent => Var::Absent,
        Var::Value(text) => match parse_natural(text.as_str(), greatest) {
            Ok(n) => Var::Value(n),
            Err(e) => Var::Invalid(e.text().to_owned()),
        },
        Var::Invalid(why) => Var::Invalid(why.clone()),
        Var::Unreadable(why) => Var::Unreadable(why.clone()),
    }
}

/// Reads a natural number of 64 bits.
fn read_u64(var: &Var<String>) -> (r: Var<u64>)
    ensures
        r.reading() == u64_reading(*var),
{
    read_natural(var, u64::MAX)
}

/// Reads a natural number of the size of an address.
fn read_usize(var: &Var<String>) -> (r: Var<usize>)
    ensures
        r.reading() == usize_reading(*var),
{
    match read_natural(var, usize::MAX as u64) {
        Var::Absent => Var::Absent,
        Var::Value(n) => Var::Value(n as usize),
        Var::Invalid(why) => Var::Invalid(why),
        Var::Unreadable(why) => Var::Unreadable(why),
    }
}

/// Reads a natural number of 16 bits.
fn read_u16(var: &Var<String>) -> (r: Var<u16>)
    ensures
        r.reading() == u16_reading(*var),
{
    match read_natural(var, u16::MAX as u64) {
        Var::Absent => Var::Absent,
        Var::Value(n) => Var::Value(n as u16),
        Var::Invalid(why) => Var::Invalid(why),
        Var::Unreadable(why) => Var::Unreadable(why),
    }
}

/// Reads a whole number.
fn read_i32(var: &Var<String>) -> (r: Var<i32>)
    ensures
        r.reading() == i32_reading(*var),
{
    match var {
        Var::Absent => Var::Absent,
        Var::Value(text) => match parse_integer(text.as_str()) {
            Ok(n) => Var::Value(n),
            Err(e) => Var::Invalid(e.text().to_owned()),
        },
        Var::Invalid(why) => Var::Invalid(why.clone()),
        Var::Unreadable(why) => Var::Unreadable(why.clone()),
    }
}

/// Reads the settings that are whole numbers or switches.
fn parse(env: &Environment) -> (r: Parsed)
    ensures
        r.of(*env),
{
    Parsed {
        dry_run: read_switch(&env.dry_run),
        dashboard_port: read_u16(&env.dashboard_port),
        skip_alert_1h_threshold: read_usize(&env.skip_alert_1h_threshold),
        skip_alert_cooldown_secs: read_u64(&env.skip_alert_cooldown_secs),
        skip_alert_eval_interval_secs: read_u64(&env.skip_alert_eval_interval_secs),
        skip_alert_max_retries: read_usize(&env.skip_alert_max_retries),
        skip_alert_retry_backoff_ms: read_u64(&env.skip_alert_retry_backoff_ms),
        state_flush_interval_secs: read_u64(&env.state_flush_interval_secs),
        account_sync_interval_secs: read_u64(&env.account_sync_interval_secs),
        leaderboard_fetch_size: read_i32(&env.leaderboard_fetch_size),
        max_whales: read_usize(&env.max_whales),
        min_resolved_trades: read_i32(&env.min_resolved_trades),
        investigation_interval_secs: read_u64(&env.investigation_interval_secs),
        poll_interval_secs: read_u64(&env.poll_interval_secs),
        max_consecutive_losses: read_usize(&env.max_consecutive_losses),
    }
}

/// Notes what is wrong with the settings for the mode, the universe, alerts and
/// state files.
fn note_service(problem: &mut Option<String>, env: &Environment, parsed: &Parsed)
    requires
        parsed.of(*env),
    ensures
        optional_text(*final(problem)) == or_service(optional_text(*old(problem)), readings(*env)),
{
    note_unusable(problem, &parsed.dry_run, "DRY_RUN");
    note_unusable(problem, &parsed.leaderboard_fetch_size, "LEADERBOARD_FETCH_SIZE");
    let leaderboard_fetch_size: i32 = value_or(&parsed.leaderboard_fetch_size, 50);
    note_unmet(
        problem,
        1 <= leaderboard_fetch_size && leaderboard_fetch_size <= 50,
        "LEADERBOARD_FETCH_SIZE",
        " must be between 1 and 50",
    );
    note_unusable(problem, &parsed.max_whales, "MAX_WHALES");
    let max_whales: usize = value_or(&parsed.max_whales, 10);
    note_unmet(
        problem,
        max_whales != 0 && max_whales <= 10,
        "MAX_WHALES",
        " must be between 1 and 10",
    );
    note_unusable(problem, &parsed.skip_alert_1h_threshold, "SKIP_ALERT_1H_THRESHOLD");
    let skip_alert_1h_threshold: usize = value_or(&parsed.skip_alert_1h_threshold, 25);
    note_unmet(problem, skip_alert_1h_threshold != 0, "SKIP_ALERT_1H_THRESHOLD", " must be >= 1");
    note_unusable(problem, &parsed.skip_alert_cooldown_secs, "SKIP_ALERT_COOLDOWN_SECS");
    let skip_alert_cooldown_secs: u64 = value_or(&parsed.skip_alert_cooldown_secs, 900);
    note_unmet(problem, skip_alert_cooldown_secs != 0, "SKIP_ALERT_COOLDOWN_SECS", " must be >= 1");
    note_unusable(problem, &parsed.skip_alert_eval_interval_secs, "SKIP_ALERT_EVAL_INTERVAL_SECS");
    let skip_alert_eval_interval_secs: u64 = value_or(&parsed.skip_alert_eval_interval_secs, 60);
    note_unmet(
        problem,
        skip_alert_eval_interval_secs != 0,
        "SKIP_ALERT_EVAL_INTERVAL_SECS",
        " must be >= 1",
    );
    note_unusable(problem, &parsed.skip_alert_max_retries, "SKIP_ALERT_MAX_RETRIES");
    let skip_alert_max_retries: usize = value_or(&parsed.skip_alert_max_retries, 3);
    note_unmet(
        problem,
        skip_alert_max_retries <= 10,
        "SKIP_ALERT_MAX_RETRIES",
        " must be between 0 and 10",
    );
    note_unusable(problem, &parsed.skip_alert_retry_backoff_ms, "SKIP_ALERT_RETRY_BACKOFF_MS");
    let skip_alert_retry_backoff_ms: u64 = value_or(&parsed.skip_alert_retry_backoff_ms, 500);
    note_unmet(
        problem,
        skip_alert_retry_backoff_ms != 0,
        "SKIP_ALERT_RETRY_BACKOFF_MS",
        " must be >= 1",
    );
    note_unusable(problem, &env.state_dir, "STATE_DIR");
    let state_dir = state_dir(env);
    note_unmet(
        problem,
        trimmed(state_dir.as_str()).as_str().unicode_len() > 0,
        "STATE_DIR",
        " cannot be empty",
    );
    note_unusable(problem, &parsed.state_flush_interval_secs, "STATE_FLUSH_INTERVAL_SECS");
    let state_flush_interval_secs: u64 = value_or(&parsed.state_flush_interval_secs, 30);
    note_unmet(
        problem,
        state_flush_interval_secs != 0,
        "STATE_FLUSH_INTERVAL_SECS",
        " must be >= 1",
    );
    note_unusable(problem, &parsed.account_sync_interval_secs, "ACCOUNT_SYNC_INTERVAL_SECS");
    let account_sync_interval_secs: u64 = value_or(&parsed.account_sync_interval_secs, 120);
    note_unmet(
        problem,
        account_sync_interval_secs != 0,
        "ACCOUNT_SYNC_INTERVAL_SECS",
        " must be >= 1",
    );
}

/// Notes what is wrong with the settings for sizing, investigation and polling.
fn note_sizing(problem: &mut Option<String>, env: &Environment, parsed: &Parsed)
    requires
        parsed.of(*env),
    ensures
        optional_text(*final(problem)) == or_sizing(optional_text(*old(problem)), readings(*env)),
{
    note_unusable(problem, &env.kelly_fraction, "KELLY_FRACTION");
    let kelly_fraction = value_or(&env.kelly_fraction, Double::ratio(1, 2));
    note_unmet(
        problem,
        is_within(kelly_fraction, 0, 1),
        "KELLY_FRACTION",
        " must be between 0.0 and 1.0",
    );
    note_unusable(problem, &env.max_position_fraction, "MAX_POSITION_FRACTION");
    let max_position_fraction = value_or(&env.max_position_fraction, Double::ratio(20, 100));
    note_unmet(
        problem,
        is_within(max_position_fraction, 0, 1),
        "MAX_POSITION_FRACTION",
        " must be between 0.0 and 1.0",
    );
    note_unusable(problem, &env.dry_run_balance_usdc, "DRY_RUN_BALANCE_USDC");
    let dry_run_balance_usdc = value_or(&env.dry_run_balance_usdc, Double::whole(100));
    note_unmet(problem, is_positive(dry_run_balance_usdc), "DRY_RUN_BALANCE_USDC", " must be > 0");
    note_unusable(problem, &parsed.min_resolved_trades, "MIN_RESOLVED_TRADES");
    let min_resolved_trades: i32 = value_or(&parsed.min_resolved_trades, 10);
    note_unmet(problem, min_resolved_trades > 0, "MIN_RESOLVED_TRADES", " must be > 0");
    note_unusable(problem, &parsed.investigation_interval_secs, "INVESTIGATION_INTERVAL_SECS");
    let investigation_interval_secs: u64 = value_or(&parsed.investigation_interval_secs, 3600);
    note_unmet(
        problem,
        investigation_interval_secs != 0,
        "INVESTIGATION_INTERVAL_SECS",
        " must be >= 1",
    );
    note_unusable(problem, &env.bankroll_usdc, "BANKROLL_USDC");
    let bankroll_usdc = value_or(&env.bankroll_usdc, Double::whole(1000));
    note_unmet(problem, is_positive(bankroll_usdc), "BANKROLL_USDC", " must be > 0");
    note_unusable(problem, &parsed.poll_interval_secs, "POLL_INTERVAL_SECS");
    let poll_interval_secs: u64 = value_or(&parsed.poll_interval_secs, 30);
    note_unmet(problem, poll_interval_secs != 0, "POLL_INTERVAL_SECS", " must be >= 1");
    note_unusable(problem, &env.bayes_prior_alpha, "BAYES_PRIOR_ALPHA");
    let bayes_prior_alpha = value_or(&env.bayes_prior_alpha, Double::whole(2));
    note_unmet(problem, is_positive(bayes_prior_alpha), "BAYES_PRIOR_ALPHA", " must be > 0");
    note_unusable(problem, &env.bayes_prior_beta, "BAYES_PRIOR_BETA");
    let bayes_prior_beta = value_or(&env.bayes_prior_beta, Double::whole(2));
    note_unmet(problem, is_positive(bayes_prior_beta), "BAYES_PRIOR_BETA", " must be > 0");
    note_unusable(problem, &env.bayes_confidence_z, "BAYES_CONFIDENCE_Z");
    let bayes_confidence_z = value_or(&env.bayes_confidence_z, Double::ratio(164, 100));
    note_unmet(
        problem,
        is_within(bayes_confidence_z, 0, 4),
        "BAYES_CONFIDENCE_Z",
        " must be between 0.0 and 4.0",
    );
}

/// Notes what is wrong with the settings for costs, guards and risk limits.
fn note_risk(problem: &mut Option<String>, env: &Environment, parsed: &Parsed)
    requires
        parsed.of(*env),
    ensures
        optional_text(*final(problem)) == or_risk(optional_text(*old(problem)), readings(*env)),
{
    note_unusable(problem, &env.estimated_fee_bps, "ESTIMATED_FEE_BPS");
    note_unusable(problem, &env.estimated_slippage_bps, "ESTIMATED_SLIPPAGE_BPS");
    note_unusable(problem, &env.adverse_selection_bps, "ADVERSE_SELECTION_BPS");
    note_unusable(problem, &env.min_net_edge_bps, "MIN_NET_EDGE_BPS");
    note_unusable(problem, &env.max_copy_price_drift_bps, "MAX_COPY_PRICE_DRIFT_BPS");
    note_unusable(problem, &env.max_order_slippage_bps, "MAX_ORDER_SLIPPAGE_BPS");
    note_unusable(problem, &env.daily_loss_limit_usdc, "DAILY_LOSS_LIMIT_USDC");
    let daily_loss_limit_usdc = value_or(&env.daily_loss_limit_usdc, Double::whole(150));
    note_unmet(
        problem,
        is_positive(daily_loss_limit_usdc),
        "DAILY_LOSS_LIMIT_USDC",
        " must be > 0",
    );
    note_unusable(problem, &parsed.max_consecutive_losses, "MAX_CONSECUTIVE_LOSSES");
    let max_consecutive_losses: usize = value_or(&parsed.max_consecutive_losses, 8);
    note_unmet(problem, max_consecutive_losses != 0, "MAX_CONSECUTIVE_LOSSES", " must be >= 1");
    note_unusable(problem, &env.max_notional_per_market_usdc, "MAX_NOTIONAL_PER_MARKET_USDC");
    let max_notional_per_market_usdc = value_or(
        &env.max_notional_per_market_usdc,
        Double::whole(350),
    );
    note_unmet(
        problem,
        is_positive(max_notional_per_market_usdc),
        "MAX_NOTIONAL_PER_MARKET_USDC",
        " must be > 0",
    );
}

/// Notes which costs and guards are out of range.
fn note_range(problem: &mut Option<String>, env: &Environment)
    ensures
        optional_text(*final(problem)) == or_range(optional_text(*old(problem)), readings(*env)),
{
    let estimated_fee_bps = value_or(&env.estimated_fee_bps, Double::whole(20));
    note_unmet(
        problem,
        is_within(estimated_fee_bps, 0, 5000),
        "ESTIMATED_FEE_BPS",
        " must be between 0 and 5000 bps",
    );
    let estimated_slippage_bps = value_or(&env.estimated_slippage_bps, Double::whole(25));
    note_unmet(
        problem,
        is_within(estimated_slippage_bps, 0, 5000),
        "ESTIMATED_SLIPPAGE_BPS",
        " must be between 0 and 5000 bps",
    );
    let adverse_selection_bps = value_or(&env.adverse_selection_bps, Double::whole(10));
    note_unmet(
        problem,
        is_within(adverse_selection_bps, 0, 5000),
        "ADVERSE_SELECTION_BPS",
        " must be between 0 and 5000 bps",
    );
    let min_net_edge_bps = value_or(&env.min_net_edge_bps, Double::whole(15));
    note_unmet(
        problem,
        is_within(min_net_edge_bps, 0, 5000),
        "MIN_NET_EDGE_BPS",
        " must be between 0 and 5000 bps",
    );
    let max_copy_price_drift_bps = value_or(&env.max_copy_price_drift_bps, Double::whole(150));
    note_unmet(
        problem,
        is_within(max_copy_price_drift_bps, 0, 5000),
        "MAX_COPY_PRICE_DRIFT_BPS",
        " must be between 0 and 5000 bps",
    );
    let max_order_slippage_bps = value_or(&env.max_order_slippage_bps, Double::whole(80));
    note_unmet(
        problem,
        is_within(max_order_slippage_bps, 0, 5000),
        "MAX_ORDER_SLIPPAGE_BPS",
        " must be between 0 and 5000 bps",
    );
}

/// Notes which credentials are missing.
fn note_credentials(problem: &mut Option<String>, env: &Environment, parsed: &Parsed)
    requires
        parsed.of(*env),
    ensures
        optional_text(*final(problem)) == or_credentials(optional_text(*old(problem)), readings(*env)),
{
    let live = !value_or(&parsed.dry_run, false);
    note_missing(problem, live, &env.private_key, "POLYMARKET_PRIVATE_KEY");
    note_missing(problem, live, &env.address, "POLYMARKET_ADDRESS");
    note_missing(problem, live, &env.api_key, "POLYMARKET_API_KEY");
    note_missing(problem, live, &env.api_secret, "POLYMARKET_API_SECRET");
    note_missing(problem, live, &env.api_passphrase, "POLYMARKET_API_PASSPHRASE");
}

/// The balance that the bot starts with: that of the simulation, or the bankroll.
pub open spec fn starting_balance(config: Config) -> Double {
    if config.dry_run {
        config.dry_run_balance_usdc
    } else {
        config.bankroll_usdc
    }
}

impl Config {
    /// The settings that were found, with defaults for those that are not set;
    /// or the first thing that is wrong with them. Credentials are needed for
    /// live trading only.
    pub fn from_env(env: &Environment) -> (r: Result<Config, String>)
        ensures
            match first_problem(*env) {
                Some(message) => r matches Err(m) && m@ == message,
                None => r matches Ok(config) && settled(*env, config),
            },
    {
        let parsed = parse(env);
        let mut p: Option<String> = None;
        note_service(&mut p, env, &parsed);
        note_sizing(&mut p, env, &parsed);
        note_risk(&mut p, env, &parsed);
        note_range(&mut p, env);
        note_credentials(&mut p, env, &parsed);
        note_unusable(&mut p, &parsed.dashboard_port, "DASHBOARD_PORT");
        if let Some(message) = p {
            return Err(message);
        }
        Ok(
            Config {
                dry_run: value_or(&parsed.dry_run, false),
                dry_run_balance_usdc: value_or(&env.dry_run_balance_usdc, Double::whole(100)),
                dashboard_port: value_or(&parsed.dashboard_port, 8080),
                skip_alert_webhook_url: significant_text(&env.skip_alert_webhook_url),
                skip_alert_1h_threshold: value_or(&parsed.skip_alert_1h_threshold, 25),
                skip_alert_cooldown_secs: value_or(&parsed.skip_alert_cooldown_secs, 900),
                skip_alert_eval_interval_secs: value_or(&parsed.skip_alert_eval_interval_secs, 60),
                skip_alert_hmac_secret: significant_text(&env.skip_alert_hmac_secret),
                skip_alert_max_retries: value_or(&parsed.skip_alert_max_retries, 3),
                skip_alert_retry_backoff_ms: value_or(&parsed.skip_alert_retry_backoff_ms, 500),
                state_dir: state_dir(env),
                state_flush_interval_secs: value_or(&parsed.state_flush_interval_secs, 30),
                account_sync_interval_secs: value_or(&parsed.account_sync_interval_secs, 120),
                leaderboard_fetch_size: value_or(&parsed.leaderboard_fetch_size, 50),
                max_whales: value_or(&parsed.max_whales, 10),
                min_resolved_trades: value_or(&parsed.min_resolved_trades, 10),
                investigation_interval_secs: value_or(&parsed.investigation_interval_secs, 3600),
                bayes_prior_alpha: value_or(&env.bayes_prior_alpha, Double::whole(2)),
                bayes_prior_beta: value_or(&env.bayes_prior_beta, Double::whole(2)),
                bayes_confidence_z: value_or(&env.bayes_confidence_z, Double::ratio(164, 100)),
                bankroll_usdc: value_or(&env.bankroll_usdc, Double::whole(1000)),
                kelly_fraction: value_or(&env.kelly_fraction, Double::ratio(1, 2)),
                max_position_fraction: value_or(&env.max_position_fraction, Double::ratio(20, 100)),
                poll_interval_secs: value_or(&parsed.poll_interval_secs, 30),
                estimated_fee_bps: value_or(&env.estimated_fee_bps, Double::whole(20)),
                estimated_slippage_bps: value_or(&env.estimated_slippage_bps, Double::whole(25)),
                adverse_selection_bps: value_or(&env.adverse_selection_bps, Double::whole(10)),
                min_net_edge_bps: value_or(&env.min_net_edge_bps, Double::whole(15)),
                max_copy_price_drift_bps: value_or(&env.max_copy_price_drift_bps, Double::whole(150)),
                max_order_slippage_bps: value_or(&env.max_order_slippage_bps, Double::whole(80)),
                daily_loss_limit_usdc: value_or(&env.daily_loss_limit_usdc, Double::whole(150)),
                max_consecutive_losses: value_or(&parsed.max_consecutive_losses, 8),
                max_notional_per_market_usdc: value_or(
                    &env.max_notional_per_market_usdc,
                    Double::whole(350),
                ),
                private_key: text_or_default(&env.private_key),
                address: text_or_default(&env.address),
            },
        )
    }

    /// The balance that the bot starts with: that of the simulation, or the
    /// bankroll.
    pub fn starting_balance_usdc(&self) -> (r: Double)
        ensures
            r == starting_balance(*self),
    {
        if self.dry_run {
            self.dry_run_balance_usdc
        } else {
            self.bankroll_usdc
        }
    }
}

} // verus!
