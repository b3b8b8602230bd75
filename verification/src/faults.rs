//! Which settings are at fault when settings are refused.

use crate::config::{
    chosen, exceeds_zero, first_problem, or_credentials, or_missing, or_range, or_risk, or_service,
    or_sizing, or_unmet, or_unusable, readings, within, Environment, Reading, Readings,
};
use crate::double::laws::{
    lemma_fraction, lemma_one, lemma_order, lemma_packed, lemma_positive, lemma_zero,
};
use crate::double::rounding::{lemma_rounded_monotone, rounded, UNIT_SHIFT};
use crate::double::{fraction, lemma_steps_zero};
use crate::text::{trimmed_text, without_leading_space};
use vstd::arithmetic::power2::{lemma_pow2_pos, pow2};
use vstd::prelude::*;

verus! {

/// Whether a setting is no value of its type or cannot be read.
pub open spec fn unusable<T>(reading: Reading<T>) -> bool {
    reading is Invalid || reading is Unreadable
}

/// Whether a setting for the mode, the universe, alerts or state files is no value,
/// cannot be read or lies outside its bounds.
pub open spec fn service_at_fault(found: Readings, key: Seq<char>) -> bool {
    ||| key == "DRY_RUN"@ && unusable(found.dry_run)
    ||| key == "LEADERBOARD_FETCH_SIZE"@ && (unusable(found.leaderboard_fetch_size)
        || !(1 <= chosen(found.leaderboard_fetch_size, 50i32) <= 50))
    ||| key == "MAX_WHALES"@ && (unusable(found.max_whales)
        || !(1 <= chosen(found.max_whales, 10usize) <= 10))
    ||| key == "SKIP_ALERT_1H_THRESHOLD"@ && (unusable(found.skip_alert_1h_threshold)
        || chosen(found.skip_alert_1h_threshold, 25usize) == 0)
    ||| key == "SKIP_ALERT_COOLDOWN_SECS"@ && (unusable(found.skip_alert_cooldown_secs)
        || chosen(found.skip_alert_cooldown_secs, 900u64) == 0)
    ||| key == "SKIP_ALERT_EVAL_INTERVAL_SECS"@ && (unusable(found.skip_alert_eval_interval_secs)
        || chosen(found.skip_alert_eval_interval_secs, 60u64) == 0)
    ||| key == "SKIP_ALERT_MAX_RETRIES"@ && (unusable(found.skip_alert_max_retries)
        || chosen(found.skip_alert_max_retries, 3usize) > 10)
    ||| key == "SKIP_ALERT_RETRY_BACKOFF_MS"@ && (unusable(found.skip_alert_retry_backoff_ms)
        || chosen(found.skip_alert_retry_backoff_ms, 500u64) == 0)
    ||| key == "STATE_DIR"@ && (unusable(found.state_dir)
        || trimmed_text(chosen(found.state_dir, ".runtime"@)).len() == 0)
    ||| key == "STATE_FLUSH_INTERVAL_SECS"@ && (unusable(found.state_flush_interval_secs)
        || chosen(found.state_flush_interval_secs, 30u64) == 0)
    ||| key == "ACCOUNT_SYNC_INTERVAL_SECS"@ && (unusable(found.account_sync_interval_secs)
        || chosen(found.account_sync_interval_secs, 120u64) == 0)
}

/// Whether a setting for sizing, investigation or polling is no value, cannot be
/// read or lies outside its bounds.
pub open spec fn sizing_at_fault(found: Readings, key: Seq<char>) -> bool {
    ||| key == "KELLY_FRACTION"@ && (unusable(found.kelly_fraction)
        || !within(chosen(found.kelly_fraction, fraction(1, 2)), 0, 1))
    ||| key == "MAX_POSITION_FRACTION"@ && (unusable(found.max_position_fraction)
        || !within(chosen(found.max_position_fraction, fraction(20, 100)), 0, 1))
    ||| key == "DRY_RUN_BALANCE_USDC"@ && (unusable(found.dry_run_balance_usdc)
        || !exceeds_zero(chosen(found.dry_run_balance_usdc, fraction(100, 1))))
    ||| key == "MIN_RESOLVED_TRADES"@ && (unusable(found.min_resolved_trades)
        || chosen(found.min_resolved_trades, 10i32) <= 0)
    ||| key == "INVESTIGATION_INTERVAL_SECS"@ && (unusable(found.investigation_interval_secs)
        || chosen(found.investigation_interval_secs, 3600u64) == 0)
    ||| key == "BANKROLL_USDC"@ && (unusable(found.bankroll_usdc)
        || !exceeds_zero(chosen(found.bankroll_usdc, fraction(1000, 1))))
    ||| key == "POLL_INTERVAL_SECS"@ && (unusable(found.poll_interval_secs)
        || chosen(found.poll_interval_secs, 30u64) == 0)
    ||| key == "BAYES_PRIOR_ALPHA"@ && (unusable(found.bayes_prior_alpha)
        || !exceeds_zero(chosen(found.bayes_prior_alpha, fraction(2, 1))))
    ||| key == "BAYES_PRIOR_BETA"@ && (unusable(found.bayes_prior_beta)
        || !exceeds_zero(chosen(found.bayes_prior_beta, fraction(2, 1))))
    ||| key == "BAYES_CONFIDENCE_Z"@ && (unusable(found.bayes_confidence_z)
        || !within(chosen(found.bayes_confidence_z, fraction(164, 100)), 0, 4))
}

/// Whether a cost, a guard or a risk limit is no value, cannot be read or lies
/// outside its bounds.
pub open spec fn risk_at_fault(found: Readings, key: Seq<char>) -> bool {
    ||| key == "ESTIMATED_FEE_BPS"@ && (unusable(found.estimated_fee_bps)
        || !within(chosen(found.estimated_fee_bps, fraction(20, 1)), 0, 5000))
    ||| key == "ESTIMATED_SLIPPAGE_BPS"@ && (unusable(found.estimated_slippage_bps)
        || !within(chosen(found.estimated_slippage_bps, fraction(25, 1)), 0, 5000))
    ||| key == "ADVERSE_SELECTION_BPS"@ && (unusable(found.adverse_selection_bps)
        || !within(chosen(found.adverse_selection_bps, fraction(10, 1)), 0, 5000))
    ||| key == "MIN_NET_EDGE_BPS"@ && (unusable(found.min_net_edge_bps)
        || !within(chosen(found.min_net_edge_bps, fraction(15, 1)), 0, 5000))
    ||| key == "MAX_COPY_PRICE_DRIFT_BPS"@ && (unusable(found.max_copy_price_drift_bps)
        || !within(chosen(found.max_copy_price_drift_bps, fraction(150, 1)), 0, 5000))
    ||| key == "MAX_ORDER_SLIPPAGE_BPS"@ && (unusable(found.max_order_slippage_bps)
        || !within(chosen(found.max_order_slippage_bps, fraction(80, 1)), 0, 5000))
    ||| key == "DAILY_LOSS_LIMIT_USDC"@ && (unusable(found.daily_loss_limit_usdc)
        || !exceeds_zero(chosen(found.daily_loss_limit_usdc, fraction(150, 1))))
    ||| key == "MAX_CONSECUTIVE_LOSSES"@ && (unusable(found.max_consecutive_losses)
        || chosen(found.max_consecutive_losses, 8usize) == 0)
    ||| key == "MAX_NOTIONAL_PER_MARKET_USDC"@ && (unusable(found.max_notional_per_market_usdc)
        || !exceeds_zero(chosen(found.max_notional_per_market_usdc, fraction(350, 1))))
}

/// Whether a credential is needed and not set.
pub open spec fn credential_at_fault(found: Readings, key: Seq<char>) -> bool {
    ||| key == "POLYMARKET_PRIVATE_KEY"@ && !chosen(found.dry_run, false) && found.private_key is None
    ||| key == "POLYMARKET_ADDRESS"@ && !chosen(found.dry_run, false) && found.address is None
    ||| key == "POLYMARKET_API_KEY"@ && !chosen(found.dry_run, false) && found.api_key is None
    ||| key == "POLYMARKET_API_SECRET"@ && !chosen(found.dry_run, false) && found.api_secret is None
    ||| key == "POLYMARKET_API_PASSPHRASE"@ && !chosen(found.dry_run, false) && found.api_passphrase is None
}

/// Whether the setting of a name is at fault.
pub open spec fn at_fault(found: Readings, key: Seq<char>) -> bool {
    ||| service_at_fault(found, key)
    ||| sizing_at_fault(found, key)
    ||| risk_at_fault(found, key)
    ||| credential_at_fault(found, key)
    ||| key == "DASHBOARD_PORT"@ && unusable(found.dashboard_port)
}

/// Whether a text stands somewhere in another.
pub open spec fn mentions(text: Seq<char>, part: Seq<char>) -> bool {
    exists|i: int|
        0 <= i && i + part.len() <= text.len() && #[trigger] text.subrange(i, i + part.len()) == part
}

/// Whether a problem, if there is one, names a setting that is at fault.
spec fn names_fault(found: Readings, problem: Option<Seq<char>>) -> bool {
    problem matches Some(message) ==> exists|key: Seq<char>| #[trigger]
        at_fault(found, key) && mentions(message, key)
}

/// A text mentions what it is put together from.
proof fn lemma_mentions(before: Seq<char>, key: Seq<char>, after: Seq<char>)
    ensures
        mentions(before + key + after, key),
{
    let text = before + key + after;
    assert(text.subrange(before.len() as int, (before.len() + key.len()) as int) =~= key);
}

/// Noting a setting that is no value keeps naming one that is at fault.
proof fn lemma_unusable<T>(found: Readings, reading: Reading<T>)
    ensures
        forall|problem: Option<Seq<char>>, key: Seq<char>|
            names_fault(found, problem) && (unusable(reading) ==> at_fault(found, key)) ==> names_fault(
                found,
                #[trigger] or_unusable(problem, reading, key),
            ),
{
    assert forall|problem: Option<Seq<char>>, key: Seq<char>|
        names_fault(found, problem) && (unusable(reading) ==> at_fault(found, key)) implies names_fault(
        found,
        #[trigger] or_unusable(problem, reading, key),
    ) by {
        if problem is None {
            match reading {
                Reading::Invalid(why) => {
                    let before = "Invalid env var "@;
                    lemma_mentions(before, key, ": "@ + why);
                    assert(before + key + (": "@ + why) =~= before + key + ": "@ + why);
                },
                Reading::Unreadable(why) => {
                    let before = "Failed reading env var "@;
                    lemma_mentions(before, key, ": "@ + why);
                    assert(before + key + (": "@ + why) =~= before + key + ": "@ + why);
                },
                _ => {},
            }
        }
    }
}

/// Noting a demand that is not met keeps naming a setting that is at fault.
proof fn lemma_unmet(found: Readings)
    ensures
        forall|problem: Option<Seq<char>>, met: bool, key: Seq<char>, demand: Seq<char>|
            names_fault(found, problem) && (met || at_fault(found, key)) ==> names_fault(
                found,
                #[trigger] or_unmet(problem, met, key, demand),
            ),
{
    assert forall|problem: Option<Seq<char>>, met: bool, key: Seq<char>, demand: Seq<char>|
        names_fault(found, problem) && (met || at_fault(found, key)) implies names_fault(
        found,
        #[trigger] or_unmet(problem, met, key, demand),
    ) by {
        lemma_mentions(Seq::empty(), key, demand);
        assert(Seq::<char>::empty() + key + demand =~= key + demand);
    }
}

/// Noting a credential that is missing keeps naming a setting that is at fault.
proof fn lemma_missing(found: Readings)
    ensures
        forall|problem: Option<Seq<char>>, needed: bool, credential: Option<Seq<char>>, key: Seq<char>|
            names_fault(found, problem) && (needed && credential is None ==> at_fault(found, key))
                ==> names_fault(found, #[trigger] or_missing(problem, needed, credential, key)),
{
    assert forall|problem: Option<Seq<char>>, needed: bool, credential: Option<Seq<char>>, key: Seq<char>|
        names_fault(found, problem) && (needed && credential is None ==> at_fault(found, key))
            implies names_fault(found, #[trigger] or_missing(problem, needed, credential, key)) by {
        let before = "Missing required env var: "@;
        lemma_mentions(before, key, Seq::empty());
        assert(before + key + Seq::<char>::empty() =~= before + key);
    }
}

/// The settings for the service, if refused, are refused naming one at fault.
proof fn lemma_service(found: Readings)
    ensures
        names_fault(found, or_service(None, found)),
{
    lemma_unusable(found, found.dry_run);
    lemma_unusable(found, found.leaderboard_fetch_size);
    lemma_unusable(found, found.max_whales);
    lemma_unusable(found, found.skip_alert_cooldown_secs);
    lemma_unusable(found, found.skip_alert_1h_threshold);
    lemma_unusable(found, found.skip_alert_eval_interval_secs);
    lemma_unusable(found, found.skip_alert_max_retries);
    lemma_unusable(found, found.skip_alert_retry_backoff_ms);
    lemma_unusable(found, found.state_dir);
    lemma_unusable(found, found.state_flush_interval_secs);
    lemma_unusable(found, found.account_sync_interval_secs);
    lemma_unmet(found);
}

/// The settings for sizing, if refused, are refused naming one at fault.
proof fn lemma_sizing(found: Readings, problem: Option<Seq<char>>)
    requires
        names_fault(found, problem),
    ensures
        names_fault(found, or_sizing(problem, found)),
{
    lemma_unusable(found, found.kelly_fraction);
    lemma_unusable(found, found.max_position_fraction);
    lemma_unusable(found, found.dry_run_balance_usdc);
    lemma_unusable(found, found.min_resolved_trades);
    lemma_unusable(found, found.investigation_interval_secs);
    lemma_unusable(found, found.bankroll_usdc);
    lemma_unusable(found, found.poll_interval_secs);
    lemma_unusable(found, found.bayes_prior_alpha);
    lemma_unusable(found, found.bayes_prior_beta);
    lemma_unusable(found, found.bayes_confidence_z);
    lemma_unmet(found);
}

/// Costs, guards and risk limits, if refused, are refused naming one at fault.
proof fn lemma_risk(found: Readings, problem: Option<Seq<char>>)
    requires
        names_fault(found, problem),
    ensures
        names_fault(found, or_range(or_risk(problem, found), found)),
{
    lemma_unusable(found, found.estimated_fee_bps);
    lemma_unusable(found, found.estimated_slippage_bps);
    lemma_unusable(found, found.adverse_selection_bps);
    lemma_unusable(found, found.min_net_edge_bps);
    lemma_unusable(found, found.max_copy_price_drift_bps);
    lemma_unusable(found, found.max_order_slippage_bps);
    lemma_unusable(found, found.daily_loss_limit_usdc);
    lemma_unusable(found, found.max_consecutive_losses);
    lemma_unusable(found, found.max_notional_per_market_usdc);
    lemma_unmet(found);
}

/// Settings are refused exactly if one of them is at fault, and the message
/// names one that is.
pub proof fn refusal_names_its_setting(env: Environment)
    ensures
        first_problem(env) is None <==> forall|key: Seq<char>| !#[trigger] at_fault(readings(env), key),
        first_problem(env) matches Some(message) ==> exists|key: Seq<char>| #[trigger]
            at_fault(readings(env), key) && mentions(message, key),
{
    let found = readings(env);
    let service = or_service(None, found);
    let sizing = or_sizing(service, found);
    let risk = or_range(or_risk(sizing, found), found);
    let credentials = or_credentials(risk, found);
    lemma_service(found);
    lemma_sizing(found, service);
    lemma_risk(found, sizing);
    assert(names_fault(found, credentials)) by {
        lemma_missing(found);
    }
    lemma_unusable(found, found.dashboard_port);
    if first_problem(env) is None {
        assert(credentials is None);
        assert(risk is None);
        assert(or_risk(sizing, found) is None);
        assert(sizing is None);
        assert(service is None);
    }
}

/// The order of fractions is that of the doubles nearest to them.
proof fn lemma_fraction_order(a: nat, b: nat, c: nat, d: nat)
    requires
        b > 0,
        d > 0,
        a * d <= c * b,
    ensures
        fraction(a, b).at_most(fraction(c, d)),
{
    let u = pow2(UNIT_SHIFT as nat);
    lemma_fraction(a, b);
    lemma_fraction(c, d);
    assert((a * u) * d <= (c * u) * b) by (nonlinear_arith)
        requires
            a * d <= c * b,
    ;
    lemma_rounded_monotone(a * u, b, c * u, d);
    lemma_packed(rounded(a * u, b));
    lemma_packed(rounded(c * u, d));
    lemma_order(fraction(a, b), fraction(c, d));
}

/// A whole number from one on is above zero.
proof fn lemma_whole_positive(a: nat)
    requires
        a >= 1,
    ensures
        exceeds_zero(fraction(a, 1)),
{
    lemma_one();
    lemma_zero();
    lemma_steps_zero();
    lemma_pow2_pos(UNIT_SHIFT as nat);
    lemma_fraction_order(1, 1, a, 1);
    lemma_positive(fraction(a, 1));
}

/// A whole number up to five thousand is one of a guard.
proof fn lemma_guard(a: nat)
    requires
        a <= 5000,
    ensures
        within(fraction(a, 1), 0, 5000),
{
    lemma_fraction_order(0, 1, a, 1);
    lemma_fraction_order(a, 1, 5000, 1);
}

/// Whether every setting but the mode and the credentials is left to its default.
pub open spec fn all_left(found: Readings) -> bool {
    &&& found.dry_run_balance_usdc is Absent
    &&& found.dashboard_port is Absent
    &&& found.skip_alert_1h_threshold is Absent
    &&& found.skip_alert_cooldown_secs is Absent
    &&& found.skip_alert_eval_interval_secs is Absent
    &&& found.skip_alert_max_retries is Absent
    &&& found.skip_alert_retry_backoff_ms is Absent
    &&& found.state_dir is Absent
    &&& found.state_flush_interval_secs is Absent
    &&& found.account_sync_interval_secs is Absent
    &&& found.leaderboard_fetch_size is Absent
    &&& found.max_whales is Absent
    &&& found.min_resolved_trades is Absent
    &&& found.investigation_interval_secs is Absent
    &&& found.bayes_prior_alpha is Absent
    &&& found.bayes_prior_beta is Absent
    &&& found.bayes_confidence_z is Absent
    &&& found.bankroll_usdc is Absent
    &&& found.kelly_fraction is Absent
    &&& found.max_position_fraction is Absent
    &&& found.poll_interval_secs is Absent
    &&& found.estimated_fee_bps is Absent
    &&& found.estimated_slippage_bps is Absent
    &&& found.adverse_selection_bps is Absent
    &&& found.min_net_edge_bps is Absent
    &&& found.max_copy_price_drift_bps is Absent
    &&& found.max_order_slippage_bps is Absent
    &&& found.daily_loss_limit_usdc is Absent
    &&& found.max_consecutive_losses is Absent
    &&& found.max_notional_per_market_usdc is Absent
}

/// The defaults are accepted, for a simulation without any credential and for live
/// trading with all of them.
pub proof fn defaults_are_accepted(env: Environment)
    requires
        all_left(readings(env)),
        !unusable(readings(env).dry_run),
        chosen(readings(env).dry_run, false) || (env.private_key is Some && env.address is Some
            && env.api_key is Some && env.api_secret is Some && env.api_passphrase is Some),
    ensures
        first_problem(env) is None,
{
    let found = readings(env);
    assert(trimmed_text(".runtime"@).len() > 0) by {
        reveal_strlit(".runtime");
        assert(without_leading_space(".runtime"@) == ".runtime"@);
    }
    lemma_fraction_order(0, 1, 1, 2);
    lemma_fraction_order(1, 2, 1, 1);
    lemma_fraction_order(0, 1, 20, 100);
    lemma_fraction_order(20, 100, 1, 1);
    lemma_fraction_order(0, 1, 164, 100);
    lemma_fraction_order(164, 100, 4, 1);
    lemma_whole_positive(100);
    lemma_whole_positive(1000);
    lemma_whole_positive(2);
    lemma_whole_positive(150);
    lemma_whole_positive(350);
    lemma_guard(20);
    lemma_guard(25);
    lemma_guard(10);
    lemma_guard(15);
    lemma_guard(150);
    lemma_guard(80);
    refusal_names_its_setting(env);
    assert forall|key: Seq<char>| !#[trigger] at_fault(found, key) by {
        assert(!service_at_fault(found, key));
        assert(!sizing_at_fault(found, key));
        assert(!risk_at_fault(found, key));
        assert(!credential_at_fault(found, key));
    }
}

} // verus!
