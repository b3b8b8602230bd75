//! What the settings of an environment become.

use crate::config::{
    accepted_settings_are_sound, first_problem, i32_reading, live_trading_needs_credentials,
    natural_reading, or_credentials, or_range, or_risk, or_service, or_sizing, readings, settled,
    starting_balance, Config, Environment, Var,
};
use crate::double::{fraction, Double};
use crate::faults::{
    at_fault, credential_at_fault, refusal_names_its_setting, risk_at_fault, service_at_fault,
    sizing_at_fault, unusable,
};
use crate::notation::{
    natural_number_is_read, space_around_is_left_out, stray_character_is_refused,
    whole_number_is_read,
};
use crate::text::{
    decimal, optional_text, signed_decimal, trimmed_text, white_space, without_leading_space,
    without_trailing_space,
};
use vstd::prelude::*;

verus! {

/// Whether a setting is the given natural number, in decimal notation.
pub open spec fn says(var: Var<String>, n: nat) -> bool {
    var matches Var::Value(text) && text@ == decimal(n)
}

/// Whether a setting is the given whole number, in decimal notation.
pub open spec fn says_signed(var: Var<String>, n: int) -> bool {
    var matches Var::Value(text) && text@ == signed_decimal(n)
}

/// Fractions and amounts of USDC are taken as they are set.
pub proof fn amounts_are_taken(env: Environment, config: Config)
    requires
        settled(env, config),
    ensures
        env.dry_run_balance_usdc matches Var::Value(x) ==> config.dry_run_balance_usdc == x,
        env.bayes_prior_alpha matches Var::Value(x) ==> config.bayes_prior_alpha == x,
        env.bayes_prior_beta matches Var::Value(x) ==> config.bayes_prior_beta == x,
        env.bayes_confidence_z matches Var::Value(x) ==> config.bayes_confidence_z == x,
        env.bankroll_usdc matches Var::Value(x) ==> config.bankroll_usdc == x,
        env.kelly_fraction matches Var::Value(x) ==> config.kelly_fraction == x,
        env.max_position_fraction matches Var::Value(x) ==> config.max_position_fraction == x,
        env.estimated_fee_bps matches Var::Value(x) ==> config.estimated_fee_bps == x,
        env.estimated_slippage_bps matches Var::Value(x) ==> config.estimated_slippage_bps == x,
        env.adverse_selection_bps matches Var::Value(x) ==> config.adverse_selection_bps == x,
        env.min_net_edge_bps matches Var::Value(x) ==> config.min_net_edge_bps == x,
        env.max_copy_price_drift_bps matches Var::Value(x) ==> config.max_copy_price_drift_bps == x,
        env.max_order_slippage_bps matches Var::Value(x) ==> config.max_order_slippage_bps == x,
        env.daily_loss_limit_usdc matches Var::Value(x) ==> config.daily_loss_limit_usdc == x,
        env.max_notional_per_market_usdc matches Var::Value(x) ==> config.max_notional_per_market_usdc == x,
{
}

/// Whole numbers are read from their decimal notation.
pub proof fn numbers_are_read(env: Environment, config: Config, n: nat, m: int)
    requires
        settled(env, config),
    ensures
        says(env.dashboard_port, n) && n <= u16::MAX ==> config.dashboard_port == n,
        says(env.skip_alert_1h_threshold, n) && n <= usize::MAX ==> config.skip_alert_1h_threshold == n,
        says(env.skip_alert_cooldown_secs, n) && n <= u64::MAX ==> config.skip_alert_cooldown_secs == n,
        says(env.skip_alert_eval_interval_secs, n) && n <= u64::MAX ==> config.skip_alert_eval_interval_secs == n,
        says(env.skip_alert_max_retries, n) && n <= usize::MAX ==> config.skip_alert_max_retries == n,
        says(env.skip_alert_retry_backoff_ms, n) && n <= u64::MAX ==> config.skip_alert_retry_backoff_ms == n,
        says(env.state_flush_interval_secs, n) && n <= u64::MAX ==> config.state_flush_interval_secs == n,
        says(env.account_sync_interval_secs, n) && n <= u64::MAX ==> config.account_sync_interval_secs == n,
        says(env.max_whales, n) && n <= usize::MAX ==> config.max_whales == n,
        says(env.investigation_interval_secs, n) && n <= u64::MAX ==> config.investigation_interval_secs == n,
        says(env.poll_interval_secs, n) && n <= u64::MAX ==> config.poll_interval_secs == n,
        says(env.max_consecutive_losses, n) && n <= usize::MAX ==> config.max_consecutive_losses == n,
        says_signed(env.leaderboard_fetch_size, m) && i32::MIN <= m <= i32::MAX ==> config.leaderboard_fetch_size == m,
        says_signed(env.min_resolved_trades, m) && i32::MIN <= m <= i32::MAX ==> config.min_resolved_trades == m,
{
    natural_number_is_read(n, u16::MAX as nat);
    natural_number_is_read(n, u64::MAX as nat);
    natural_number_is_read(n, usize::MAX as nat);
    whole_number_is_read(m, i32::MAX as nat);
}

/// Trades are only simulated exactly if that is set to true; left alone, they are real.
pub proof fn simulation_is_asked_for(env: Environment, config: Config)
    requires
        settled(env, config),
    ensures
        env.dry_run matches Var::Value(text) && text@ == "true"@ ==> config.dry_run,
        env.dry_run matches Var::Value(text) && text@ == "false"@ ==> !config.dry_run,
        env.dry_run is Absent ==> !config.dry_run,
        config.dry_run ==> (env.dry_run matches Var::Value(text) && text@ == "true"@),
{
    reveal_strlit("true");
    reveal_strlit("false");
    assert("true"@.len() != "false"@.len());
}

/// Texts are taken as they are set. Where alerts are sent and what they are signed with
/// are taken without the white space around them, and count as not set where nothing
/// else is left.
pub proof fn texts_are_taken(
    env: Environment,
    config: Config,
    front: Seq<char>,
    text: Seq<char>,
    back: Seq<char>,
)
    requires
        settled(env, config),
        forall|i: int| 0 <= i < front.len() ==> white_space(#[trigger] front[i]),
        forall|i: int| 0 <= i < back.len() ==> white_space(#[trigger] back[i]),
        text.len() > 0 ==> !white_space(text[0]) && !white_space(text[text.len() - 1]),
    ensures
        env.state_dir matches Var::Value(dir) ==> config.state_dir@ == dir@,
        env.state_dir is Absent ==> config.state_dir@ == ".runtime"@,
        env.private_key matches Some(key) ==> config.private_key@ == key@,
        env.private_key is None ==> config.private_key@.len() == 0,
        env.address matches Some(address) ==> config.address@ == address@,
        env.address is None ==> config.address@.len() == 0,
        optional_text(env.skip_alert_webhook_url) == Some(front + text + back) ==> optional_text(
            config.skip_alert_webhook_url,
        ) == if text.len() > 0 {
            Some(text)
        } else {
            None
        },
        optional_text(env.skip_alert_hmac_secret) == Some(front + text + back) ==> optional_text(
            config.skip_alert_hmac_secret,
        ) == if text.len() > 0 {
            Some(text)
        } else {
            None
        },
        env.skip_alert_webhook_url is None ==> config.skip_alert_webhook_url is None,
        env.skip_alert_hmac_secret is None ==> config.skip_alert_hmac_secret is None,
{
    space_around_is_left_out(front, text, back);
}

/// What is not set has its default.
pub proof fn rest_has_defaults(env: Environment, config: Config)
    requires
        settled(env, config),
    ensures
        env.dashboard_port is Absent ==> config.dashboard_port == 8080,
        env.skip_alert_1h_threshold is Absent ==> config.skip_alert_1h_threshold == 25,
        env.skip_alert_cooldown_secs is Absent ==> config.skip_alert_cooldown_secs == 900,
        env.skip_alert_eval_interval_secs is Absent ==> config.skip_alert_eval_interval_secs == 60,
        env.skip_alert_max_retries is Absent ==> config.skip_alert_max_retries == 3,
        env.skip_alert_retry_backoff_ms is Absent ==> config.skip_alert_retry_backoff_ms == 500,
        env.state_flush_interval_secs is Absent ==> config.state_flush_interval_secs == 30,
        env.account_sync_interval_secs is Absent ==> config.account_sync_interval_secs == 120,
        env.max_whales is Absent ==> config.max_whales == 10,
        env.investigation_interval_secs is Absent ==> config.investigation_interval_secs == 3600,
        env.poll_interval_secs is Absent ==> config.poll_interval_secs == 30,
        env.max_consecutive_losses is Absent ==> config.max_consecutive_losses == 8,
        env.leaderboard_fetch_size is Absent ==> config.leaderboard_fetch_size == 50,
        env.min_resolved_trades is Absent ==> config.min_resolved_trades == 10,
        env.dry_run_balance_usdc is Absent ==> config.dry_run_balance_usdc == fraction(100, 1),
        env.bayes_prior_alpha is Absent ==> config.bayes_prior_alpha == fraction(2, 1),
        env.bayes_prior_beta is Absent ==> config.bayes_prior_beta == fraction(2, 1),
        env.bayes_confidence_z is Absent ==> config.bayes_confidence_z == fraction(164, 100),
        env.bankroll_usdc is Absent ==> config.bankroll_usdc == fraction(1000, 1),
        env.kelly_fraction is Absent ==> config.kelly_fraction == fraction(1, 2),
        env.max_position_fraction is Absent ==> config.max_position_fraction == fraction(20, 100),
        env.estimated_fee_bps is Absent ==> config.estimated_fee_bps == fraction(20, 1),
        env.estimated_slippage_bps is Absent ==> config.estimated_slippage_bps == fraction(25, 1),
        env.adverse_selection_bps is Absent ==> config.adverse_selection_bps == fraction(10, 1),
        env.min_net_edge_bps is Absent ==> config.min_net_edge_bps == fraction(15, 1),
        env.max_copy_price_drift_bps is Absent ==> config.max_copy_price_drift_bps == fraction(150, 1),
        env.max_order_slippage_bps is Absent ==> config.max_order_slippage_bps == fraction(80, 1),
        env.daily_loss_limit_usdc is Absent ==> config.daily_loss_limit_usdc == fraction(150, 1),
        env.max_notional_per_market_usdc is Absent ==> config.max_notional_per_market_usdc == fraction(350, 1),
{
}

/// Whether every setting lies within its bounds: counts and seconds are at least one,
/// amounts above zero, shares between zero and one, and costs between 0 and 5000 basis
/// points.
pub open spec fn is_bounded(config: Config) -> bool {
    &&& 1 <= config.leaderboard_fetch_size <= 50
    &&& 1 <= config.max_whales <= 10
    &&& config.skip_alert_max_retries <= 10
    &&& config.skip_alert_1h_threshold >= 1
    &&& config.skip_alert_cooldown_secs >= 1
    &&& config.skip_alert_eval_interval_secs >= 1
    &&& config.skip_alert_retry_backoff_ms >= 1
    &&& config.state_flush_interval_secs >= 1
    &&& config.account_sync_interval_secs >= 1
    &&& config.min_resolved_trades >= 1
    &&& config.investigation_interval_secs >= 1
    &&& config.poll_interval_secs >= 1
    &&& config.max_consecutive_losses >= 1
    &&& fraction(0, 1).below(config.dry_run_balance_usdc)
    &&& fraction(0, 1).below(config.bankroll_usdc)
    &&& fraction(0, 1).below(config.bayes_prior_alpha)
    &&& fraction(0, 1).below(config.bayes_prior_beta)
    &&& fraction(0, 1).below(config.daily_loss_limit_usdc)
    &&& fraction(0, 1).below(config.max_notional_per_market_usdc)
    &&& fraction(0, 1).at_most(config.kelly_fraction) && config.kelly_fraction.at_most(fraction(1, 1))
    &&& fraction(0, 1).at_most(config.max_position_fraction) && config.max_position_fraction.at_most(fraction(1, 1))
    &&& fraction(0, 1).at_most(config.bayes_confidence_z) && config.bayes_confidence_z.at_most(fraction(4, 1))
    &&& fraction(0, 1).at_most(config.estimated_fee_bps) && config.estimated_fee_bps.at_most(fraction(5000, 1))
    &&& fraction(0, 1).at_most(config.estimated_slippage_bps) && config.estimated_slippage_bps.at_most(fraction(5000, 1))
    &&& fraction(0, 1).at_most(config.adverse_selection_bps) && config.adverse_selection_bps.at_most(fraction(5000, 1))
    &&& fraction(0, 1).at_most(config.min_net_edge_bps) && config.min_net_edge_bps.at_most(fraction(5000, 1))
    &&& fraction(0, 1).at_most(config.max_copy_price_drift_bps) && config.max_copy_price_drift_bps.at_most(fraction(5000, 1))
    &&& fraction(0, 1).at_most(config.max_order_slippage_bps) && config.max_order_slippage_bps.at_most(fraction(5000, 1))
    &&& exists|i: int| 0 <= i < config.state_dir@.len() && !white_space(#[trigger] config.state_dir@[i])
}

/// Whether a setting of a text can be read.
pub open spec fn is_readable<T>(var: Var<T>) -> bool {
    var is Absent || var is Value
}

/// Whether a setting is left alone or is a natural number up to the given one.
pub open spec fn is_natural(var: Var<String>, greatest: nat) -> bool {
    var is Absent || exists|n: nat| n <= greatest && #[trigger] says(var, n)
}

/// Whether a setting is left alone or is a whole number of 32 bits.
pub open spec fn is_whole(var: Var<String>) -> bool {
    var is Absent || exists|n: int| i32::MIN <= n <= i32::MAX && #[trigger] says_signed(var, n)
}

/// Whether everything that is set can be read: the switch is true or false, counts are
/// in decimal notation, and the rest are values.
pub open spec fn all_readable(env: Environment) -> bool {
    &&& env.dry_run is Absent || (env.dry_run matches Var::Value(text) && (text@ == "true"@ || text@ == "false"@))
    &&& is_readable(env.state_dir)
    &&& is_natural(env.dashboard_port, u16::MAX as nat)
    &&& is_natural(env.skip_alert_1h_threshold, usize::MAX as nat)
    &&& is_natural(env.skip_alert_cooldown_secs, u64::MAX as nat)
    &&& is_natural(env.skip_alert_eval_interval_secs, u64::MAX as nat)
    &&& is_natural(env.skip_alert_max_retries, usize::MAX as nat)
    &&& is_natural(env.skip_alert_retry_backoff_ms, u64::MAX as nat)
    &&& is_natural(env.state_flush_interval_secs, u64::MAX as nat)
    &&& is_natural(env.account_sync_interval_secs, u64::MAX as nat)
    &&& is_natural(env.max_whales, usize::MAX as nat)
    &&& is_natural(env.investigation_interval_secs, u64::MAX as nat)
    &&& is_natural(env.poll_interval_secs, u64::MAX as nat)
    &&& is_natural(env.max_consecutive_losses, usize::MAX as nat)
    &&& is_whole(env.leaderboard_fetch_size)
    &&& is_whole(env.min_resolved_trades)
    &&& is_readable(env.dry_run_balance_usdc)
    &&& is_readable(env.bayes_prior_alpha)
    &&& is_readable(env.bayes_prior_beta)
    &&& is_readable(env.bayes_confidence_z)
    &&& is_readable(env.bankroll_usdc)
    &&& is_readable(env.kelly_fraction)
    &&& is_readable(env.max_position_fraction)
    &&& is_readable(env.estimated_fee_bps)
    &&& is_readable(env.estimated_slippage_bps)
    &&& is_readable(env.adverse_selection_bps)
    &&& is_readable(env.min_net_edge_bps)
    &&& is_readable(env.max_copy_price_drift_bps)
    &&& is_readable(env.max_order_slippage_bps)
    &&& is_readable(env.daily_loss_limit_usdc)
    &&& is_readable(env.max_notional_per_market_usdc)
}

/// A natural number that is set can be read.
proof fn lemma_natural(var: Var<String>, greatest: nat)
    requires
        is_natural(var, greatest),
    ensures
        !unusable(natural_reading(var, greatest)),
{
    if !(var is Absent) {
        let n = choose|n: nat| n <= greatest && #[trigger] says(var, n);
        natural_number_is_read(n, greatest);
    }
}

/// A whole number that is set can be read.
proof fn lemma_whole_number(var: Var<String>)
    requires
        is_whole(var),
    ensures
        !unusable(i32_reading(var)),
{
    if !(var is Absent) {
        let n = choose|n: int| i32::MIN <= n <= i32::MAX && #[trigger] says_signed(var, n);
        whole_number_is_read(n, i32::MAX as nat);
    }
}

/// A text with anything but white space in it is not empty without that around it.
proof fn lemma_not_blank(text: Seq<char>, i: int)
    requires
        0 <= i < text.len(),
        !white_space(text[i]),
    ensures
        trimmed_text(text).len() > 0,
{
    lemma_front_kept(text, i);
    let rest = without_leading_space(text);
    lemma_back_kept(rest);
}

/// What is left without the white space in front begins with something else.
proof fn lemma_front_kept(text: Seq<char>, i: int)
    requires
        0 <= i < text.len(),
        !white_space(text[i]),
    ensures
        without_leading_space(text).len() > 0,
        !white_space(without_leading_space(text)[0]),
    decreases text.len(),
{
    if white_space(text[0]) {
        assert(text.drop_first()[i - 1] == text[i]);
        lemma_front_kept(text.drop_first(), i - 1);
    }
}

/// A text that begins with something else than white space keeps that.
proof fn lemma_back_kept(text: Seq<char>)
    requires
        text.len() > 0,
        !white_space(text[0]),
    ensures
        without_trailing_space(text).len() > 0,
    decreases text.len(),
{
    if white_space(text.last()) {
        assert(text.len() > 1);
        assert(text.drop_last()[0] == text[0]);
        lemma_back_kept(text.drop_last());
    }
}

/// Settings that can all be read, lie within their bounds and hold every credential that
/// is needed are accepted.
pub proof fn bounded_settings_are_accepted(env: Environment, config: Config)
    requires
        settled(env, config),
        all_readable(env),
        is_bounded(config),
        config.dry_run || (env.private_key is Some && env.address is Some && env.api_key is Some && env.api_secret
            is Some && env.api_passphrase is Some),
    ensures
        first_problem(env) is None,
{
    let found = readings(env);
    lemma_readable(env);
    let i = choose|i: int| 0 <= i < config.state_dir@.len() && !white_space(#[trigger] config.state_dir@[i]);
    lemma_not_blank(config.state_dir@, i);
    refusal_names_its_setting(env);
    assert forall|key: Seq<char>| !#[trigger] at_fault(found, key) by {
        assert(!service_at_fault(found, key));
        assert(!sizing_at_fault(found, key));
        assert(!risk_at_fault(found, key));
        assert(!credential_at_fault(found, key));
    }
}

/// What can be read is usable.
proof fn lemma_readable(env: Environment)
    requires
        all_readable(env),
    ensures
        ({
            let found = readings(env);
            &&& !unusable(found.dry_run)
            &&& !unusable(found.state_dir)
            &&& !unusable(found.dashboard_port)
            &&& !unusable(found.skip_alert_1h_threshold)
            &&& !unusable(found.skip_alert_cooldown_secs)
            &&& !unusable(found.skip_alert_eval_interval_secs)
            &&& !unusable(found.skip_alert_max_retries)
            &&& !unusable(found.skip_alert_retry_backoff_ms)
            &&& !unusable(found.state_flush_interval_secs)
            &&& !unusable(found.account_sync_interval_secs)
            &&& !unusable(found.max_whales)
            &&& !unusable(found.investigation_interval_secs)
            &&& !unusable(found.poll_interval_secs)
            &&& !unusable(found.max_consecutive_losses)
            &&& !unusable(found.leaderboard_fetch_size)
            &&& !unusable(found.min_resolved_trades)
            &&& !unusable(found.dry_run_balance_usdc)
            &&& !unusable(found.bayes_prior_alpha)
            &&& !unusable(found.bayes_prior_beta)
            &&& !unusable(found.bayes_confidence_z)
            &&& !unusable(found.bankroll_usdc)
            &&& !unusable(found.kelly_fraction)
            &&& !unusable(found.max_position_fraction)
            &&& !unusable(found.estimated_fee_bps)
            &&& !unusable(found.estimated_slippage_bps)
            &&& !unusable(found.adverse_selection_bps)
            &&& !unusable(found.min_net_edge_bps)
            &&& !unusable(found.max_copy_price_drift_bps)
            &&& !unusable(found.max_order_slippage_bps)
            &&& !unusable(found.daily_loss_limit_usdc)
            &&& !unusable(found.max_notional_per_market_usdc)
        }),
{
    lemma_natural(env.dashboard_port, u16::MAX as nat);
    lemma_natural(env.skip_alert_1h_threshold, usize::MAX as nat);
    lemma_natural(env.skip_alert_cooldown_secs, u64::MAX as nat);
    lemma_natural(env.skip_alert_eval_interval_secs, u64::MAX as nat);
    lemma_natural(env.skip_alert_max_retries, usize::MAX as nat);
    lemma_natural(env.skip_alert_retry_backoff_ms, u64::MAX as nat);
    lemma_natural(env.state_flush_interval_secs, u64::MAX as nat);
    lemma_natural(env.account_sync_interval_secs, u64::MAX as nat);
    lemma_natural(env.max_whales, usize::MAX as nat);
    lemma_natural(env.investigation_interval_secs, u64::MAX as nat);
    lemma_natural(env.poll_interval_secs, u64::MAX as nat);
    lemma_natural(env.max_consecutive_losses, usize::MAX as nat);
    lemma_whole_number(env.leaderboard_fetch_size);
    lemma_whole_number(env.min_resolved_trades);
}

/// Accepted settings lie within their bounds, and hold every credential where trades are
/// real.
pub proof fn accepted_settings_are_bounded(env: Environment, config: Config)
    requires
        settled(env, config),
        first_problem(env) is None,
    ensures
        is_bounded(config),
        !config.dry_run ==> env.private_key is Some && env.address is Some && env.api_key is Some && env.api_secret
            is Some && env.api_passphrase is Some,
{
    accepted_settings_are_sound(env, config);
    lemma_something_left(config.state_dir@);
    if !config.dry_run {
        live_trading_needs_credentials(env);
    }
}

/// Where something is left without the white space around it, it was there.
proof fn lemma_something_left(text: Seq<char>)
    requires
        trimmed_text(text).len() > 0,
    ensures
        exists|i: int| 0 <= i < text.len() && !white_space(#[trigger] text[i]),
{
    if forall|i: int| 0 <= i < text.len() ==> white_space(#[trigger] text[i]) {
        space_around_is_left_out(text, Seq::empty(), Seq::empty());
        assert(text + Seq::<char>::empty() + Seq::<char>::empty() =~= text);
    }
}

/// A count that is set to a text with anything but digits behind its first character is
/// refused.
pub proof fn text_that_is_no_number_is_refused(env: Environment, text: String, i: int)
    requires
        0 < i < text@.len(),
        !('0' <= text@[i] <= '9'),
    ensures
        env.dashboard_port == Var::Value(text) ==> first_problem(env) is Some,
        env.skip_alert_1h_threshold == Var::Value(text) ==> first_problem(env) is Some,
        env.skip_alert_cooldown_secs == Var::Value(text) ==> first_problem(env) is Some,
        env.skip_alert_eval_interval_secs == Var::Value(text) ==> first_problem(env) is Some,
        env.skip_alert_max_retries == Var::Value(text) ==> first_problem(env) is Some,
        env.skip_alert_retry_backoff_ms == Var::Value(text) ==> first_problem(env) is Some,
        env.state_flush_interval_secs == Var::Value(text) ==> first_problem(env) is Some,
        env.account_sync_interval_secs == Var::Value(text) ==> first_problem(env) is Some,
        env.max_whales == Var::Value(text) ==> first_problem(env) is Some,
        env.investigation_interval_secs == Var::Value(text) ==> first_problem(env) is Some,
        env.poll_interval_secs == Var::Value(text) ==> first_problem(env) is Some,
        env.max_consecutive_losses == Var::Value(text) ==> first_problem(env) is Some,
        env.leaderboard_fetch_size == Var::Value(text) ==> first_problem(env) is Some,
        env.min_resolved_trades == Var::Value(text) ==> first_problem(env) is Some,
{
    stray_character_is_refused(text@, u16::MAX as nat, i);
    stray_character_is_refused(text@, u64::MAX as nat, i);
    stray_character_is_refused(text@, usize::MAX as nat, i);
    stray_character_is_refused(text@, i32::MAX as nat, i);
    let found = readings(env);
    let service = or_service(None, found);
    let sizing = or_sizing(service, found);
    let risk = or_risk(sizing, found);
    let range = or_range(risk, found);
    let rest = or_credentials(range, found);
    assert(service is Some ==> sizing is Some);
    assert(sizing is Some ==> risk is Some);
    assert(risk is Some ==> range is Some);
    assert(range is Some ==> rest is Some);
}

/// A simulation starts with its own balance, and live trading with the bankroll.
pub proof fn balance_fits_the_mode(env: Environment, config: Config, simulated: Double, bankroll: Double)
    requires
        settled(env, config),
        env.dry_run_balance_usdc == Var::Value(simulated),
        env.bankroll_usdc == Var::Value(bankroll),
    ensures
        env.dry_run matches Var::Value(text) && text@ == "true"@ ==> starting_balance(config) == simulated,
        env.dry_run is Absent ==> starting_balance(config) == bankroll,
{
}

} // verus!
