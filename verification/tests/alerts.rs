//! Alerts.

use copytrading_bot::alerts::{
    after_attempt, alert_time, breaker_signature, breaker_states, retry_delay_ms, retry_delay_with,
    sign_hmac, spike_alert_due, spike_signature, top_spikes, total, truncate_for_log, AlertAction,
    AlertPhase, AlertWorker, Delivering, Delivery, RetryStep,
};
use copytrading_bot::clock::Timestamp;
use copytrading_bot::config::{Config, Environment, Var};
use copytrading_bot::double::Double;
use copytrading_bot::persistence::AlertPersistedState;
use copytrading_bot::state::BotState;
use copytrading_bot::table::Table;

fn d(x: f64) -> Double {
    Double { bits: x.to_bits() }
}

fn at(secs: i64) -> Timestamp {
    Timestamp::new(secs, 0).unwrap()
}

fn config(threshold: usize) -> Config {
    Config::from_env(&Environment {
        dry_run: Var::Value("true".to_string()),
        dry_run_balance_usdc: Var::Absent,
        dashboard_port: Var::Absent,
        skip_alert_webhook_url: None,
        skip_alert_1h_threshold: Var::Value(threshold.to_string()),
        skip_alert_cooldown_secs: Var::Absent,
        skip_alert_eval_interval_secs: Var::Absent,
        skip_alert_hmac_secret: None,
        skip_alert_max_retries: Var::Absent,
        skip_alert_retry_backoff_ms: Var::Absent,
        state_dir: Var::Absent,
        state_flush_interval_secs: Var::Absent,
        account_sync_interval_secs: Var::Absent,
        leaderboard_fetch_size: Var::Absent,
        max_whales: Var::Absent,
        min_resolved_trades: Var::Absent,
        investigation_interval_secs: Var::Absent,
        bayes_prior_alpha: Var::Absent,
        bayes_prior_beta: Var::Absent,
        bayes_confidence_z: Var::Absent,
        bankroll_usdc: Var::Absent,
        kelly_fraction: Var::Absent,
        max_position_fraction: Var::Absent,
        poll_interval_secs: Var::Absent,
        estimated_fee_bps: Var::Absent,
        estimated_slippage_bps: Var::Absent,
        adverse_selection_bps: Var::Absent,
        min_net_edge_bps: Var::Absent,
        max_copy_price_drift_bps: Var::Absent,
        max_order_slippage_bps: Var::Absent,
        daily_loss_limit_usdc: Var::Absent,
        max_consecutive_losses: Var::Absent,
        max_notional_per_market_usdc: Var::Absent,
        private_key: None,
        address: None,
        api_key: None,
        api_secret: None,
        api_passphrase: None,
    })
    .unwrap()
}

fn counts(pairs: &[(&str, usize)]) -> Table<usize> {
    let mut t = Table::new();
    for (k, v) in pairs {
        t.insert(k.to_string(), *v);
    }
    t
}

#[test]
fn spikes_are_the_most_frequent_reasons() {
    let c = counts(&[("a", 3), ("b", 9), ("z", 5), ("c", 5), ("d", 2), ("e", 7), ("f", 8), ("g", 6)]);
    let spikes = top_spikes(&c, 3);
    assert_eq!(spike_signature(&spikes), "b:9|f:8|e:7|g:6|c:5");
    assert_eq!(spike_signature(&top_spikes(&c, 9)), "b:9");
    assert_eq!(top_spikes(&c, 10).len(), 0);
    assert_eq!(spike_signature(&vec![]), "");
    assert_eq!(total(&c), 45);
}

#[test]
fn breakers_tell_how_the_limits_stand() {
    let mut state = BotState::new(true, d(100.0));
    state.consecutive_loss_events = 3;
    state.day_start_equity_usdc = d(150.0);
    let b = breaker_states(&state, d(50.0), 4, d(1.0));
    assert_eq!(breaker_signature(&b), "drawdown:true|streak:false|notional:false");
    let b = breaker_states(&state, d(50.5), 3, d(0.0));
    assert_eq!(breaker_signature(&b), "drawdown:false|streak:true|notional:true");
    assert_eq!(f64::from_bits(b.drawdown_usdc.bits), 50.0);
}

#[test]
fn unchanged_spikes_wait_for_the_cooldown() {
    let spikes = top_spikes(&counts(&[("a", 30)]), 25);
    let mut memory = AlertPersistedState::default();
    assert!(spike_alert_due(&memory, &spikes, 900, at(1000)));
    memory.last_signature = "a:30".to_string();
    memory.last_sent_at = Some(at(1000));
    assert!(!spike_alert_due(&memory, &spikes, 900, at(1899)));
    assert!(spike_alert_due(&memory, &spikes, 900, at(1900)));
    memory.last_signature = "a:29".to_string();
    assert!(spike_alert_due(&memory, &spikes, 900, at(1001)));
    assert!(!spike_alert_due(&memory, &vec![], 900, at(9999)));
}

#[test]
fn worker_tells_each_change_once() {
    let config = config(2);
    let mut state = BotState::new_at(true, d(100.0), at(0));
    let mut worker = AlertWorker::new(AlertPersistedState::default(), &state, &config);
    state.record_skip_at("kelly_no_edge", at(5000));
    state.record_skip_at("kelly_no_edge", at(5100));
    state.record_skip_at("old", at(100));

    assert_eq!(worker.tick(&state, &config, at(6000)), AlertAction::SendBreakers);
    assert_eq!(worker.total_skips_1h, 2);
    assert_eq!(worker.total_skips_24h, 3);
    assert_eq!(
        worker.breakers_told(&mut state, true, at(6001)),
        AlertAction::Decide { save: true }
    );
    assert_eq!(state.alert_success_count, 1);
    assert_eq!(
        worker.memory.last_breaker_signature,
        "drawdown:false|streak:false|notional:false"
    );
    assert_eq!(worker.decide(&config, at(6001)), AlertAction::SendSpikes);
    assert_eq!(
        worker.spikes_told(&mut state, None, at(6002)),
        AlertAction::Wait { save: true }
    );
    assert_eq!(worker.memory.last_signature, "kelly_no_edge:2");

    assert_eq!(
        worker.tick(&state, &config, at(6060)),
        AlertAction::Decide { save: false }
    );
    assert_eq!(worker.decide(&config, at(6060)), AlertAction::Wait { save: false });
    assert_eq!(worker.phase, AlertPhase::Idle);
    assert_eq!(state.alert_success_count, 2);
}

#[test]
fn failed_delivery_is_counted_and_tried_anew() {
    let config = config(1);
    let mut state = BotState::new_at(true, d(100.0), at(0));
    let mut worker = AlertWorker::new(AlertPersistedState::default(), &state, &config);
    state.record_skip_at("x", at(10));
    assert_eq!(worker.tick(&state, &config, at(20)), AlertAction::SendBreakers);
    assert_eq!(
        worker.breakers_told(&mut state, false, at(21)),
        AlertAction::Decide { save: false }
    );
    assert_eq!(state.alert_failure_count, 0);
    assert_eq!(worker.decide(&config, at(21)), AlertAction::SendSpikes);
    assert_eq!(
        worker.spikes_told(&mut state, Some("timeout".to_string()), at(22)),
        AlertAction::Wait { save: false }
    );
    assert_eq!(state.alert_failure_count, 1);
    assert_eq!(state.last_alert_error.as_deref(), Some("timeout"));
    assert_eq!(worker.tick(&state, &config, at(80)), AlertAction::SendBreakers);
}

#[test]
fn delay_doubles_up_to_a_limit() {
    assert_eq!(retry_delay_with(500, 0, 0), 500);
    assert_eq!(retry_delay_with(500, 1, 7), 1007);
    assert_eq!(retry_delay_with(500, 3, 999), 4000 + 499);
    assert_eq!(retry_delay_with(1, 12, 5), 4096);
    assert_eq!(retry_delay_with(1, 40, 5), 4096);
    assert_eq!(retry_delay_with(0, 3, 5), 0);
    assert_eq!(retry_delay_with(u64::MAX, 1, 3), u64::MAX);
    let delay = retry_delay_ms(500, 2);
    assert!((2000..2500).contains(&delay));
}

#[test]
fn delivery_is_given_up_after_the_last_try() {
    let refused = Delivery::Refused {
        status: "503 Service Unavailable".to_string(),
        body: "busy".to_string(),
    };
    let mut run = Delivering::new(2);
    assert!(matches!(run.tried(&refused), RetryStep::TryAgain));
    assert!(matches!(run.tried(&refused), RetryStep::TryAgain));
    match run.tried(&refused) {
        RetryStep::GiveUp(error) => assert_eq!(error, "status=503 Service Unavailable body=busy"),
        _ => panic!("given up"),
    }
    assert!(matches!(Delivering::new(0).tried(&Delivery::Accepted), RetryStep::Delivered));
}

#[test]
fn errors_say_what_went_wrong() {
    let text = |d: Delivery| match after_attempt(&d, 0, 0) {
        RetryStep::GiveUp(e) => e,
        _ => panic!("given up"),
    };
    assert_eq!(text(Delivery::Failed { error: "refused".to_string() }), "refused");
    assert_eq!(
        text(Delivery::Unread { status: "500".to_string(), error: "eof".to_string() }),
        "status=500 body=<failed reading response body: eof>"
    );
    let long = "x".repeat(401);
    assert_eq!(
        text(Delivery::Refused { status: "500".to_string(), body: long }),
        format!("status=500 body={}...", "x".repeat(400))
    );
}

#[test]
fn long_texts_are_cut_by_characters() {
    assert_eq!(truncate_for_log("äöü", 2), "äö...");
    assert_eq!(truncate_for_log("äöü", 3), "äöü");
    assert_eq!(truncate_for_log("", 0), "");
    assert_eq!(truncate_for_log("a", 0), "...");
}

#[test]
fn signature_is_the_keyed_hash() {
    assert_eq!(
        sign_hmac("Jefe", &b"what do ya want for nothing?".to_vec()),
        "5bdcc146bf60754e6a042426089575c75a003f089d2739839dec58b964ec3843"
    );
}

#[test]
fn time_is_written_by_rfc_3339() {
    assert_eq!(
        alert_time(Timestamp::new(1_709_210_096, 250_000_000).unwrap()),
        "2024-02-29T12:34:56.250+00:00"
    );
}
