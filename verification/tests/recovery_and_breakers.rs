//! Recovery after a restart, and risk limits.

use copytrading_bot::clock::Timestamp;
use copytrading_bot::double::Double;
use copytrading_bot::persistence::{AlertPersistedState, Found, PersistenceStore, StateFile};
use copytrading_bot::state::{BotState, MarketPosition, TradeRecord};
use copytrading_bot::table::{KeySet, Table};

fn d(x: f64) -> Double {
    Double { bits: x.to_bits() }
}

fn f(x: Double) -> f64 {
    f64::from_bits(x.bits)
}

fn now() -> Timestamp {
    let t = chrono::Utc::now();
    Timestamp::new(t.timestamp(), t.timestamp_subsec_nanos()).unwrap()
}

fn sample_trade() -> TradeRecord {
    TradeRecord {
        timestamp: now(),
        whale_address: "0xabc".to_string(),
        market: "0xmarket".to_string(),
        side: "Buy".to_string(),
        price: d(0.45),
        outcome: "YES".to_string(),
        effective_price: d(0.45),
        shares: d(10.0),
        size_usdc: d(4.5),
        kelly_fraction: d(0.1),
        simulated: true,
    }
}

#[test]
fn restart_recovery_roundtrip_persists_all_runtime_state() {
    let store = PersistenceStore::new("roundtrip".to_string());

    let mut bot = BotState::new(true, d(100.0));
    bot.record_trade(sample_trade());
    bot.record_skip("net_edge_below_threshold");
    bot.record_alert_result(true, None);

    let snap = bot.snapshot();
    assert_eq!(store.save_bot_state().file, StateFile::BotState);

    let mut set = KeySet::new();
    set.insert("tx-1".to_string());
    set.insert("tx-2".to_string());
    let mut seen: Table<KeySet> = Table::new();
    seen.insert("0xabc".to_string(), set);
    let (seen_file, job) = store.save_seen_trades(&seen);
    assert_eq!(job.file, StateFile::SeenTrades);

    let alert = AlertPersistedState {
        last_signature: "skip:a".to_string(),
        last_sent_at: Some(now()),
        last_breaker_signature: "drawdown:false|streak:false|notional:false".to_string(),
    };
    assert_eq!(store.save_alert_state().file, StateFile::AlertState);

    let loaded_snap = store
        .load_bot_state(Found::Parsed(snap), now())
        .expect("load bot state")
        .value
        .expect("bot state exists");
    let (loaded_seen, quarantine) = store
        .load_seen_trades(Found::Parsed(seen_file), now())
        .expect("load seen trades");
    let loaded_alert = store
        .load_alert_state(Found::Parsed(alert), now())
        .expect("load alert state")
        .value
        .expect("alert state exists");

    assert!(quarantine.is_none());
    assert_eq!(loaded_snap.trade_count, 1);
    assert_eq!(*loaded_snap.skip_reasons.get("net_edge_below_threshold").unwrap(), 1);
    assert!(loaded_seen.get("0xabc").unwrap().contains("tx-1"));
    assert!(loaded_seen.get("0xabc").unwrap().contains("tx-2"));
    assert_eq!(loaded_seen.len(), 1);
    assert_eq!(loaded_alert.last_signature, "skip:a");
    assert_eq!(
        loaded_alert.last_breaker_signature,
        "drawdown:false|streak:false|notional:false"
    );
}

#[test]
fn corrupted_state_file_is_safely_quarantined() {
    let store = PersistenceStore::new("dir".to_string());
    let at = Timestamp::new(1_709_210_096, 7).unwrap();
    let loaded = store
        .load_bot_state(Found::Corrupted, at)
        .expect("load should not hard-fail");
    assert!(loaded.value.is_none());
    let quarantine = loaded.quarantine.unwrap();
    assert!(quarantine.contains("corrupt"));
    assert_eq!(quarantine, "dir/bot_state.corrupt.20240229T123456.json");
}

#[test]
fn breaker_metrics_move_with_live_account_snapshots() {
    let mut state = BotState::new(false, d(1000.0));

    let mut positions = Table::new();
    positions.insert(
        "m1".to_string(),
        MarketPosition {
            yes_shares: d(100.0),
            yes_cost_usdc: d(60.0),
            no_shares: d(0.0),
            no_cost_usdc: d(0.0),
        },
    );
    let mut marks = Table::new();
    marks.insert("m1".to_string(), d(0.60));

    state.apply_live_account_snapshot(positions.copy(), marks.copy(), d(60.0), d(0.0), d(0.0));
    assert_eq!(f(state.daily_drawdown_usdc()), 0.0);
    assert_eq!(state.consecutive_loss_events, 0);
    assert_eq!(f(state.max_market_notional_usdc()), 60.0);

    state.apply_live_account_snapshot(positions, marks, d(30.0), d(-30.0), d(0.0));
    assert!(f(state.daily_drawdown_usdc()) >= 30.0);
    assert!(state.consecutive_loss_events >= 1);
}
