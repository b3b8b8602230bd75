//! The books.

use copytrading_bot::clock::Timestamp;
use copytrading_bot::double::Double;
use copytrading_bot::state::{BotState, MarketPosition, TradeRecord};
use copytrading_bot::table::Table;

fn d(x: f64) -> Double {
    Double { bits: x.to_bits() }
}

fn f(x: Double) -> f64 {
    f64::from_bits(x.bits)
}

fn now() -> Timestamp {
    let t = chrono::Utc::now();
    Timestamp::new(t.timestamp(), t.timestamp_subsec_nanos()).unwrap()
}

fn before(t: Timestamp, secs: i64) -> Timestamp {
    Timestamp::new(t.secs() - secs, t.nanos()).unwrap()
}

fn make_trade(size_usdc: f64) -> TradeRecord {
    TradeRecord {
        timestamp: now(),
        whale_address: "0xABC".to_string(),
        market: "0xDEF".to_string(),
        side: "Buy".to_string(),
        price: d(0.5),
        outcome: "YES".to_string(),
        effective_price: d(0.5),
        shares: d(size_usdc / 0.5),
        size_usdc: d(size_usdc),
        kelly_fraction: d(0.1),
        simulated: true,
    }
}

#[test]
fn initial_balance_is_set() {
    let state = BotState::new(true, d(100.0));
    assert_eq!(f(state.balance_usdc), 100.0);
    assert_eq!(f(state.equity_usdc), 100.0);
    assert_eq!(f(state.initial_balance_usdc), 100.0);
    assert_eq!(state.trade_count, 0);
    assert!(state.skip_reasons.len() == 0);
}

#[test]
fn trade_reduces_cash_and_keeps_equity_flat_at_entry() {
    let mut state = BotState::new(true, d(100.0));
    state.record_trade(make_trade(10.0));
    assert_eq!(f(state.balance_usdc), 90.0);
    assert_eq!(state.trade_count, 1);
    assert!((f(state.equity_usdc) - 100.0).abs() < 1e-9);
    assert!((f(state.total_pnl()) - 0.0).abs() < 1e-9);
}

#[test]
fn pnl_changes_with_price_marks() {
    let mut state = BotState::new(true, d(100.0));
    let mut t = make_trade(20.0);
    t.price = d(0.40);
    t.effective_price = d(0.40);
    t.shares = d(50.0);
    state.record_trade(t);

    let mut t2 = make_trade(0.0);
    t2.market = "0xDEF".to_string();
    t2.size_usdc = d(0.0);
    t2.shares = d(0.0);
    t2.price = d(0.60);
    state.record_trade(t2);

    assert!(f(state.total_pnl()) > 0.0);
    assert_eq!(f(state.equity_usdc), 80.0 + 50.0 * 0.60);
}

#[test]
fn recent_trades_ring_buffer_caps_at_200() {
    let mut state = BotState::new(false, d(0.0));
    for _ in 0..250 {
        state.record_trade(make_trade(0.0));
    }
    assert_eq!(state.recent_trades.len(), 200);
    assert_eq!(state.trade_count, 250);
}

#[test]
fn uptime_returns_non_empty_string() {
    let state = BotState::new(true, d(100.0));
    let s = state.uptime();
    assert!(!s.is_empty());
}

#[test]
fn skip_reasons_are_counted() {
    let mut state = BotState::new(true, d(100.0));
    state.record_skip("net_edge_below_threshold");
    state.record_skip("net_edge_below_threshold");
    state.record_skip("kelly_no_edge");
    assert_eq!(*state.skip_reasons.get("net_edge_below_threshold").unwrap(), 2);
    assert_eq!(*state.skip_reasons.get("kelly_no_edge").unwrap(), 1);
}

#[test]
fn rolling_skip_reasons_window_counts_correctly() {
    let mut state = BotState::new(true, d(100.0));
    let now = now();
    state.record_skip_at("net_edge_below_threshold", before(now, 10 * 60));
    state.record_skip_at("net_edge_below_threshold", before(now, 2 * 3600));
    state.record_skip_at("kelly_no_edge", before(now, 8 * 3600));
    state.record_skip_at("data_api_error", before(now, 30 * 3600));

    let h1 = state.skip_reasons_since(3600);
    assert_eq!(*h1.get("net_edge_below_threshold").unwrap(), 1);
    assert!(h1.get("kelly_no_edge").is_none());

    let h24 = state.skip_reasons_since(24 * 3600);
    assert_eq!(*h24.get("net_edge_below_threshold").unwrap(), 2);
    assert_eq!(*h24.get("kelly_no_edge").unwrap(), 1);
    assert!(h24.get("data_api_error").is_none());
}

#[test]
fn snapshot_roundtrip_restores_state() {
    let mut state = BotState::new(true, d(100.0));
    state.record_trade(make_trade(10.0));
    state.record_skip("x");
    let snap = state.snapshot();

    let mut restored = BotState::new(true, d(1.0));
    restored.restore_from_snapshot(snap);

    assert_eq!(restored.trade_count, 1);
    assert_eq!(*restored.skip_reasons.get("x").unwrap(), 1);
    assert_eq!(f(restored.balance_usdc), 90.0);
    assert_eq!(restored.recent_trades.len(), 1);
    assert_eq!(restored.recent_trades[0].market, "0xDEF");
    assert_eq!(f(restored.market_positions.get("0xDEF").unwrap().yes_shares), 20.0);
    assert_eq!(restored.day_marker_utc, state.day_marker_utc);
}

#[test]
fn window_is_closed_at_its_beginning() {
    let at = Timestamp::new(1_700_000_000, 500).unwrap();
    let mut state = BotState::new_at(true, d(1.0), at);
    state.record_skip_at("edge", Timestamp::new(1_699_996_400, 500).unwrap());
    state.record_skip_at("past", Timestamp::new(1_699_996_400, 499).unwrap());
    let counts = state.skip_reasons_in_window(at, 3600);
    assert_eq!(*counts.get("edge").unwrap(), 1);
    assert!(counts.get("past").is_none());
    assert_eq!(state.skip_reasons_in_window(at, 0).len(), 0);
    assert_eq!(state.skip_reasons_in_window(at, -5).len(), 0);
}

#[test]
fn skipped_signals_are_remembered_up_to_a_limit() {
    let at = Timestamp::new(1_700_000_000, 0).unwrap();
    let mut state = BotState::new_at(true, d(1.0), at);
    for _ in 0..5_010 {
        state.record_skip_at("again", at);
    }
    assert_eq!(state.recent_skip_events.len(), 5_000);
    assert_eq!(*state.skip_reasons.get("again").unwrap(), 5_010);
}

#[test]
fn uptime_is_written_in_hours_minutes_and_seconds() {
    let start = Timestamp::new(1_000_000, 900_000_000).unwrap();
    let state = BotState::new_at(true, d(1.0), start);
    let at = |secs: i64, nanos: u32| Timestamp::new(1_000_000 + secs, nanos).unwrap();
    assert_eq!(state.uptime_at(at(0, 900_000_000)), "0s");
    assert_eq!(state.uptime_at(at(60, 0)), "59s");
    assert_eq!(state.uptime_at(at(60, 900_000_000)), "1m 0s");
    assert_eq!(state.uptime_at(at(3661, 900_000_000)), "1h 1m 1s");
    assert_eq!(state.uptime_at(at(8131, 0)), "2h 15m 30s");
    assert_eq!(state.uptime_at(at(-50, 0)), "0s");
}

#[test]
fn day_marker_is_the_utc_date() {
    let state = BotState::new_at(true, d(1.0), Timestamp::new(1_709_164_800, 0).unwrap());
    assert_eq!(state.day_marker_utc, "2024-02-29");
    let state = BotState::new_at(true, d(1.0), Timestamp::new(1_709_164_799, 999_999_999).unwrap());
    assert_eq!(state.day_marker_utc, "2024-02-28");
    let today = chrono::Utc::now().date_naive().to_string();
    let fresh = BotState::new(true, d(1.0));
    let later = chrono::Utc::now().date_naive().to_string();
    assert!(fresh.day_marker_utc == today || fresh.day_marker_utc == later);
}

#[test]
fn new_day_resets_drawdown_and_streak() {
    let mut state = BotState::new_at(true, d(100.0), Timestamp::new(0, 0).unwrap());
    let mut t = make_trade(50.0);
    t.shares = d(100.0);
    state.record_trade_on(t, "1970-01-01");
    let mut fall = make_trade(0.0);
    fall.price = d(0.1);
    fall.shares = d(0.0);
    state.record_trade_on(fall, "1970-01-01");
    assert_eq!(state.consecutive_loss_events, 1);
    assert_eq!(f(state.daily_drawdown_usdc()), 40.0);
    let mut again = make_trade(0.0);
    again.price = d(0.1);
    again.shares = d(0.0);
    state.record_trade_on(again, "1970-01-02");
    assert_eq!(f(state.daily_drawdown_usdc()), 0.0);
    assert_eq!(state.consecutive_loss_events, 0);
    assert_eq!(state.day_marker_utc, "1970-01-02");
}

#[test]
fn balance_stops_at_zero() {
    let mut state = BotState::new(true, d(5.0));
    state.record_trade(make_trade(10.0));
    assert_eq!(f(state.balance_usdc), 0.0);
}

#[test]
fn unknown_outcome_adds_no_shares() {
    let mut state = BotState::new(true, d(5.0));
    let mut t = make_trade(1.0);
    t.outcome = "MAYBE".to_string();
    state.record_trade(t);
    let pos = state.market_positions.get("0xDEF").unwrap();
    assert_eq!(f(pos.yes_shares), 0.0);
    assert_eq!(f(pos.no_shares), 0.0);
}

#[test]
fn no_side_is_valued_at_the_opposite_price() {
    let mut state = BotState::new(true, d(100.0));
    let mut t = make_trade(30.0);
    t.outcome = "NO".to_string();
    t.price = d(0.7);
    t.shares = d(100.0);
    state.record_trade(t);
    assert_eq!(f(state.equity_usdc), 70.0 + 100.0 * (1.0 - 0.7));
    assert_eq!(f(state.market_notional_usdc("0xDEF")), 30.0);
    assert_eq!(f(state.market_notional_usdc("elsewhere")), 0.0);
}

#[test]
fn price_outside_the_unit_interval_is_not_kept() {
    let mut state = BotState::new(true, d(100.0));
    let mut t = make_trade(10.0);
    t.price = d(1.0);
    t.shares = d(40.0);
    state.record_trade(t);
    assert!(state.last_yes_prices.get("0xDEF").is_none());
    assert_eq!(f(state.equity_usdc), 90.0 + 40.0 * 0.25);
}

#[test]
fn alert_results_are_counted() {
    let mut state = BotState::new(true, d(1.0));
    state.record_alert_result(false, Some("down".to_string()));
    assert_eq!(state.alert_failure_count, 1);
    assert_eq!(state.last_alert_error.as_deref(), Some("down"));
    assert!(state.last_alert_sent_at.is_none());
    state.record_alert_result(true, None);
    assert_eq!(state.alert_success_count, 1);
    assert!(state.last_alert_error.is_none());
    assert!(state.last_alert_sent_at.is_some());
}

#[test]
fn largest_notional_is_found() {
    let mut state = BotState::new(true, d(100.0));
    let pos = |cost: f64| MarketPosition {
        yes_shares: d(1.0),
        yes_cost_usdc: d(cost),
        no_shares: d(1.0),
        no_cost_usdc: d(1.0),
    };
    let mut positions = Table::new();
    positions.insert("a".to_string(), pos(3.0));
    positions.insert("b".to_string(), pos(9.0));
    positions.insert("c".to_string(), pos(4.0));
    state.apply_live_account_snapshot(positions, Table::new(), d(0.0), d(0.0), d(7.0));
    assert_eq!(f(state.max_market_notional_usdc()), 10.0);
    assert_eq!(f(state.realized_pnl_usdc), 0.0);
    state.apply_live_account_snapshot(Table::new(), Table::new(), d(0.0), d(0.0), d(9.5));
    assert_eq!(f(state.realized_pnl_usdc), 2.5);
    assert_eq!(f(state.equity_usdc), 102.5);
    assert_eq!(f(state.max_market_notional_usdc()), 0.0);
}

#[test]
fn room_is_left_until_a_counter_is_full() {
    let mut state = BotState::new(true, d(1.0));
    assert!(state.has_room());
    state.skip_reasons.insert("full".to_string(), usize::MAX);
    assert!(!state.has_room());
}

#[test]
fn window_counts_never_exceed_totals() {
    let mut state = BotState::new_at(true, d(1.0), Timestamp::new(0, 0).unwrap());
    for i in 0..40 {
        let reason = if i % 3 == 0 { "a" } else { "b" };
        state.record_skip_at(reason, Timestamp::new(i * 10, 0).unwrap());
        for window in [0, 1, 55, 1000] {
            let counts = state.skip_reasons_in_window(Timestamp::new(i * 10, 0).unwrap(), window);
            for reason in ["a", "b"] {
                let total = state.skip_reasons.get(reason).copied().unwrap_or(0);
                assert!(counts.get(reason).copied().unwrap_or(0) <= total);
            }
        }
    }
}

#[test]
fn utc_days_part_at_midnight() {
    let midnight = |days: i64| Timestamp::new(days * 86_400, 0).unwrap();
    let marker = |t: Timestamp| BotState::new_at(true, d(1.0), t).day_marker_utc;
    let mut last = String::new();
    for day in [-800_000, -719_528, -1, 0, 1, 59, 11_016, 19_782, 2_932_896, 2_932_897] {
        let first = marker(midnight(day));
        assert_eq!(first, marker(Timestamp::new(day * 86_400 + 86_399, 999_999_999).unwrap()));
        assert_ne!(first, marker(midnight(day + 1)));
        assert_ne!(first, last);
        last = first;
    }
}

#[test]
fn unpriced_market_on_one_side_adds_no_profit() {
    for (size, shares) in [(1.0, 49.0), (10.0, 40.0), (0.1, 0.3), (17.3, 61.0), (99.0, 101.0)] {
        for outcome in ["YES", "NO"] {
            let mut state = BotState::new(true, d(1000.0));
            let mut t = make_trade(size);
            t.outcome = outcome.to_string();
            t.price = d(1.0);
            t.shares = d(shares);
            state.record_trade(t);
            assert!(state.last_yes_prices.get("0xDEF").is_none());
            let average = size / shares;
            let worth = if outcome == "YES" {
                let worth = shares * average;
                assert!(worth.to_bits().abs_diff(size.to_bits()) <= 1);
                worth
            } else {
                shares * (1.0 - (1.0 - average))
            };
            assert_eq!(f(state.unrealized_pnl_usdc), worth - size);
            assert!((worth - size).abs() <= 3.5 * shares * f64::EPSILON);
        }
    }
}

#[test]
fn books_are_valued_as_the_exact_sums() {
    let mut state = BotState::new(true, d(10_000.0));
    let trades = [
        ("a", "YES", 0.37, 41.0, 12.25),
        ("b", "NO", 0.81, 113.0, 21.5),
        ("a", "NO", 0.42, 7.0, 4.125),
        ("c", "YES", 0.03, 900.0, 25.0),
    ];
    for (market, outcome, price, shares, size) in trades {
        let mut t = make_trade(size);
        t.market = market.to_string();
        t.outcome = outcome.to_string();
        t.price = d(price);
        t.shares = d(shares);
        state.record_trade(t);
    }
    let value = 41.0 * 0.42 + 7.0 * (1.0 - 0.42) + 113.0 * (1.0 - 0.81) + 900.0 * 0.03;
    let cost = 12.25 + 21.5 + 4.125 + 25.0;
    assert!((f(state.equity_usdc) - (10_000.0 - cost + value)).abs() <= 1e-9);
    assert!((f(state.unrealized_pnl_usdc) - (value - cost)).abs() <= 1e-9);
}
