//! Looks at wallets, what is remembered, and accounts.

use copytrading_bot::clock::Timestamp;
use copytrading_bot::config::{Config, Environment, Var};
use copytrading_bot::double::Double;
use copytrading_bot::investigation::scoring::TraderProfile;
use copytrading_bot::quantity::Quantity;
use copytrading_bot::state::BotState;
use copytrading_bot::table::{KeySet, Table};
use copytrading_bot::trading::account::{sync_live_account_state, OpenPosition};
use copytrading_bot::trading::cycle::{Cycle, CycleAction, CycleEvent, Phase};
use copytrading_bot::trading::decision::{SkipReason, TradeSide};
use copytrading_bot::trading::live::{Action, Event};
use copytrading_bot::trading::runtime::{
    next_account_page, trade_key, TradeFeed, TradingRuntime, WhaleTrade,
};
use copytrading_bot::trading::{begin_cycle, tokens_held, whale_addresses, whales_changed, Watch};

fn d(x: f64) -> Double {
    Double { bits: x.to_bits() }
}

fn f(x: Double) -> f64 {
    f64::from_bits(x.bits)
}

fn at(secs: i64) -> Timestamp {
    Timestamp::new(secs, 0).unwrap()
}

fn empty() -> Environment {
    Environment {
        dry_run: Var::Value("true".to_string()),
        dry_run_balance_usdc: Var::Absent,
        dashboard_port: Var::Absent,
        skip_alert_webhook_url: None,
        skip_alert_1h_threshold: Var::Absent,
        skip_alert_cooldown_secs: Var::Absent,
        skip_alert_eval_interval_secs: Var::Absent,
        skip_alert_hmac_secret: None,
        skip_alert_max_retries: Var::Absent,
        skip_alert_retry_backoff_ms: Var::Absent,
        state_dir: Var::Absent,
        state_flush_interval_secs: Var::Absent,
        account_sync_interval_secs: Var::Absent,
        leaderboard_fetch_size: Var::Absent,
        max_whales: Var::Absent,
        min_resolved_trades: Var::Absent,
        investigation_interval_secs: Var::Absent,
        bayes_prior_alpha: Var::Absent,
        bayes_prior_beta: Var::Absent,
        bayes_confidence_z: Var::Absent,
        bankroll_usdc: Var::Absent,
        kelly_fraction: Var::Absent,
        max_position_fraction: Var::Absent,
        poll_interval_secs: Var::Absent,
        estimated_fee_bps: Var::Absent,
        estimated_slippage_bps: Var::Absent,
        adverse_selection_bps: Var::Absent,
        min_net_edge_bps: Var::Absent,
        max_copy_price_drift_bps: Var::Absent,
        max_order_slippage_bps: Var::Absent,
        daily_loss_limit_usdc: Var::Absent,
        max_consecutive_losses: Var::Absent,
        max_notional_per_market_usdc: Var::Absent,
        private_key: None,
        address: None,
        api_key: None,
        api_secret: None,
        api_passphrase: None,
    }
}

fn config(dry_run: bool) -> Config {
    let mut e = empty();
    e.dry_run = Var::Value(dry_run.to_string());
    for slot in [
        &mut e.private_key,
        &mut e.address,
        &mut e.api_key,
        &mut e.api_secret,
        &mut e.api_passphrase,
    ] {
        *slot = Some("x".to_string());
    }
    Config::from_env(&e).unwrap()
}

fn whale(address: &str, tokens: &[&str], updated: i64) -> TraderProfile {
    TraderProfile {
        address: address.to_string(),
        period_pnl: Quantity { mantissa: 0, scale: 0 },
        win_rate: d(0.7),
        posterior_win_rate: d(0.7),
        conservative_win_rate: d(0.7),
        wins: 7,
        resolved_trade_count: 10,
        volume: Quantity { mantissa: 0, scale: 0 },
        score: d(0.5),
        active_asset_ids: tokens.iter().map(|t| t.to_string()).collect(),
        updated_at: at(updated),
    }
}

fn trade(hash: &str, price: f64) -> WhaleTrade {
    WhaleTrade {
        transaction_hash: hash.to_string(),
        asset: "77".to_string(),
        timestamp: -5,
        side: TradeSide::Buy,
        price: Some(d(price)),
        condition_id: "0xm".to_string(),
    }
}

fn seen(keys: &[&str]) -> KeySet {
    let mut s = KeySet::new();
    for k in keys {
        s.insert(k.to_string());
    }
    s
}

fn runtime(wallet: &str, keys: &[&str]) -> TradingRuntime {
    let mut t = Table::new();
    t.insert(wallet.to_string(), seen(keys));
    TradingRuntime::new(t, 0)
}

fn skips(state: &BotState, reason: SkipReason) -> usize {
    state.skip_reasons.get(reason.text()).copied().unwrap_or(0)
}

#[test]
fn key_joins_hash_token_and_time() {
    assert_eq!(trade_key(&trade("0xh", 0.5)), "0xh-77--5");
}

#[test]
fn simulated_trades_are_recorded_oldest_first() {
    let c = config(true);
    let mut state = BotState::new_at(true, d(100.0), at(0));
    let mut rt = runtime("w", &["old"]);
    let mut cycle = Cycle::new(vec![whale("w", &["77"], 0)], None, at(10));
    let mut go = |cycle: &mut Cycle, rt: &mut TradingRuntime, e| cycle.step(&mut state, rt, &c, e, at(10));
    assert!(matches!(go(&mut cycle, &mut rt, CycleEvent::Go), CycleAction::Continue));
    assert!(matches!(go(&mut cycle, &mut rt, CycleEvent::Go), CycleAction::ParseAddress));
    assert!(matches!(
        go(&mut cycle, &mut rt, CycleEvent::AddressParsed(true)),
        CycleAction::FetchPage(0)
    ));
    let page = vec![trade("new2", 0.4), trade("bad", 1.5), trade("new1", 0.4)];
    assert!(matches!(go(&mut cycle, &mut rt, CycleEvent::Page(page)), CycleAction::Continue));
    for _ in 0..4 {
        assert!(matches!(go(&mut cycle, &mut rt, CycleEvent::Go), CycleAction::Continue));
    }
    assert!(matches!(go(&mut cycle, &mut rt, CycleEvent::Go), CycleAction::Finished));
    assert_eq!(state.trade_count, 2);
    assert_eq!(f(state.recent_trades[1].size_usdc), 20.0);
    assert_eq!(f(state.recent_trades[0].size_usdc), 16.0);
    assert!(state.recent_trades[0].simulated);
    assert_eq!(state.recent_trades[0].outcome, "YES");
    assert_eq!(skips(&state, SkipReason::InvalidMarketPrice), 1);
    assert_eq!(f(rt.exposure("0xm")), 36.0);
    assert!(rt.seen_dirty);
    let known = rt.seen_trades_of("w");
    for key in ["old", "new1-77--5", "new2-77--5", "bad-77--5"] {
        assert!(known.contains(key));
    }
}

#[test]
fn first_trades_of_a_wallet_are_not_copied() {
    let c = config(true);
    let mut state = BotState::new_at(true, d(100.0), at(0));
    let mut rt = TradingRuntime::new(Table::new(), 0);
    let mut cycle = Cycle::new(vec![whale("w", &[], 0)], None, at(10));
    for e in [
        CycleEvent::Go,
        CycleEvent::Go,
        CycleEvent::AddressParsed(true),
        CycleEvent::Page(vec![trade("a", 0.4), trade("b", 0.4)]),
    ] {
        cycle.step(&mut state, &mut rt, &c, e, at(10));
    }
    assert_eq!(cycle.phase, Phase::Whale);
    assert_eq!(skips(&state, SkipReason::PrimedHistoricalBackfill), 1);
    assert_eq!(state.trade_count, 0);
    assert_eq!(rt.seen_trades_of("w").len(), 2);
    assert!(rt.seen_dirty);
}

#[test]
fn wallets_that_do_not_qualify_are_left_out() {
    let c = config(true);
    let mut state = BotState::new_at(true, d(100.0), at(0));
    let mut rt = TradingRuntime::new(Table::new(), 0);
    let whales = vec![
        whale("other", &["1"], 20_000),
        whale("stale", &["77"], 9_199),
        whale("bad", &["77"], 9_200),
        whale("down", &["77"], 9_200),
        whale("idle", &["77"], 9_200),
    ];
    let mut cycle = Cycle::new(whales, Some("77".to_string()), at(20_000));
    let mut go = |e| cycle.step(&mut state, &mut rt, &c, e, at(20_000));
    assert!(matches!(go(CycleEvent::Go), CycleAction::Continue));
    assert!(matches!(go(CycleEvent::Go), CycleAction::Continue));
    assert!(matches!(go(CycleEvent::Go), CycleAction::Continue));
    assert!(matches!(go(CycleEvent::Go), CycleAction::ParseAddress));
    assert!(matches!(go(CycleEvent::AddressParsed(false)), CycleAction::Continue));
    assert!(matches!(go(CycleEvent::Go), CycleAction::ParseAddress));
    assert!(matches!(go(CycleEvent::AddressParsed(true)), CycleAction::FetchPage(0)));
    assert!(matches!(go(CycleEvent::PageFailed), CycleAction::Continue));
    assert!(matches!(go(CycleEvent::Go), CycleAction::ParseAddress));
    assert!(matches!(go(CycleEvent::AddressParsed(true)), CycleAction::FetchPage(0)));
    assert!(matches!(go(CycleEvent::Page(vec![])), CycleAction::Continue));
    assert!(matches!(go(CycleEvent::Go), CycleAction::Finished));
    assert!(matches!(go(CycleEvent::Go), CycleAction::Nothing));
    assert_eq!(skips(&state, SkipReason::StaleWhaleProfile), 1);
    assert_eq!(skips(&state, SkipReason::InvalidWhaleAddress), 1);
    assert_eq!(skips(&state, SkipReason::DataApiError), 1);
}

#[test]
fn low_balance_ends_the_look() {
    let c = config(true);
    let mut state = BotState::new_at(true, d(6.0), at(0));
    let mut rt = runtime("w", &["old"]);
    let mut cycle = Cycle::new(vec![whale("w", &[], 0)], None, at(10));
    for e in [
        CycleEvent::Go,
        CycleEvent::Go,
        CycleEvent::AddressParsed(true),
        CycleEvent::Page(vec![trade("b", 0.4), trade("a", 0.4)]),
        CycleEvent::Go,
    ] {
        cycle.step(&mut state, &mut rt, &c, e, at(10));
    }
    assert_eq!(state.trade_count, 1);
    assert!(matches!(
        cycle.step(&mut state, &mut rt, &c, CycleEvent::Go, at(10)),
        CycleAction::Finished
    ));
    assert_eq!(skips(&state, SkipReason::BalanceBelowMinimum), 1);
    assert!(rt.seen_dirty);
    assert!(rt.seen_trades_of("w").contains("a-77--5"));
    assert!(rt.seen_trades_of("w").contains("b-77--5"));
}

#[test]
fn ended_look_keeps_the_newest_trades() {
    let c = config(true);
    let mut state = BotState::new_at(true, d(6.0), at(0));
    let keys: Vec<String> = (0..200).map(|i| format!("k{i}")).collect();
    let refs: Vec<&str> = keys.iter().map(|k| k.as_str()).collect();
    let mut rt = runtime("w", &refs);
    let mut cycle = Cycle::new(vec![whale("w", &[], 0)], None, at(10));
    for e in [
        CycleEvent::Go,
        CycleEvent::Go,
        CycleEvent::AddressParsed(true),
        CycleEvent::Page(vec![trade("b", 0.4), trade("a", 0.4)]),
        CycleEvent::Go,
        CycleEvent::Go,
    ] {
        cycle.step(&mut state, &mut rt, &c, e, at(10));
    }
    assert_eq!(cycle.phase, Phase::Over);
    let known = rt.seen_trades_of("w");
    assert_eq!(known.len(), 200);
    assert!(!known.contains("k1"));
    for key in ["k2", "k199", "a-77--5", "b-77--5"] {
        assert!(known.contains(key));
    }
}

#[test]
fn repeated_trade_is_judged_once() {
    let c = config(true);
    let mut state = BotState::new_at(true, d(100.0), at(0));
    let mut rt = runtime("w", &["old"]);
    let mut cycle = Cycle::new(vec![whale("w", &[], 0)], None, at(10));
    let mut go = |e| cycle.step(&mut state, &mut rt, &c, e, at(10));
    go(CycleEvent::Go);
    go(CycleEvent::Go);
    go(CycleEvent::AddressParsed(true));
    let mut page: Vec<WhaleTrade> = (0..24).map(|i| trade(&format!("bad{i}"), 1.5)).collect();
    page.push(trade("twice", 0.4));
    assert!(matches!(go(CycleEvent::Page(page)), CycleAction::FetchPage(25)));
    assert!(matches!(
        go(CycleEvent::Page(vec![trade("twice", 0.4)])),
        CycleAction::Continue
    ));
    for _ in 0..27 {
        assert!(matches!(go(CycleEvent::Go), CycleAction::Continue));
    }
    assert!(matches!(go(CycleEvent::Go), CycleAction::Finished));
    assert_eq!(state.trade_count, 1);
    assert_eq!(skips(&state, SkipReason::InvalidMarketPrice), 24);
    assert_eq!(rt.seen_trades_of("w").len(), 26);
}

#[test]
fn live_trade_is_recorded_when_its_order_is_posted() {
    let c = config(false);
    let mut state = BotState::new_at(false, d(100.0), at(0));
    let mut rt = runtime("w", &["old"]);
    let mut cycle = Cycle::new(vec![whale("w", &[], 0)], None, at(10));
    let mut go = |e| cycle.step(&mut state, &mut rt, &c, e, at(10));
    go(CycleEvent::Go);
    go(CycleEvent::Go);
    go(CycleEvent::AddressParsed(true));
    go(CycleEvent::Page(vec![trade("b", 0.4), trade("a", 0.4)]));
    assert!(matches!(go(CycleEvent::Go), CycleAction::PrepareOrder));
    let ready = Event::Prepared { authenticated: true, token_known: true };
    assert!(matches!(go(CycleEvent::Order(ready)), CycleAction::Order(Action::FetchQuote)));
    assert!(matches!(
        go(CycleEvent::Order(Event::Quoted(None))),
        CycleAction::Continue
    ));
    assert!(matches!(go(CycleEvent::Go), CycleAction::PrepareOrder));
    let q = Quantity { mantissa: 4, scale: 1 };
    for e in [
        ready,
        Event::Quoted(Some(Some(d(0.4)))),
        Event::Converted(Some(q)),
        Event::Converted(Some(q)),
        Event::Succeeded,
        Event::Succeeded,
        Event::Succeeded,
    ] {
        assert!(matches!(go(CycleEvent::Order(e)), CycleAction::Order(_)));
    }
    let posted = Event::Posted { accepted: true };
    assert!(matches!(go(CycleEvent::Order(posted)), CycleAction::Continue));
    assert_eq!(state.trade_count, 1);
    assert_eq!(f(state.balance_usdc), 80.0);
    assert!(!state.recent_trades[0].simulated);
    assert_eq!(skips(&state, SkipReason::LiveQuoteFetchFailed), 1);
    assert_eq!(f(rt.exposure("0xm")), 20.0);
}

#[test]
fn refused_order_is_not_recorded() {
    let c = config(false);
    let mut state = BotState::new_at(false, d(100.0), at(0));
    let mut rt = runtime("w", &["old"]);
    let mut cycle = Cycle::new(vec![whale("w", &[], 0)], None, at(10));
    let mut go = |e| cycle.step(&mut state, &mut rt, &c, e, at(10));
    go(CycleEvent::Go);
    go(CycleEvent::Go);
    go(CycleEvent::AddressParsed(true));
    go(CycleEvent::Page(vec![trade("a", 0.4)]));
    go(CycleEvent::Go);
    let q = Quantity { mantissa: 4, scale: 1 };
    for e in [
        Event::Prepared { authenticated: true, token_known: true },
        Event::Quoted(Some(Some(d(0.4)))),
        Event::Converted(Some(q)),
        Event::Converted(Some(q)),
        Event::Succeeded,
        Event::Succeeded,
        Event::Succeeded,
    ] {
        assert!(matches!(go(CycleEvent::Order(e)), CycleAction::Order(_)));
    }
    let refused = Event::Posted { accepted: false };
    assert!(matches!(go(CycleEvent::Order(refused)), CycleAction::Continue));
    assert_eq!(state.trade_count, 0);
    assert_eq!(f(state.balance_usdc), 100.0);
    assert_eq!(skips(&state, SkipReason::OrderPostFailed), 1);
    assert_eq!(f(rt.exposure("0xm")), 0.0);
}

#[test]
fn reached_limits_stop_a_look() {
    let c = config(true);
    let mut state = BotState::new_at(true, d(100.0), at(0));
    assert!(begin_cycle(&mut state, &c, at(1)));
    state.consecutive_loss_events = 8;
    assert!(!begin_cycle(&mut state, &c, at(1)));
    assert_eq!(skips(&state, SkipReason::MaxConsecutiveLossesReached), 1);
    state.day_start_equity_usdc = d(250.0);
    assert!(!begin_cycle(&mut state, &c, at(1)));
    assert_eq!(skips(&state, SkipReason::DailyLossLimitReached), 1);
    state.balance_usdc = d(4.0);
    assert!(!begin_cycle(&mut state, &c, at(1)));
    assert_eq!(skips(&state, SkipReason::BalanceBelowMinimum), 1);
}

#[test]
fn pages_are_fetched_until_something_is_known() {
    let page = |from: usize, n: usize| -> Vec<WhaleTrade> {
        (from..from + n).map(|i| trade(&format!("t{i}"), 0.5)).collect()
    };
    let none = seen(&[]);
    let mut feed = TradeFeed::new();
    assert!(feed.take_page(page(0, 25), &none));
    assert_eq!(feed.offset, 25);
    assert!(feed.take_page(page(25, 25), &none));
    assert!(feed.take_page(page(50, 25), &none));
    assert!(!feed.take_page(page(75, 25), &none));
    assert_eq!(feed.unseen.len(), 100);

    let mut feed = TradeFeed::new();
    assert!(!feed.take_page(page(0, 24), &none));
    let mut feed = TradeFeed::new();
    assert!(!feed.take_page(page(0, 25), &seen(&["t3-77--5"])));
    assert_eq!(feed.unseen.len(), 24);
    let mut feed = TradeFeed::new();
    assert!(!feed.take_page(vec![], &none));
}

#[test]
fn account_pages_end_with_a_short_one() {
    assert_eq!(next_account_page(0, 200), Some(200));
    assert_eq!(next_account_page(0, 199), None);
    assert_eq!(next_account_page(0, 0), None);
    assert_eq!(next_account_page(9_600, 200), Some(9_800));
    assert_eq!(next_account_page(9_800, 200), None);
}

#[test]
fn seen_trades_are_capped() {
    let keys: Vec<String> = (0..201).map(|i| format!("k{i}")).collect();
    let refs: Vec<&str> = keys.iter().map(|k| k.as_str()).collect();
    let mut rt = runtime("w", &refs);
    rt.close_wallet("w", &vec!["k200".to_string(), "k199".to_string()]);
    assert_eq!(rt.seen_trades_of("w").len(), 200);
    assert!(!rt.seen_trades_of("w").contains("k0"));
    for key in &refs[1..] {
        assert!(rt.seen_trades_of("w").contains(key));
    }
    assert!(rt.seen_dirty);
    let mut rt = runtime("w", &refs[..200]);
    rt.close_wallet("w", &vec![]);
    assert_eq!(rt.seen_trades_of("w").len(), 200);
    assert!(!rt.seen_dirty);
}

#[test]
fn memory_is_pruned() {
    let mut rt = runtime("gone", &["x"]);
    rt.note_trade("kept", "y".to_string());
    rt.set_exposure("old", d(1.0), at(0));
    rt.set_exposure("new", d(2.0), at(1));
    rt.prune(&vec![whale("kept", &[], 0)], at(86_401));
    assert_eq!(rt.seen_trades_of("gone").len(), 0);
    assert!(rt.seen_trades_of("kept").contains("y"));
    assert_eq!(f(rt.exposure("old")), 0.0);
    assert_eq!(f(rt.exposure("new")), 2.0);
}

#[test]
fn stores_and_synchronisations_come_due() {
    let mut rt = TradingRuntime::new(Table::new(), 1_000);
    assert!(!rt.persist_due(99_000_000_000));
    rt.mark_seen_dirty();
    assert!(!rt.persist_due(15_000_000_999));
    assert!(rt.persist_due(15_000_001_000));
    rt.persisted(20_000_000_000);
    assert!(!rt.persist_due(90_000_000_000));
    let live = config(false);
    assert!(rt.sync_due(&live, 1_000));
    assert!(!rt.sync_due(&config(true), 1_000));
    rt.synced(5);
    assert!(!rt.sync_due(&live, 120_000_000_004));
    assert!(rt.sync_due(&live, 120_000_000_005));
}

#[test]
fn watch_smooths_bursts() {
    let whales = vec![whale("a", &["1", "2"], 0), whale("b", &["2", "3"], 0)];
    let mut watch = Watch::new(&whales, 0);
    assert!(watch.on_book_update(0));
    assert!(!watch.on_book_update(749_999_999));
    assert!(watch.on_book_update(750_000_000));
    watch.on_poll(1_000_000_000);
    assert!(!watch.on_book_update(1_500_000_000));
    assert!(!watch.outdated(&whales));
    let tokens = tokens_held(&whales);
    assert_eq!(tokens.len(), 3);
    assert_eq!(tokens.at(2), "3");
    let before = whale_addresses(&whales);
    assert!(whales_changed(&before, &vec![whale("b", &[], 0), whale("a", &[], 0)]));
    assert!(whales_changed(&before, &vec![whale("a", &[], 0)]));
}

#[test]
fn account_replaces_the_books() {
    let mut state = BotState::new_at(false, d(1000.0), at(0));
    let open = |market: &str, outcome: &str, size: f64, cur: Option<f64>| OpenPosition {
        market: market.to_string(),
        outcome: outcome.to_string(),
        size: Some(d(size)),
        avg_price: Some(d(0.5)),
        cur_price: cur.map(d),
        cash_pnl: Some(d(2.0)),
    };
    let positions = vec![
        open("m", "Yes", 10.0, Some(0.6)),
        open("m", "No", 4.0, Some(0.3)),
        open("n", "YES", 0.0, Some(0.6)),
        open("o", "yes", 2.0, None),
    ];
    sync_live_account_state(&mut state, &positions, &vec![Some(d(3.0)), None, Some(d(4.0))], at(0));
    let m = state.market_positions.get("m").unwrap();
    assert_eq!(f(m.yes_shares), 10.0);
    assert_eq!(f(m.no_cost_usdc), 2.0);
    assert_eq!(f(*state.last_yes_prices.get("m").unwrap()), 1.0 - 0.3);
    assert!(state.market_positions.get("n").is_none());
    assert_eq!(f(*state.last_yes_prices.get("o").unwrap()), 0.5);
    assert_eq!(f(state.unrealized_pnl_usdc), 6.0);
    assert_eq!(f(state.realized_pnl_baseline_usdc.unwrap()), 7.0);
    assert_eq!(f(state.realized_pnl_usdc), 0.0);
    assert_eq!(f(state.equity_usdc), 1006.0);
    assert_eq!(f(state.balance_usdc), 1006.0 - (10.0 * 0.6 + 4.0 * 0.3 + 2.0 * 0.5));
}

#[test]
fn realized_profit_is_measured_from_the_first_synchronisation() {
    let mut state = BotState::new_at(false, d(1000.0), at(0));
    let none: Vec<OpenPosition> = vec![];
    for (total, realized) in [(7.0, 0.0), (9.5, 2.5), (4.0, -3.0), (7.0, 0.0)] {
        sync_live_account_state(&mut state, &none, &vec![Some(d(total))], at(0));
        assert_eq!(f(state.realized_pnl_baseline_usdc.unwrap()), 7.0);
        assert_eq!(f(state.realized_pnl_usdc), realized);
        assert_eq!(f(state.equity_usdc), 1000.0 + realized);
    }
}

#[test]
fn judged_trade_is_not_judged_again_in_later_looks() {
    let c = config(true);
    let mut state = BotState::new_at(true, d(100.0), at(0));
    let mut rt = runtime("w", &["old"]);
    for look in 0..9 {
        let mut page: Vec<WhaleTrade> = match look {
            0 => vec![],
            _ => (0..24).map(|i| trade(&format!("bad{look}x{i}"), 1.5)).collect(),
        };
        page.push(trade("copied", 0.4));
        let mut cycle = Cycle::new(vec![whale("w", &[], 0)], None, at(10));
        let mut event = CycleEvent::Go;
        let mut page = Some(page);
        loop {
            event = match cycle.step(&mut state, &mut rt, &c, event, at(10)) {
                CycleAction::Continue => CycleEvent::Go,
                CycleAction::ParseAddress => CycleEvent::AddressParsed(true),
                CycleAction::FetchPage(0) => CycleEvent::Page(page.take().unwrap()),
                CycleAction::Finished => break,
                _ => panic!("unexpected action"),
            };
        }
        assert!(rt.seen_trades_of("w").contains("copied-77--5"));
    }
    assert_eq!(state.trade_count, 1);
    assert_eq!(skips(&state, SkipReason::InvalidMarketPrice), 8 * 24);
    assert_eq!(rt.seen_trades_of("w").len(), 194);
}

#[test]
fn first_trades_are_remembered_oldest_first() {
    let mut rt = TradingRuntime::new(Table::new(), 0);
    rt.receive("w", &vec![trade("newest", 0.4), trade("middle", 0.4), trade("oldest", 0.4)]);
    let seen = rt.seen_trades_of("w");
    assert_eq!(seen.len(), 3);
    assert_eq!(seen.at(0), "oldest-77--5");
    assert_eq!(seen.at(2), "newest-77--5");
}

#[test]
fn whole_look_leaves_the_memory_in_order() {
    let c = config(true);
    let mut state = BotState::new_at(true, d(100.0), at(0));
    let keys: Vec<String> = (0..200).map(|i| format!("k{i}")).collect();
    let refs: Vec<&str> = keys.iter().map(|k| k.as_str()).collect();
    let mut rt = runtime("w", &refs);
    rt.note_trade("gone", "x".to_string());
    rt.set_exposure("old", d(7.0), at(0));
    let mut cycle = Cycle::new(vec![whale("w", &[], 90_000)], None, at(90_000));
    let mut event = CycleEvent::Go;
    loop {
        event = match cycle.step(&mut state, &mut rt, &c, event, at(90_000)) {
            CycleAction::Continue => CycleEvent::Go,
            CycleAction::ParseAddress => CycleEvent::AddressParsed(true),
            CycleAction::FetchPage(0) => {
                CycleEvent::Page(vec![trade("b", 0.4), trade("a", 0.4), trade("bad", 1.5)])
            }
            CycleAction::Finished => break,
            _ => panic!("a simulation places no order"),
        };
    }
    assert_eq!(cycle.phase, Phase::Over);
    assert_eq!(rt.seen_trades_of("gone").len(), 0);
    assert_eq!(rt.seen_trades_of("w").len(), 200);
    assert!(rt.seen_trades_of("w").contains("b-77--5"));
    assert_eq!(f(rt.exposure("old")), 0.0);
    assert_eq!(f(rt.exposure("0xm")), 36.0);
    assert!(rt.seen_dirty);
}

#[test]
fn total_profit_is_realized_and_unrealized() {
    let mut state = BotState::new_at(false, d(1234.5), at(0));
    let open = |pnl: f64| OpenPosition {
        market: "m".to_string(),
        outcome: "YES".to_string(),
        size: Some(d(10.0)),
        avg_price: Some(d(0.5)),
        cur_price: Some(d(0.6)),
        cash_pnl: Some(d(pnl)),
    };
    for (unrealized, realized) in [(0.1, 3.3), (-7.7, 11.9), (0.3, -0.2)] {
        sync_live_account_state(&mut state, &vec![open(unrealized)], &vec![Some(d(realized))], at(0));
        let exact = f(state.realized_pnl_usdc) + f(state.unrealized_pnl_usdc);
        let bound = 4.0 * f64::EPSILON
            * (1234.5 + f(state.realized_pnl_usdc).abs() + f(state.unrealized_pnl_usdc).abs());
        assert!((f(state.total_pnl()) - exact).abs() <= bound);
        assert_eq!(f(state.unrealized_pnl_usdc), unrealized);
    }
}
