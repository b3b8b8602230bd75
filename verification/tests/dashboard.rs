//! What the dashboard shows.

use copytrading_bot::clock::Timestamp;
use copytrading_bot::dashboard::{
    event_url, page_time, position_rows, profile_url, skip_rows, trade_rows, truncate_middle, whale_rows,
};
use copytrading_bot::double::Double;
use copytrading_bot::investigation::scoring::TraderProfile;
use copytrading_bot::quantity::Quantity;
use copytrading_bot::state::{BotState, MarketPosition, TradeRecord};
use copytrading_bot::table::Table;

fn d(x: f64) -> Double {
    Double { bits: x.to_bits() }
}

fn f(x: Double) -> f64 {
    f64::from_bits(x.bits)
}

#[test]
fn middle_is_left_out_of_long_texts() {
    assert_eq!(truncate_middle("0x1234567890abcdef", 6, 4), "0x1234\u{2026}cdef");
    assert_eq!(truncate_middle("12345678901", 6, 4), "12345678901");
    assert_eq!(truncate_middle("123456789012", 6, 4), "123456\u{2026}9012");
    assert_eq!(truncate_middle("äöüäöüäöüäöü", 1, 1), "ä\u{2026}ü");
    assert_eq!(truncate_middle("", 0, 0), "");
}

#[test]
fn wallets_are_numbered() {
    let whale = |address: &str| TraderProfile {
        address: address.to_string(),
        period_pnl: Quantity { mantissa: 0, scale: 0 },
        win_rate: d(0.625),
        posterior_win_rate: d(0.6),
        conservative_win_rate: d(0.5),
        wins: 1,
        resolved_trade_count: 2,
        volume: Quantity { mantissa: 0, scale: 0 },
        score: d(0.1),
        active_asset_ids: vec!["1".to_string(), "2".to_string()],
        updated_at: Timestamp::new(0, 0).unwrap(),
    };
    let rows = whale_rows(&vec![whale("0xaaaaaaaaaaaaaaaaaaaa"), whale("0xb")]);
    assert_eq!(rows[0].rank, 1);
    assert_eq!(rows[0].short_address, "0xaaaa\u{2026}aaaa");
    assert_eq!(rows[0].profile_url, "https://polymarket.com/profile/0xaaaaaaaaaaaaaaaaaaaa");
    assert_eq!(f(rows[0].win_percent), 62.5);
    assert_eq!(f(rows[1].conservative_percent), 50.0);
    assert_eq!(rows[1].rank, 2);
    assert_eq!(rows[1].active_markets, 2);
}

#[test]
fn trades_show_their_time_and_side() {
    let mut state = BotState::new(true, d(100.0));
    let trade = |side: &str, outcome: &str| TradeRecord {
        timestamp: Timestamp::new(45_296, 999_999_999).unwrap(),
        whale_address: "0xwhale".to_string(),
        market: "0xmarketmarketmarket".to_string(),
        side: side.to_string(),
        price: d(0.5),
        outcome: outcome.to_string(),
        effective_price: d(0.5),
        shares: d(1.0),
        size_usdc: d(1.0),
        kelly_fraction: d(0.25),
        simulated: true,
    };
    state.record_trade(trade("Buy", "YES"));
    state.record_trade(trade("Sell", "NO"));
    let rows = trade_rows(&state.recent_trades);
    assert_eq!(rows.len(), 2);
    assert_eq!(rows[0].time, "12:34:56");
    assert!(!rows[0].bought && !rows[0].on_yes);
    assert!(rows[1].bought && rows[1].on_yes);
    assert_eq!(rows[1].short_market, "0xmark\u{2026}rket");
    assert_eq!(rows[1].market_url, "https://polymarket.com/event/0xmarketmarketmarket");
    assert_eq!(
        rows[1].whale_url,
        format!("https://polymarket.com/profile/{}", state.recent_trades[1].whale_address)
    );
    assert_eq!(f(rows[1].kelly_percent), 25.0);
}

#[test]
fn pages_of_the_exchange_are_found_by_the_full_names() {
    assert_eq!(profile_url("0xabc"), "https://polymarket.com/profile/0xabc");
    assert_eq!(event_url("0xdef"), "https://polymarket.com/event/0xdef");
}

#[test]
fn reasons_are_ranked_by_their_counts() {
    let table = |pairs: &[(&str, usize)]| {
        let mut t = Table::new();
        for (k, v) in pairs {
            t.insert(k.to_string(), *v);
        }
        t
    };
    let rows = skip_rows(
        &table(&[("b", 5), ("a", 5), ("c", 9), ("d", 5)]),
        &table(&[("d", 1), ("only_hour", 1)]),
        &table(&[("d", 2), ("b", 2)]),
    );
    let order: Vec<&str> = rows.iter().map(|r| r.reason.as_str()).collect();
    assert_eq!(order, ["c", "d", "b", "a", "only_hour"]);
    assert_eq!((rows[1].total, rows[1].count_24h, rows[1].count_1h), (5, 2, 1));
    let many: Vec<(String, usize)> = (0..30).map(|i| (format!("r{i}"), 1)).collect();
    let mut t = Table::new();
    for (k, v) in many {
        t.insert(k, v);
    }
    assert_eq!(skip_rows(&t, &Table::new(), &Table::new()).len(), 20);
}

#[test]
fn positions_are_ranked_by_profit_or_loss() {
    let mut state = BotState::new(false, d(1000.0));
    let pos = |yes: f64, cost: f64| MarketPosition {
        yes_shares: d(yes),
        yes_cost_usdc: d(cost),
        no_shares: d(0.0),
        no_cost_usdc: d(0.0),
    };
    let mut positions = Table::new();
    positions.insert("small".to_string(), pos(10.0, 4.0));
    positions.insert("empty".to_string(), pos(0.0, 0.0));
    positions.insert("loss".to_string(), pos(100.0, 90.0));
    let mut marks = Table::new();
    marks.insert("loss".to_string(), d(0.25));
    state.apply_live_account_snapshot(positions, marks, d(0.0), d(0.0), d(0.0));
    let rows = position_rows(&state);
    assert_eq!(rows.len(), 2);
    assert_eq!(rows[0].market, "loss");
    assert_eq!(rows[0].market_url, "https://polymarket.com/event/loss");
    assert_eq!(f(rows[0].unrealized_pnl), 25.0 - 90.0);
    assert!(!rows[0].gaining);
    assert_eq!(rows[1].market, "small");
    assert_eq!(f(rows[1].yes_price), 0.5);
    assert!(rows[1].gaining);
}

#[test]
fn page_carries_its_time() {
    assert_eq!(
        page_time(Timestamp::new(1_709_210_096, 1).unwrap()),
        "2024-02-29 12:34:56 UTC"
    );
}
