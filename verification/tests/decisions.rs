//! Decisions about single trades, and live orders.

use copytrading_bot::config::{Config, Environment, Var};
use copytrading_bot::double::Double;
use copytrading_bot::quantity::Quantity;
use copytrading_bot::trading::decision::{
    bps_to_fraction, evaluate, CopyPlan, Situation, SkipReason, TradeSide, Verdict,
};
use copytrading_bot::trading::live::{Action, Event, LiveOrder, Stage};

fn d(x: f64) -> Double {
    Double { bits: x.to_bits() }
}

fn f(x: Double) -> f64 {
    f64::from_bits(x.bits)
}

fn empty() -> Environment {
    Environment {
        dry_run: Var::Value("true".to_string()),
        dry_run_balance_usdc: Var::Absent,
        dashboard_port: Var::Absent,
        skip_alert_webhook_url: None,
        skip_alert_1h_threshold: Var::Absent,
        skip_alert_cooldown_secs: Var::Absent,
        skip_alert_eval_interval_secs: Var::Absent,
        skip_alert_hmac_secret: None,
        skip_alert_max_retries: Var::Absent,
        skip_alert_retry_backoff_ms: Var::Absent,
        state_dir: Var::Absent,
        state_flush_interval_secs: Var::Absent,
        account_sync_interval_secs: Var::Absent,
        leaderboard_fetch_size: Var::Absent,
        max_whales: Var::Absent,
        min_resolved_trades: Var::Absent,
        investigation_interval_secs: Var::Absent,
        bayes_prior_alpha: Var::Absent,
        bayes_prior_beta: Var::Absent,
        bayes_confidence_z: Var::Absent,
        bankroll_usdc: Var::Absent,
        kelly_fraction: Var::Absent,
        max_position_fraction: Var::Absent,
        poll_interval_secs: Var::Absent,
        estimated_fee_bps: Var::Absent,
        estimated_slippage_bps: Var::Absent,
        adverse_selection_bps: Var::Absent,
        min_net_edge_bps: Var::Absent,
        max_copy_price_drift_bps: Var::Absent,
        max_order_slippage_bps: Var::Absent,
        daily_loss_limit_usdc: Var::Absent,
        max_consecutive_losses: Var::Absent,
        max_notional_per_market_usdc: Var::Absent,
        private_key: None,
        address: None,
        api_key: None,
        api_secret: None,
        api_passphrase: None,
    }
}

fn config() -> Config {
    Config::from_env(&empty()).unwrap()
}

fn usual() -> Situation {
    Situation {
        price: Some(d(0.4)),
        side: TradeSide::Buy,
        win_rate: d(0.7),
        balance: d(100.0),
        exposure: d(0.0),
        notional: d(0.0),
    }
}

fn reason(s: Situation, c: &Config) -> SkipReason {
    match evaluate(&s, c) {
        Verdict::Skip(r) => r,
        Verdict::Stop(r) => r,
        Verdict::Copy(_) => panic!("copied"),
    }
}

fn plan(s: Situation, c: &Config) -> CopyPlan {
    match evaluate(&s, c) {
        Verdict::Copy(p) => p,
        _ => panic!("skipped"),
    }
}

#[test]
fn worthwhile_trade_is_sized_by_kelly() {
    let p = plan(usual(), &config());
    assert_eq!(f(p.size_usdc), 100.0 * 0.20);
    assert_eq!(f(p.shares), 20.0 / 0.4);
    assert_eq!(f(p.effective_price), 0.4);
    assert_eq!(f(p.kelly_fraction), 0.20);
}

#[test]
fn sale_bets_on_the_other_outcome() {
    let mut s = usual();
    s.side = TradeSide::Sell;
    s.price = Some(d(0.7));
    let p = plan(s, &config());
    assert_eq!(f(p.effective_price), 1.0 - 0.7);
    assert_eq!(p.side.outcome(), "NO");
    assert_eq!(p.side.name(), "Sell");
}

#[test]
fn prices_must_lie_between_zero_and_one() {
    let c = config();
    for price in [None, Some(d(0.0)), Some(d(1.0)), Some(d(-0.5)), Some(d(f64::NAN))] {
        let mut s = usual();
        s.price = price;
        assert_eq!(reason(s, &c), SkipReason::InvalidMarketPrice);
    }
}

#[test]
fn low_balance_stops_the_look() {
    let mut s = usual();
    s.balance = d(4.99);
    assert!(matches!(
        evaluate(&s, &config()),
        Verdict::Stop(SkipReason::BalanceBelowMinimum)
    ));
}

#[test]
fn win_rate_must_be_a_probability() {
    let mut s = usual();
    s.win_rate = d(1.01);
    assert_eq!(reason(s, &config()), SkipReason::InvalidConservativeWinRate);
}

#[test]
fn edge_must_outweigh_the_costs() {
    let mut s = usual();
    s.win_rate = d(0.406);
    assert_eq!(reason(s, &config()), SkipReason::NetEdgeBelowThreshold);
    s.win_rate = d(0.408);
    s.balance = d(1000.0);
    assert_eq!(f(plan(s, &config()).effective_price), 0.4);
}

#[test]
fn kelly_may_find_no_edge() {
    let mut e = empty();
    e.kelly_fraction = Var::Value(d(0.0));
    assert_eq!(reason(usual(), &Config::from_env(&e).unwrap()), SkipReason::KellyNoEdge);
}

#[test]
fn small_positions_are_skipped() {
    let mut s = usual();
    s.balance = d(5.0);
    let mut e = empty();
    e.max_position_fraction = Var::Value(d(0.1));
    assert_eq!(reason(s, &Config::from_env(&e).unwrap()), SkipReason::PositionBelowMinimum);
}

#[test]
fn one_market_takes_a_limited_share() {
    let mut s = usual();
    s.exposure = d(299.5);
    assert_eq!(reason(s, &config()), SkipReason::MarketConcentrationLimit);
    s.exposure = d(290.0);
    assert_eq!(f(plan(s, &config()).size_usdc), 1000.0 * 0.30 - 290.0);
}

#[test]
fn one_market_takes_a_limited_amount() {
    let mut s = usual();
    s.notional = d(349.5);
    assert_eq!(reason(s, &config()), SkipReason::MaxNotionalPerMarketReached);
    s.notional = d(340.0);
    assert_eq!(f(plan(s, &config()).size_usdc), 10.0);
}

#[test]
fn copied_trades_keep_the_limits_of_a_market() {
    let c = config();
    for used in [0.0, 0.1, 17.3, 250.0, 281.7, 290.0, 298.25] {
        let mut s = usual();
        s.exposure = d(used);
        s.notional = d(used + 50.0);
        let p = plan(s, &c);
        assert!((used + f(p.size_usdc)).to_bits() <= (1000.0f64 * 0.30).to_bits() + 1);
        assert!((used + 50.0 + f(p.size_usdc)).to_bits() <= 350.0f64.to_bits() + 1);
        assert_eq!(f(p.shares), f(p.size_usdc) / f(p.effective_price));
    }
}

#[test]
fn side_must_be_known() {
    let mut s = usual();
    s.side = TradeSide::Unknown;
    assert_eq!(reason(s, &config()), SkipReason::UnknownTradeSide);
}

#[test]
fn shares_must_not_be_too_few() {
    let mut s = usual();
    s.price = Some(d(0.99));
    s.win_rate = d(1.0);
    let mut e = empty();
    e.estimated_fee_bps = Var::Value(d(0.0));
    e.estimated_slippage_bps = Var::Value(d(0.0));
    e.adverse_selection_bps = Var::Value(d(0.0));
    let p = plan(s, &Config::from_env(&e).unwrap());
    assert!(f(p.shares) >= 0.01);
    assert_eq!(f(bps_to_fraction(d(25.0))), 0.0025);
}

#[test]
fn reasons_have_distinct_texts() {
    let all = [
        SkipReason::BalanceBelowMinimum,
        SkipReason::DailyLossLimitReached,
        SkipReason::MaxConsecutiveLossesReached,
        SkipReason::StaleWhaleProfile,
        SkipReason::InvalidWhaleAddress,
        SkipReason::DataApiError,
        SkipReason::PrimedHistoricalBackfill,
        SkipReason::InvalidMarketPrice,
        SkipReason::InvalidConservativeWinRate,
        SkipReason::NetEdgeBelowThreshold,
        SkipReason::KellyNoEdge,
        SkipReason::PositionBelowMinimum,
        SkipReason::MarketConcentrationLimit,
        SkipReason::MaxNotionalPerMarketReached,
        SkipReason::UnknownTradeSide,
        SkipReason::SharesBelowMinimum,
        SkipReason::MissingLiveAuth,
        SkipReason::InvalidAssetId,
        SkipReason::LiveQuoteFetchFailed,
        SkipReason::InvalidLiveQuote,
        SkipReason::PriceDriftTooLarge,
        SkipReason::ProtectedPriceConversionFailed,
        SkipReason::PositionAmountConversionFailed,
        SkipReason::InvalidPositionAmount,
        SkipReason::SellSharesBelowMinimum,
        SkipReason::ShareAmountConversionFailed,
        SkipReason::InvalidShareAmount,
        SkipReason::OrderBuildFailed,
        SkipReason::OrderSignFailed,
        SkipReason::OrderPostFailed,
    ];
    for (i, a) in all.iter().enumerate() {
        for (j, b) in all.iter().enumerate() {
            assert_eq!(a.text() == b.text(), i == j);
        }
    }
    assert_eq!(SkipReason::StaleWhaleProfile.text(), "stale_whale_profile");
}

fn order(side: TradeSide, size: f64, price: f64) -> LiveOrder {
    LiveOrder::new(CopyPlan {
        side,
        market_price: d(price),
        effective_price: d(price),
        size_usdc: d(size),
        shares: d(size / price),
        kelly_fraction: d(0.1),
        exposure_before: d(0.0),
    })
}

fn ready() -> Event {
    Event::Prepared { authenticated: true, token_known: true }
}

fn quoted(price: f64) -> Event {
    Event::Quoted(Some(Some(d(price))))
}

fn decimal(mantissa: i128, scale: u32) -> Event {
    Event::Converted(Some(Quantity { mantissa, scale }))
}

fn given_up(action: Action) -> SkipReason {
    match action {
        Action::GiveUp(r) => r,
        _ => panic!("not given up"),
    }
}

#[test]
fn purchase_is_placed_step_by_step() {
    let c = config();
    let mut o = order(TradeSide::Buy, 20.0, 0.5);
    assert!(matches!(o.step(&c, ready()), Action::FetchQuote));
    match o.step(&c, quoted(0.5)) {
        Action::ConvertPrice(p) => assert_eq!(f(p), 0.5 * (1.0 + 80.0 / 10_000.0)),
        _ => panic!("price"),
    }
    match o.step(&c, decimal(504, 3)) {
        Action::ConvertAmount(a) => assert_eq!(f(a), 20.0),
        _ => panic!("amount"),
    }
    match o.step(&c, decimal(20, 0)) {
        Action::AcceptUsdc(q) => assert_eq!(q, Quantity { mantissa: 20, scale: 0 }),
        _ => panic!("usdc"),
    }
    assert!(matches!(o.step(&c, Event::Succeeded), Action::BuildOrder));
    assert!(matches!(o.step(&c, Event::Succeeded), Action::SignOrder));
    assert!(matches!(o.step(&c, Event::Succeeded), Action::PostOrder));
    assert!(matches!(o.step(&c, Event::Posted { accepted: true }), Action::RecordTrade));
    assert_eq!(o.stage, Stage::Over);
    assert!(matches!(o.step(&c, Event::Succeeded), Action::Nothing));
}

#[test]
fn sale_is_an_amount_of_shares() {
    let c = config();
    let mut o = order(TradeSide::Sell, 20.0, 0.7);
    o.step(&c, ready());
    match o.step(&c, quoted(0.7)) {
        Action::ConvertPrice(p) => assert_eq!(f(p), 0.7 * (1.0 - 80.0 / 10_000.0)),
        _ => panic!("price"),
    }
    match o.step(&c, decimal(6944, 4)) {
        Action::ConvertAmount(a) => assert_eq!(f(a), 20.0 / 0.7),
        _ => panic!("amount"),
    }
    match o.step(&c, decimal(28_571_428, 6)) {
        Action::AcceptShares(q) => assert_eq!(q, Quantity { mantissa: 2857, scale: 2 }),
        _ => panic!("shares"),
    }
}

#[test]
fn protective_price_stays_quotable() {
    let mut e = empty();
    e.max_order_slippage_bps = Var::Value(d(5000.0));
    e.max_copy_price_drift_bps = Var::Value(d(5000.0));
    let c = Config::from_env(&e).unwrap();
    let mut o = order(TradeSide::Buy, 20.0, 0.9);
    o.step(&c, ready());
    match o.step(&c, quoted(0.9)) {
        Action::ConvertPrice(p) => assert_eq!(f(p), 0.9999),
        _ => panic!("price"),
    }
    let mut o = order(TradeSide::Sell, 20.0, 0.0001);
    o.step(&c, ready());
    match o.step(&c, quoted(0.0001)) {
        Action::ConvertPrice(p) => assert_eq!(f(p), 0.0001),
        _ => panic!("price"),
    }
}

#[test]
fn every_failure_has_its_reason() {
    let c = config();
    let start = |events: &[Event], side: TradeSide| {
        let mut o = order(side, 20.0, 0.5);
        let mut last = Action::Nothing;
        for e in events {
            last = o.step(&c, *e);
        }
        given_up(last)
    };
    let buy = TradeSide::Buy;
    let sell = TradeSide::Sell;
    let none = Event::Converted(None);
    let prepared = |a, t| Event::Prepared { authenticated: a, token_known: t };
    assert_eq!(start(&[prepared(false, true)], buy), SkipReason::MissingLiveAuth);
    assert_eq!(start(&[prepared(true, false)], buy), SkipReason::InvalidAssetId);
    assert_eq!(start(&[ready()], TradeSide::Unknown), SkipReason::UnknownTradeSide);
    assert_eq!(start(&[ready(), Event::Quoted(None)], buy), SkipReason::LiveQuoteFetchFailed);
    assert_eq!(start(&[ready(), Event::Quoted(Some(None))], buy), SkipReason::InvalidLiveQuote);
    assert_eq!(start(&[ready(), quoted(1.0)], buy), SkipReason::InvalidLiveQuote);
    assert_eq!(start(&[ready(), quoted(0.6)], buy), SkipReason::PriceDriftTooLarge);
    assert_eq!(
        start(&[ready(), quoted(0.5), none], buy),
        SkipReason::ProtectedPriceConversionFailed
    );
    assert_eq!(
        start(&[ready(), quoted(0.5), decimal(5, 1), none], buy),
        SkipReason::PositionAmountConversionFailed
    );
    assert_eq!(
        start(&[ready(), quoted(0.5), decimal(5, 1), none], sell),
        SkipReason::ShareAmountConversionFailed
    );
    let to_check = [ready(), quoted(0.5), decimal(5, 1), decimal(5, 0)];
    let with = |more: &[Event]| {
        let mut v = to_check.to_vec();
        v.extend_from_slice(more);
        v
    };
    assert_eq!(start(&with(&[Event::Failed]), buy), SkipReason::InvalidPositionAmount);
    assert_eq!(start(&with(&[Event::Failed]), sell), SkipReason::InvalidShareAmount);
    let ok = Event::Succeeded;
    assert_eq!(start(&with(&[ok, Event::Failed]), buy), SkipReason::OrderBuildFailed);
    assert_eq!(start(&with(&[ok, ok, Event::Failed]), buy), SkipReason::OrderSignFailed);
    assert_eq!(start(&with(&[ok, ok, ok, Event::Failed]), buy), SkipReason::OrderPostFailed);
    let refused = Event::Posted { accepted: false };
    assert_eq!(start(&with(&[ok, ok, ok, refused]), buy), SkipReason::OrderPostFailed);
}

#[test]
fn few_shares_are_not_sold() {
    let c = config();
    let mut o = order(TradeSide::Sell, 0.004, 0.5);
    o.step(&c, ready());
    o.step(&c, quoted(0.5));
    assert_eq!(given_up(o.step(&c, decimal(5, 1))), SkipReason::SellSharesBelowMinimum);
}
