//! The books of the bot: balance, positions, profit and telemetry.

pub mod entries;
pub mod model;
pub mod sums;
pub mod valuation;

use self::model::{
    after_alert, after_skip, after_sync, after_trade, at_most_first, count_of, counts_within,
    date_of, dated, drawdown, duration_text, entered, flat, fresh, grown, held, implied_yes_price,
    invested, judged, largest_notional, mark_value, notional, quotable, revalued, running_time,
    tally, total_pnl, AccountReport, Books, Trade, MAX_RECENT_TRADES, MAX_SKIP_EVENTS,
};
use crate::clock::{now, utc_date, Timestamp, EARLIEST_SECS, NANOS_PER_SEC};
use crate::double::{fraction, Double};
use crate::table::{lookup, Table};
use crate::text::{optional_text, push_number, same};
use std::collections::VecDeque;
use vstd::prelude::*;

verus! {

/// A single trade, simulated or real.
#[derive(Debug)]
pub struct TradeRecord {
    /// When the trade was, or would have been, executed.
    pub timestamp: Timestamp,
    /// Wallet whose activity triggered the trade.
    pub whale_address: String,
    /// Condition ID of the market.
    pub market: String,
    /// Side that the wallet took on the YES token: "Buy" or "Sell".
    pub side: String,
    /// YES price at which the wallet traded.
    pub price: Double,
    /// Outcome that was copied: "YES" or "NO".
    pub outcome: String,
    /// Price of the copied outcome.
    pub effective_price: Double,
    /// Shares acquired of the copied outcome.
    pub shares: Double,
    /// USDC used.
    pub size_usdc: Double,
    /// Kelly fraction by which the position was sized.
    pub kelly_fraction: Double,
    /// Whether no real order was placed.
    pub simulated: bool,
}

impl View for TradeRecord {
    type V = Trade;

    open spec fn view(&self) -> Trade {
        Trade {
            timestamp: self.timestamp,
            whale_address: self.whale_address@,
            market: self.market@,
            side: self.side@,
            price: self.price,
            outcome: self.outcome@,
            effective_price: self.effective_price,
            shares: self.shares,
            size_usdc: self.size_usdc,
            kelly_fraction: self.kelly_fraction,
            simulated: self.simulated,
        }
    }
}

/// The trades of a list of records.
pub open spec fn trade_list(records: Seq<TradeRecord>) -> Seq<Trade> {
    records.map_values(|r: TradeRecord| r@)
}

impl TradeRecord {
    /// A record of the same trade.
    pub fn copy(&self) -> (r: TradeRecord)
        ensures
            r == *self,
    {
        TradeRecord {
            timestamp: self.timestamp,
            whale_address: self.whale_address.clone(),
            market: self.market.clone(),
            side: self.side.clone(),
            price: self.price,
            outcome: self.outcome.clone(),
            effective_price: self.effective_price,
            shares: self.shares,
            size_usdc: self.size_usdc,
            kelly_fraction: self.kelly_fraction,
            simulated: self.simulated,
        }
    }
}

/// A skipped signal.
#[derive(Debug)]
pub struct SkipEvent {
    pub timestamp: Timestamp,
    pub reason: String,
}

/// Shares held in one market, and what was paid for them.
#[derive(Clone, Copy, Debug)]
pub struct MarketPosition {
    pub yes_shares: Double,
    pub yes_cost_usdc: Double,
    pub no_shares: Double,
    pub no_cost_usdc: Double,
}

impl Default for MarketPosition {
    fn default() -> (r: MarketPosition)
        ensures
            r == flat(),
    {
        let zero = Double::whole(0);
        MarketPosition { yes_shares: zero, yes_cost_usdc: zero, no_shares: zero, no_cost_usdc: zero }
    }
}

impl MarketPosition {
    /// What was paid.
    pub fn notional(&self) -> (r: Double)
        ensures
            r == notional(*self),
    {
        self.yes_cost_usdc.add(self.no_cost_usdc)
    }

    /// The position with shares added on the side of an outcome.
    pub fn grow(&self, outcome: &str, shares: Double, cost: Double) -> (r: MarketPosition)
        ensures
            r == grown(*self, outcome@, shares, cost),
    {
        let mut r = *self;
        if same(outcome, "YES") {
            r.yes_shares = r.yes_shares.add(shares);
            r.yes_cost_usdc = r.yes_cost_usdc.add(cost);
        } else if same(outcome, "NO") {
            r.no_shares = r.no_shares.add(shares);
            r.no_cost_usdc = r.no_cost_usdc.add(cost);
        }
        r
    }
}

/// A price moved into the range that a token can be quoted at.
pub fn clamp_price(price: Double) -> (r: Double)
    ensures
        r == quotable(price),
{
    price.clamp(Double::ratio(1, 10_000), Double::ratio(9999, 10_000))
}

/// The skipped signals as pairs of time and reason.
pub open spec fn skip_list(events: Seq<SkipEvent>) -> Seq<(Timestamp, Seq<char>)> {
    events.map_values(|e: SkipEvent| (e.timestamp, e.reason@))
}

/// The books in the form in which they are stored.
#[derive(Debug)]
pub struct BotStateSnapshot {
    pub dry_run: bool,
    pub balance_usdc: Double,
    pub initial_balance_usdc: Double,
    pub started_at: Timestamp,
    pub whale_count: usize,
    pub trade_count: usize,
    pub recent_trades: VecDeque<TradeRecord>,
    pub skip_reasons: Table<usize>,
    pub recent_skip_events: VecDeque<SkipEvent>,
    pub market_positions: Table<MarketPosition>,
    pub last_yes_prices: Table<Double>,
    pub unrealized_pnl_usdc: Double,
    pub realized_pnl_usdc: Double,
    pub realized_pnl_baseline_usdc: Option<Double>,
    pub equity_usdc: Double,
    pub day_marker_utc: String,
    pub day_start_equity_usdc: Double,
    pub consecutive_loss_events: usize,
    pub alert_success_count: usize,
    pub alert_failure_count: usize,
    pub last_alert_sent_at: Option<Timestamp>,
    pub last_alert_error: Option<String>,
}

impl View for BotStateSnapshot {
    type V = Books;

    open spec fn view(&self) -> Books {
        Books {
            dry_run: self.dry_run,
            balance: self.balance_usdc,
            initial_balance: self.initial_balance_usdc,
            started_at: self.started_at,
            whale_count: self.whale_count,
            trade_count: self.trade_count as int,
            recent_trades: trade_list(self.recent_trades@),
            skip_reasons: self.skip_reasons@,
            recent_skips: skip_list(self.recent_skip_events@),
            positions: self.market_positions@,
            yes_prices: self.last_yes_prices@,
            unrealized_pnl: self.unrealized_pnl_usdc,
            realized_pnl: self.realized_pnl_usdc,
            realized_baseline: self.realized_pnl_baseline_usdc,
            equity: self.equity_usdc,
            day_marker: self.day_marker_utc@,
            day_start_equity: self.day_start_equity_usdc,
            loss_streak: self.consecutive_loss_events as int,
            alert_successes: self.alert_success_count as int,
            alert_failures: self.alert_failure_count as int,
            last_alert_at: self.last_alert_sent_at,
            last_alert_error: optional_text(self.last_alert_error),
        }
    }
}

/// The books of a running bot.
#[derive(Debug)]
pub struct BotState {
    /// Whether trades are only simulated.
    pub dry_run: bool,
    /// Free USDC.
    pub balance_usdc: Double,
    /// Balance at the start.
    pub initial_balance_usdc: Double,
    /// When the bot started.
    pub started_at: Timestamp,
    /// How many wallets are followed.
    pub whale_count: usize,
    /// How many trades were recorded.
    pub trade_count: usize,
    /// The latest trades, newest first.
    pub recent_trades: VecDeque<TradeRecord>,
    /// How often signals were skipped, by reason.
    pub skip_reasons: Table<usize>,
    /// The latest skipped signals, newest first.
    pub recent_skip_events: VecDeque<SkipEvent>,
    /// Shares held, by market.
    pub market_positions: Table<MarketPosition>,
    /// The last YES price seen, by market.
    pub last_yes_prices: Table<Double>,
    /// Profit of open positions at their present valuation.
    pub unrealized_pnl_usdc: Double,
    /// Profit of closed positions since the start.
    pub realized_pnl_usdc: Double,
    /// Realized profit of the account when the bot first saw it.
    pub realized_pnl_baseline_usdc: Option<Double>,
    /// Cash and the value of open positions.
    pub equity_usdc: Double,
    /// The present UTC date.
    pub day_marker_utc: String,
    /// Equity at the beginning of that date.
    pub day_start_equity_usdc: Double,
    /// How many losses came in a row.
    pub consecutive_loss_events: usize,
    /// How many alerts were delivered.
    pub alert_success_count: usize,
    /// How many alerts failed.
    pub alert_failure_count: usize,
    /// When the last alert was delivered.
    pub last_alert_sent_at: Option<Timestamp>,
    /// Why the last alert failed, if it did.
    pub last_alert_error: Option<String>,
}

impl View for BotState {
    type V = Books;

    open spec fn view(&self) -> Books {
        Books {
            dry_run: self.dry_run,
            balance: self.balance_usdc,
            initial_balance: self.initial_balance_usdc,
            started_at: self.started_at,
            whale_count: self.whale_count,
            trade_count: self.trade_count as int,
            recent_trades: trade_list(self.recent_trades@),
            skip_reasons: self.skip_reasons@,
            recent_skips: skip_list(self.recent_skip_events@),
            positions: self.market_positions@,
            yes_prices: self.last_yes_prices@,
            unrealized_pnl: self.unrealized_pnl_usdc,
            realized_pnl: self.realized_pnl_usdc,
            realized_baseline: self.realized_pnl_baseline_usdc,
            equity: self.equity_usdc,
            day_marker: self.day_marker_utc@,
            day_start_equity: self.day_start_equity_usdc,
            loss_streak: self.consecutive_loss_events as int,
            alert_successes: self.alert_success_count as int,
            alert_failures: self.alert_failure_count as int,
            last_alert_at: self.last_alert_sent_at,
            last_alert_error: optional_text(self.last_alert_error),
        }
    }
}

fn copy_trades(trades: &VecDeque<TradeRecord>) -> (r: VecDeque<TradeRecord>)
    ensures
        r@ == trades@,
{
    let mut out: VecDeque<TradeRecord> = VecDeque::new();
    let mut i: usize = 0;
    while i < trades.len()
        invariant
            i <= trades.len(),
            out@ == trades@.take(i as int),
        decreases trades.len() - i,
    {
        out.push_back(trades[i].copy());
        proof {
            assert(trades@.take(i + 1) =~= trades@.take(i as int).push(trades@[i as int]));
        }
        i = i + 1;
    }
    proof {
        assert(trades@.take(i as int) =~= trades@);
    }
    out
}

fn copy_skips(events: &VecDeque<SkipEvent>) -> (r: VecDeque<SkipEvent>)
    ensures
        r@ == events@,
{
    let mut out: VecDeque<SkipEvent> = VecDeque::new();
    let mut i: usize = 0;
    while i < events.len()
        invariant
            i <= events.len(),
            out@ == events@.take(i as int),
        decreases events.len() - i,
    {
        let e = &events[i];
        out.push_back(SkipEvent { timestamp: e.timestamp, reason: e.reason.clone() });
        proof {
            assert(events@.take(i + 1) =~= events@.take(i as int).push(events@[i as int]));
        }
        i = i + 1;
    }
    proof {
        assert(events@.take(i as int) =~= events@);
    }
    out
}

fn copy_text(s: &Option<String>) -> (r: Option<String>)
    ensures
        r == *s,
{
    match s {
        Some(t) => Some(t.clone()),
        None => None,
    }
}

/// Whether no counter of the books stands at the end of its range.
pub open spec fn counters_have_room(books: Books) -> bool {
    &&& books.trade_count < usize::MAX
    &&& books.loss_streak < usize::MAX
    &&& books.alert_successes < usize::MAX
    &&& books.alert_failures < usize::MAX
    &&& forall|i: int|
        0 <= i < books.skip_reasons.len() ==> (#[trigger] books.skip_reasons[i]).1 < usize::MAX
}

impl BotState {
    /// The books of a bot that starts now.
    pub fn new(dry_run: bool, initial_balance_usdc: Double) -> (r: BotState)
        ensures
            r@ == fresh(dry_run, initial_balance_usdc, r.started_at),
            r.started_at@ >= 0,
    {
        let started_at = now();
        BotState::new_at(dry_run, initial_balance_usdc, started_at)
    }

    /// The books of a bot that starts at the given time.
    pub fn new_at(dry_run: bool, initial_balance_usdc: Double, started_at: Timestamp) -> (r: BotState)
        ensures
            r@ == fresh(dry_run, initial_balance_usdc, started_at),
    {
        let zero = Double::whole(0);
        let r = BotState {
            dry_run,
            balance_usdc: initial_balance_usdc,
            initial_balance_usdc,
            started_at,
            whale_count: 0,
            trade_count: 0,
            recent_trades: VecDeque::new(),
            skip_reasons: Table::new(),
            recent_skip_events: VecDeque::new(),
            market_positions: Table::new(),
            last_yes_prices: Table::new(),
            unrealized_pnl_usdc: zero,
            realized_pnl_usdc: zero,
            realized_pnl_baseline_usdc: None,
            equity_usdc: initial_balance_usdc,
            day_marker_utc: utc_date(&started_at),
            day_start_equity_usdc: initial_balance_usdc,
            consecutive_loss_events: 0,
            alert_success_count: 0,
            alert_failure_count: 0,
            last_alert_sent_at: None,
            last_alert_error: None,
        };
        proof {
            assert(r@ =~= fresh(dry_run, initial_balance_usdc, started_at));
        }
        r
    }

    /// Takes over stored books.
    pub fn restore_from_snapshot(&mut self, snapshot: BotStateSnapshot)
        ensures
            final(self)@ == snapshot@,
    {
        self.dry_run = snapshot.dry_run;
        self.balance_usdc = snapshot.balance_usdc;
        self.initial_balance_usdc = snapshot.initial_balance_usdc;
        self.started_at = snapshot.started_at;
        self.whale_count = snapshot.whale_count;
        self.trade_count = snapshot.trade_count;
        self.recent_trades = snapshot.recent_trades;
        self.skip_reasons = snapshot.skip_reasons;
        self.recent_skip_events = snapshot.recent_skip_events;
        self.market_positions = snapshot.market_positions;
        self.last_yes_prices = snapshot.last_yes_prices;
        self.unrealized_pnl_usdc = snapshot.unrealized_pnl_usdc;
        self.realized_pnl_usdc = snapshot.realized_pnl_usdc;
        self.realized_pnl_baseline_usdc = snapshot.realized_pnl_baseline_usdc;
        self.equity_usdc = snapshot.equity_usdc;
        self.day_marker_utc = snapshot.day_marker_utc;
        self.day_start_equity_usdc = snapshot.day_start_equity_usdc;
        self.consecutive_loss_events = snapshot.consecutive_loss_events;
        self.alert_success_count = snapshot.alert_success_count;
        self.alert_failure_count = snapshot.alert_failure_count;
        self.last_alert_sent_at = snapshot.last_alert_sent_at;
        self.last_alert_error = snapshot.last_alert_error;
    }

    /// The books as they are to be stored. Restoring them gives the same books.
    pub fn snapshot(&self) -> (r: BotStateSnapshot)
        ensures
            r@ == self@,
    {
        BotStateSnapshot {
            dry_run: self.dry_run,
            balance_usdc: self.balance_usdc,
            initial_balance_usdc: self.initial_balance_usdc,
            started_at: self.started_at,
            whale_count: self.whale_count,
            trade_count: self.trade_count,
            recent_trades: copy_trades(&self.recent_trades),
            skip_reasons: self.skip_reasons.copy(),
            recent_skip_events: copy_skips(&self.recent_skip_events),
            market_positions: self.market_positions.copy(),
            last_yes_prices: self.last_yes_prices.copy(),
            unrealized_pnl_usdc: self.unrealized_pnl_usdc,
            realized_pnl_usdc: self.realized_pnl_usdc,
            realized_pnl_baseline_usdc: self.realized_pnl_baseline_usdc,
            equity_usdc: self.equity_usdc,
            day_marker_utc: self.day_marker_utc.clone(),
            day_start_equity_usdc: self.day_start_equity_usdc,
            consecutive_loss_events: self.consecutive_loss_events,
            alert_success_count: self.alert_success_count,
            alert_failure_count: self.alert_failure_count,
            last_alert_sent_at: self.last_alert_sent_at,
            last_alert_error: copy_text(&self.last_alert_error),
        }
    }

    /// Whether no counter stands at the end of its range, so that any one event
    /// can still be recorded.
    pub fn has_room(&self) -> (r: bool)
        ensures
            r == counters_have_room(self@),
    {
        if self.trade_count == usize::MAX || self.consecutive_loss_events == usize::MAX
            || self.alert_success_count == usize::MAX || self.alert_failure_count == usize::MAX {
            return false;
        }
        let mut i: usize = 0;
        while i < self.skip_reasons.len()
            invariant
                i <= self.skip_reasons@.len(),
                forall|j: int| 0 <= j < i ==> (#[trigger] self@.skip_reasons[j]).1 < usize::MAX,
            decreases self.skip_reasons@.len() - i,
        {
            if *self.skip_reasons.value_at(i) == usize::MAX {
                proof {
                    assert(self@.skip_reasons[i as int].1 == usize::MAX);
                }
                return false;
            }
            i = i + 1;
        }
        true
    }

    /// Records a trade now: cash, exposure, valuation, date and loss streak.
    pub fn record_trade(&mut self, trade: TradeRecord)
        requires
            old(self).trade_count < usize::MAX,
            old(self).consecutive_loss_events < usize::MAX,
        ensures
            exists|at: Timestamp|
                at@ >= 0 && final(self)@ == after_trade(old(self)@, trade@, #[trigger] date_of(at)),
    {
        let at = now();
        let today = utc_date(&at);
        let ghost before = self@;
        self.record_trade_on(trade, today.as_str());
        proof {
            assert(self@ == after_trade(before, trade@, date_of(at)));
        }
    }

    /// Records a trade on the given date.
    pub fn record_trade_on(&mut self, trade: TradeRecord, today: &str)
        requires
            old(self).trade_count < usize::MAX,
            old(self).consecutive_loss_events < usize::MAX,
        ensures
            final(self)@ == after_trade(old(self)@, trade@, today@),
    {
        let ghost before = self@;
        let ghost record = trade;
        let ghost earlier_records = self.recent_trades@;
        let earlier = self.total_pnl();
        let zero = Double::whole(0);
        self.balance_usdc = self.balance_usdc.sub(trade.size_usdc).max(zero);
        if zero.le(trade.price) && trade.price.lt(Double::whole(1)) {
            self.last_yes_prices.insert(trade.market.clone(), trade.price);
        }
        let pos = self.position(trade.market.as_str());
        let after = pos.grow(trade.outcome.as_str(), trade.shares, trade.size_usdc);
        self.market_positions.insert(trade.market.clone(), after);
        self.trade_count = self.trade_count + 1;
        self.recent_trades.push_front(trade);
        self.recent_trades.truncate(MAX_RECENT_TRADES);
        proof {
            let all = seq![record] + earlier_records;
            let listed = seq![record@] + before.recent_trades;
            assert(trade_list(all) =~= listed);
            assert(trade_list(self.recent_trades@) =~= at_most_first(listed, MAX_RECENT_TRADES as int));
            assert(self@ =~= entered(before, record@));
        }
        self.recompute_mark_to_market();
        self.refresh_day_marker_if_needed(today);
        self.judge(earlier);
    }

    /// The position in a market.
    pub fn position(&self, market: &str) -> (r: MarketPosition)
        ensures
            r == held(self@.positions, market@),
    {
        match self.market_positions.get(market) {
            Some(pos) => *pos,
            None => MarketPosition::default(),
        }
    }

    /// Continues or ends the loss streak, given the profit before.
    fn judge(&mut self, earlier: Double)
        requires
            old(self).consecutive_loss_events < usize::MAX,
        ensures
            final(self)@ == judged(old(self)@, earlier),
    {
        let present = self.total_pnl();
        if present.add(Double::ratio(1, 1_000_000_000)).lt(earlier) {
            self.consecutive_loss_events = self.consecutive_loss_events + 1;
        } else {
            self.consecutive_loss_events = 0;
        }
    }

    /// Records a signal skipped now.
    pub fn record_skip(&mut self, reason: &str)
        requires
            count_of(old(self).skip_reasons@, reason@) < usize::MAX,
        ensures
            exists|at: Timestamp| at@ >= 0 && final(self)@ == #[trigger] after_skip(old(self)@, reason@, at),
    {
        let at = now();
        self.record_skip_at(reason, at);
    }

    /// Records a signal skipped at the given time.
    pub fn record_skip_at(&mut self, reason: &str, timestamp: Timestamp)
        requires
            count_of(old(self).skip_reasons@, reason@) < usize::MAX,
        ensures
            final(self)@ == after_skip(old(self)@, reason@, timestamp),
    {
        let ghost before = self@;
        let count: usize = match self.skip_reasons.get(reason) {
            Some(n) => *n,
            None => 0,
        };
        self.skip_reasons.insert(reason.to_owned(), count + 1);
        let event = SkipEvent { timestamp, reason: reason.to_owned() };
        let ghost newest = event;
        let ghost earlier = self.recent_skip_events@;
        self.recent_skip_events.push_front(event);
        self.recent_skip_events.truncate(MAX_SKIP_EVENTS);
        proof {
            let all = seq![newest] + earlier;
            let listed = seq![(timestamp, reason@)] + before.recent_skips;
            assert(skip_list(all) =~= listed);
            assert(skip_list(self.recent_skip_events@) =~= at_most_first(listed, MAX_SKIP_EVENTS as int));
            assert(self@ =~= after_skip(before, reason@, timestamp));
        }
    }

    /// How often each reason occurs among the skipped signals of the last
    /// `window_secs` seconds.
    pub fn skip_reasons_since(&self, window_secs: i64) -> (r: Table<usize>)
        requires
            window_secs <= -EARLIEST_SECS,
        ensures
            window_secs <= 0 ==> r@ == Seq::<(Seq<char>, usize)>::empty(),
            window_secs > 0 ==> exists|at: Timestamp|
                at@ >= 0 && r@ == tally(
                    self@.recent_skips,
                    #[trigger] at@ - window_secs * NANOS_PER_SEC,
                ),
    {
        let at = now();
        proof {
            vstd::arithmetic::div_mod::lemma_div_pos_is_pos(at@, NANOS_PER_SEC as int);
        }
        self.skip_reasons_in_window(at, window_secs)
    }

    /// How often each reason occurs among the skipped signals of the
    /// `window_secs` seconds up to `at`.
    pub fn skip_reasons_in_window(&self, at: Timestamp, window_secs: i64) -> (r: Table<usize>)
        requires
            window_secs > 0 ==> at@ / NANOS_PER_SEC as int - window_secs >= EARLIEST_SECS,
        ensures
            r@ == counts_within(self@, at, window_secs as int),
    {
        let mut counts: Table<usize> = Table::new();
        if window_secs <= 0 {
            return counts;
        }
        let cutoff: i128 = at.total_nanos() - window_secs as i128 * NANOS_PER_SEC;
        let mut i: usize = 0;
        proof {
            assert(self@.recent_skips.take(0) =~= Seq::<(Timestamp, Seq<char>)>::empty());
        }
        while i < self.recent_skip_events.len()
            invariant
                i <= self.recent_skip_events@.len() == self@.recent_skips.len(),
                counts@ == tally(self@.recent_skips.take(i as int), cutoff as int),
            decreases self.recent_skip_events@.len() - i,
        {
            let event = &self.recent_skip_events[i];
            proof {
                let next = self@.recent_skips.take(i + 1);
                assert(next.drop_last() =~= self@.recent_skips.take(i as int));
                assert(next.last() == (event.timestamp, event.reason@));
                model::tally_counts_occurrences(
                    self@.recent_skips.take(i as int),
                    cutoff as int,
                    event.reason@,
                );
            }
            if event.timestamp.total_nanos() >= cutoff {
                let count: usize = match counts.get(event.reason.as_str()) {
                    Some(n) => *n,
                    None => 0,
                };
                counts.insert(event.reason.clone(), count + 1);
            }
            i = i + 1;
        }
        proof {
            assert(self@.recent_skips.take(i as int) =~= self@.recent_skips);
        }
        counts
    }

    /// Records that an alert was delivered now, or that it failed.
    pub fn record_alert_result(&mut self, ok: bool, error: Option<String>)
        requires
            old(self).alert_success_count < usize::MAX,
            old(self).alert_failure_count < usize::MAX,
        ensures
            exists|at: Timestamp|
                at@ >= 0 && final(self)@ == #[trigger] after_alert(
                    old(self)@,
                    ok,
                    optional_text(error),
                    at,
                ),
    {
        let at = now();
        self.record_alert_result_at(ok, error, at);
    }

    /// Records that an alert was delivered at the given time, or that it failed.
    pub fn record_alert_result_at(&mut self, ok: bool, error: Option<String>, at: Timestamp)
        requires
            old(self).alert_success_count < usize::MAX,
            old(self).alert_failure_count < usize::MAX,
        ensures
            final(self)@ == after_alert(old(self)@, ok, optional_text(error), at),
    {
        if ok {
            self.alert_success_count = self.alert_success_count + 1;
            self.last_alert_sent_at = Some(at);
            self.last_alert_error = None;
        } else {
            self.alert_failure_count = self.alert_failure_count + 1;
            self.last_alert_error = error;
        }
    }

    /// How far the equity has fallen since the UTC day began.
    pub fn daily_drawdown_usdc(&self) -> (r: Double)
        ensures
            r == drawdown(self@),
    {
        self.day_start_equity_usdc.sub(self.equity_usdc).max(Double::whole(0))
    }

    /// What was paid in a market, on both sides.
    pub fn market_notional_usdc(&self, market: &str) -> (r: Double)
        ensures
            r == (match lookup(self@.positions, market@) {
                Some(pos) => notional(pos),
                None => fraction(0, 1),
            }),
    {
        match self.market_positions.get(market) {
            Some(pos) => pos.notional(),
            None => Double::whole(0),
        }
    }

    /// The greatest amount paid in any one market.
    pub fn max_market_notional_usdc(&self) -> (r: Double)
        ensures
            r == largest_notional(self@.positions),
    {
        let mut r = Double::whole(0);
        let mut i: usize = 0;
        proof {
            assert(self@.positions.take(0) =~= Seq::<(Seq<char>, MarketPosition)>::empty());
        }
        while i < self.market_positions.len()
            invariant
                i <= self.market_positions@.len(),
                r == largest_notional(self@.positions.take(i as int)),
            decreases self.market_positions@.len() - i,
        {
            proof {
                let next = self@.positions.take(i + 1);
                assert(next.drop_last() =~= self@.positions.take(i as int));
                assert(next.last() == self@.positions[i as int]);
            }
            r = r.max(self.market_positions.value_at(i).notional());
            i = i + 1;
        }
        proof {
            assert(self@.positions.take(i as int) =~= self@.positions);
        }
        r
    }

    /// Replaces positions and figures by what the account reports now.
    pub fn apply_live_account_snapshot(
        &mut self,
        market_positions: Table<MarketPosition>,
        last_yes_prices: Table<Double>,
        open_mark_value_usdc: Double,
        open_unrealized_pnl_usdc: Double,
        total_realized_all_time_usdc: Double,
    )
        requires
            old(self).consecutive_loss_events < usize::MAX,
        ensures
            exists|at: Timestamp|
                at@ >= 0 && final(self)@ == after_sync(
                    old(self)@,
                    AccountReport {
                        positions: market_positions@,
                        yes_prices: last_yes_prices@,
                        mark_value: open_mark_value_usdc,
                        unrealized_pnl: open_unrealized_pnl_usdc,
                        realized_pnl: total_realized_all_time_usdc,
                    },
                    #[trigger] date_of(at),
                ),
    {
        let at = now();
        let today = utc_date(&at);
        let ghost before = self@;
        let ghost report = AccountReport {
            positions: market_positions@,
            yes_prices: last_yes_prices@,
            mark_value: open_mark_value_usdc,
            unrealized_pnl: open_unrealized_pnl_usdc,
            realized_pnl: total_realized_all_time_usdc,
        };
        self.apply_live_account_snapshot_on(
            market_positions,
            last_yes_prices,
            open_mark_value_usdc,
            open_unrealized_pnl_usdc,
            total_realized_all_time_usdc,
            today.as_str(),
        );
        proof {
            assert(self@ == after_sync(before, report, date_of(at)));
        }
    }

    /// Replaces positions and figures by what the account reports on the given
    /// date.
    pub fn apply_live_account_snapshot_on(
        &mut self,
        market_positions: Table<MarketPosition>,
        last_yes_prices: Table<Double>,
        open_mark_value_usdc: Double,
        open_unrealized_pnl_usdc: Double,
        total_realized_all_time_usdc: Double,
        today: &str,
    )
        requires
            old(self).consecutive_loss_events < usize::MAX,
        ensures
            final(self)@ == after_sync(
                old(self)@,
                AccountReport {
                    positions: market_positions@,
                    yes_prices: last_yes_prices@,
                    mark_value: open_mark_value_usdc,
                    unrealized_pnl: open_unrealized_pnl_usdc,
                    realized_pnl: total_realized_all_time_usdc,
                },
                today@,
            ),
    {
        let earlier = self.total_pnl();
        let base = match self.realized_pnl_baseline_usdc {
            Some(b) => b,
            None => total_realized_all_time_usdc,
        };
        self.realized_pnl_baseline_usdc = Some(base);
        self.realized_pnl_usdc = total_realized_all_time_usdc.sub(base);
        self.market_positions = market_positions;
        self.last_yes_prices = last_yes_prices;
        self.unrealized_pnl_usdc = open_unrealized_pnl_usdc;
        self.equity_usdc = self.initial_balance_usdc.add(self.realized_pnl_usdc).add(
            self.unrealized_pnl_usdc,
        );
        self.balance_usdc = self.equity_usdc.sub(open_mark_value_usdc).max(Double::whole(0));
        self.refresh_day_marker_if_needed(today);
        self.judge(earlier);
    }

    /// The profit since the start.
    pub fn total_pnl(&self) -> (r: Double)
        ensures
            r == total_pnl(self@),
    {
        self.equity_usdc.sub(self.initial_balance_usdc)
    }

    /// How long the bot has been running, such as "2h 15m 30s".
    pub fn uptime(&self) -> (r: String)
        ensures
            exists|at: Timestamp|
                at@ >= 0 && r@ == duration_text(#[trigger] running_time(self.started_at, at)),
    {
        let at = now();
        self.uptime_at(at)
    }

    /// How long the bot has been running at the given time.
    pub fn uptime_at(&self, at: Timestamp) -> (r: String)
        ensures
            r@ == duration_text(running_time(self.started_at, at)),
    {
        let span: i64 = at.seconds_since(&self.started_at);
        let secs: u64 = if span > 0 {
            span as u64
        } else {
            0
        };
        let h: u64 = secs / 3600;
        let m: u64 = (secs % 3600) / 60;
        let s: u64 = secs % 60;
        let mut out = String::new();
        if h > 0 {
            push_number(&mut out, h);
            out.append("h ");
        }
        if h > 0 || m > 0 {
            push_number(&mut out, m);
            out.append("m ");
        }
        push_number(&mut out, s);
        out.append("s");
        proof {
            assert(out@ =~= duration_text(secs as nat));
        }
        out
    }

    /// Starts a new day if the date has changed.
    fn refresh_day_marker_if_needed(&mut self, today: &str)
        ensures
            final(self)@ == dated(old(self)@, today@),
    {
        if !same(self.day_marker_utc.as_str(), today) {
            self.day_marker_utc = today.to_owned();
            self.day_start_equity_usdc = self.equity_usdc;
            self.consecutive_loss_events = 0;
        }
    }

    /// Values all positions anew.
    fn recompute_mark_to_market(&mut self)
        ensures
            final(self)@ == revalued(old(self)@),
    {
        let one = Double::whole(1);
        let mut paid = Double::whole(0);
        let mut value = Double::whole(0);
        let mut i: usize = 0;
        let ghost books = self@;
        proof {
            assert(books.positions.take(0) =~= Seq::<(Seq<char>, MarketPosition)>::empty());
        }
        while i < self.market_positions.len()
            invariant
                i <= self.market_positions@.len(),
                self@ == books,
                one == fraction(1, 1),
                paid == invested(books.positions.take(i as int)),
                value == mark_value(books.positions.take(i as int), books.yes_prices),
            decreases self.market_positions@.len() - i,
        {
            proof {
                let next = books.positions.take(i + 1);
                assert(next.drop_last() =~= books.positions.take(i as int));
                assert(next.last() == books.positions[i as int]);
            }
            let pos = *self.market_positions.value_at(i);
            let seen = match self.last_yes_prices.get(self.market_positions.key_at(i).as_str()) {
                Some(p) => *p,
                None => fallback_yes_price(&pos),
            };
            let yes_price = clamp_price(seen);
            let no_price = clamp_price(one.sub(yes_price));
            paid = paid.add(pos.notional());
            value = value.add(pos.yes_shares.mul(yes_price).add(pos.no_shares.mul(no_price)));
            i = i + 1;
        }
        proof {
            assert(books.positions.take(i as int) =~= books.positions);
        }
        self.unrealized_pnl_usdc = value.sub(paid);
        self.equity_usdc = self.balance_usdc.add(value);
    }
}

/// The YES price that a position itself suggests.
fn fallback_yes_price(pos: &MarketPosition) -> (r: Double)
    ensures
        r == implied_yes_price(*pos),
{
    let zero = Double::whole(0);
    let raw = if zero.lt(pos.yes_shares) {
        pos.yes_cost_usdc.div(pos.yes_shares)
    } else if zero.lt(pos.no_shares) {
        Double::whole(1).sub(pos.no_cost_usdc.div(pos.no_shares))
    } else {
        Double::ratio(1, 2)
    };
    clamp_price(raw)
}

} // verus!
