//! The books of the bot, as mathematics.

use crate::calendar::{date_text, dates_differ};
use crate::clock::{whole_seconds, Timestamp, NANOS_PER_DAY, NANOS_PER_SEC};
use crate::double::laws::lemma_positive;
use crate::double::{fraction, lemma_steps_zero, Double};
use crate::state::MarketPosition;
use crate::table::{lookup, put, put_then_lookup};
use crate::text::decimal;
use vstd::prelude::*;

verus! {

/// How many trades the books remember.
pub const MAX_RECENT_TRADES: usize = 200;

/// How many skipped signals the books remember.
pub const MAX_SKIP_EVENTS: usize = 5_000;

/// A trade.
#[verifier::ext_equal]
pub struct Trade {
    pub timestamp: Timestamp,
    pub whale_address: Seq<char>,
    pub market: Seq<char>,
    pub side: Seq<char>,
    pub price: Double,
    pub outcome: Seq<char>,
    pub effective_price: Double,
    pub shares: Double,
    pub size_usdc: Double,
    pub kelly_fraction: Double,
    pub simulated: bool,
}

/// The books at one moment.
#[verifier::ext_equal]
pub struct Books {
    pub dry_run: bool,
    pub balance: Double,
    pub initial_balance: Double,
    pub started_at: Timestamp,
    pub whale_count: usize,
    pub trade_count: int,
    pub recent_trades: Seq<Trade>,
    pub skip_reasons: Seq<(Seq<char>, usize)>,
    pub recent_skips: Seq<(Timestamp, Seq<char>)>,
    pub positions: Seq<(Seq<char>, MarketPosition)>,
    pub yes_prices: Seq<(Seq<char>, Double)>,
    pub unrealized_pnl: Double,
    pub realized_pnl: Double,
    pub realized_baseline: Option<Double>,
    pub equity: Double,
    pub day_marker: Seq<char>,
    pub day_start_equity: Double,
    pub loss_streak: int,
    pub alert_successes: int,
    pub alert_failures: int,
    pub last_alert_at: Option<Timestamp>,
    pub last_alert_error: Option<Seq<char>>,
}

/// The UTC date on which a point in time falls.
pub open spec fn date_of(t: Timestamp) -> Seq<char> {
    date_text(t@ / NANOS_PER_DAY as int)
}

/// The first `n` items, or all if there are fewer.
pub open spec fn at_most_first<T>(items: Seq<T>, n: int) -> Seq<T> {
    if items.len() > n {
        items.take(n)
    } else {
        items
    }
}

/// The books of a bot that starts with the given balance.
pub open spec fn fresh(dry_run: bool, balance: Double, started_at: Timestamp) -> Books {
    Books {
        dry_run,
        balance,
        initial_balance: balance,
        started_at,
        whale_count: 0,
        trade_count: 0,
        recent_trades: Seq::empty(),
        skip_reasons: Seq::empty(),
        recent_skips: Seq::empty(),
        positions: Seq::empty(),
        yes_prices: Seq::empty(),
        unrealized_pnl: fraction(0, 1),
        realized_pnl: fraction(0, 1),
        realized_baseline: None,
        equity: balance,
        day_marker: date_of(started_at),
        day_start_equity: balance,
        loss_streak: 0,
        alert_successes: 0,
        alert_failures: 0,
        last_alert_at: None,
        last_alert_error: None,
    }
}

/// A market without shares on either side.
pub open spec fn flat() -> MarketPosition {
    MarketPosition {
        yes_shares: fraction(0, 1),
        yes_cost_usdc: fraction(0, 1),
        no_shares: fraction(0, 1),
        no_cost_usdc: fraction(0, 1),
    }
}

/// A position with shares added on one side; on neither for any other outcome.
pub open spec fn grown(pos: MarketPosition, outcome: Seq<char>, shares: Double, cost: Double) -> MarketPosition {
    if outcome == "YES"@ {
        MarketPosition {
            yes_shares: pos.yes_shares.plus(shares),
            yes_cost_usdc: pos.yes_cost_usdc.plus(cost),
            ..pos
        }
    } else if outcome == "NO"@ {
        MarketPosition {
            no_shares: pos.no_shares.plus(shares),
            no_cost_usdc: pos.no_cost_usdc.plus(cost),
            ..pos
        }
    } else {
        pos
    }
}

/// The position in a market, flat if there is none.
pub open spec fn held(positions: Seq<(Seq<char>, MarketPosition)>, market: Seq<char>) -> MarketPosition {
    match lookup(positions, market) {
        Some(pos) => pos,
        None => flat(),
    }
}

/// What was paid for a position.
pub open spec fn notional(pos: MarketPosition) -> Double {
    pos.yes_cost_usdc.plus(pos.no_cost_usdc)
}

/// A price moved into the range that a token can be quoted at.
pub open spec fn quotable(price: Double) -> Double {
    price.bounded(fraction(1, 10_000), fraction(9999, 10_000))
}

/// The YES price that a position itself suggests: its average price on the YES
/// side, else one minus that on the NO side, else a half.
pub open spec fn implied_yes_price(pos: MarketPosition) -> Double {
    let zero = fraction(0, 1);
    quotable(
        if zero.below(pos.yes_shares) {
            pos.yes_cost_usdc.over(pos.yes_shares)
        } else if zero.below(pos.no_shares) {
            fraction(1, 1).minus(pos.no_cost_usdc.over(pos.no_shares))
        } else {
            fraction(1, 2)
        },
    )
}

/// The YES price at which a position is valued: the last one seen in its
/// market, or the one that it suggests itself.
pub open spec fn valuation_price(pos: MarketPosition, seen: Option<Double>) -> Double {
    quotable(
        match seen {
            Some(p) => p,
            None => implied_yes_price(pos),
        },
    )
}

/// What a position is worth at a YES price.
pub open spec fn worth(pos: MarketPosition, yes_price: Double) -> Double {
    pos.yes_shares.times(yes_price).plus(
        pos.no_shares.times(quotable(fraction(1, 1).minus(yes_price))),
    )
}

/// What was paid for all positions, market by market in the order of the book.
pub open spec fn invested(positions: Seq<(Seq<char>, MarketPosition)>) -> Double
    decreases positions.len(),
{
    if positions.len() == 0 {
        fraction(0, 1)
    } else {
        invested(positions.drop_last()).plus(notional(positions.last().1))
    }
}

/// What all positions are worth, market by market in the order of the book.
pub open spec fn mark_value(
    positions: Seq<(Seq<char>, MarketPosition)>,
    yes_prices: Seq<(Seq<char>, Double)>,
) -> Double
    decreases positions.len(),
{
    if positions.len() == 0 {
        fraction(0, 1)
    } else {
        let (market, pos) = positions.last();
        mark_value(positions.drop_last(), yes_prices).plus(
            worth(pos, valuation_price(pos, lookup(yes_prices, market))),
        )
    }
}

/// The profit since the start.
pub open spec fn total_pnl(books: Books) -> Double {
    books.equity.minus(books.initial_balance)
}

/// The books valued anew.
pub open spec fn revalued(books: Books) -> Books {
    let value = mark_value(books.positions, books.yes_prices);
    Books {
        unrealized_pnl: value.minus(invested(books.positions)),
        equity: books.balance.plus(value),
        ..books
    }
}

/// The books as of a date: on a new one the day starts with the present equity
/// and the loss streak with zero.
pub open spec fn dated(books: Books, today: Seq<char>) -> Books {
    if books.day_marker != today {
        Books { day_marker: today, day_start_equity: books.equity, loss_streak: 0, ..books }
    } else {
        books
    }
}

/// Whether the profit fell from `before` to `after` by more than a rounding
/// error.
pub open spec fn lost(before: Double, after: Double) -> bool {
    after.plus(fraction(1, 1_000_000_000)).below(before)
}

/// The books with the loss streak continued or ended, given the earlier profit.
pub open spec fn judged(books: Books, earlier_pnl: Double) -> Books {
    Books {
        loss_streak: if lost(earlier_pnl, total_pnl(books)) {
            books.loss_streak + 1
        } else {
            0
        },
        ..books
    }
}

/// The books with a trade entered, before they are valued anew.
pub open spec fn entered(books: Books, trade: Trade) -> Books {
    let market = trade.market;
    Books {
        balance: books.balance.minus(trade.size_usdc).greater_of(fraction(0, 1)),
        yes_prices: if fraction(0, 1).at_most(trade.price) && trade.price.below(fraction(1, 1)) {
            put(books.yes_prices, market, trade.price)
        } else {
            books.yes_prices
        },
        positions: put(
            books.positions,
            market,
            grown(held(books.positions, market), trade.outcome, trade.shares, trade.size_usdc),
        ),
        trade_count: books.trade_count + 1,
        recent_trades: at_most_first(seq![trade] + books.recent_trades, MAX_RECENT_TRADES as int),
        ..books
    }
}

/// The books after a trade on a date.
pub open spec fn after_trade(books: Books, trade: Trade, today: Seq<char>) -> Books {
    judged(dated(revalued(entered(books, trade)), today), total_pnl(books))
}

/// The count of a reason.
pub open spec fn count_of(counts: Seq<(Seq<char>, usize)>, reason: Seq<char>) -> int {
    match lookup(counts, reason) {
        Some(n) => n as int,
        None => 0,
    }
}

/// The books after a signal was skipped.
pub open spec fn after_skip(books: Books, reason: Seq<char>, at: Timestamp) -> Books {
    Books {
        skip_reasons: put(books.skip_reasons, reason, (count_of(books.skip_reasons, reason) + 1) as usize),
        recent_skips: at_most_first(seq![(at, reason)] + books.recent_skips, MAX_SKIP_EVENTS as int),
        ..books
    }
}

/// How often each reason occurs among the skipped signals of the seconds up to a point
/// in time; none without any seconds.
pub open spec fn counts_within(books: Books, at: Timestamp, secs: int) -> Seq<(Seq<char>, usize)> {
    if secs <= 0 {
        Seq::empty()
    } else {
        tally(books.recent_skips, at@ - secs * NANOS_PER_SEC)
    }
}

/// How many whole seconds have passed since a bot started; none before.
pub open spec fn running_time(started_at: Timestamp, at: Timestamp) -> nat {
    if whole_seconds(at@ - started_at@) > 0 {
        whole_seconds(at@ - started_at@) as nat
    } else {
        0
    }
}

/// How often each reason occurs among the skipped signals from `cutoff` on.
pub open spec fn tally(skips: Seq<(Timestamp, Seq<char>)>, cutoff: int) -> Seq<(Seq<char>, usize)>
    decreases skips.len(),
{
    if skips.len() == 0 {
        Seq::empty()
    } else {
        let rest = tally(skips.drop_last(), cutoff);
        let (at, reason) = skips.last();
        if at@ >= cutoff {
            put(rest, reason, (count_of(rest, reason) + 1) as usize)
        } else {
            rest
        }
    }
}

/// How many skipped signals from `cutoff` on have the given reason.
pub open spec fn occurrences(skips: Seq<(Timestamp, Seq<char>)>, cutoff: int, reason: Seq<char>) -> nat
    decreases skips.len(),
{
    if skips.len() == 0 {
        0
    } else {
        occurrences(skips.drop_last(), cutoff, reason) + (if skips.last().0@ >= cutoff && skips.last().1
            == reason {
            1nat
        } else {
            0nat
        })
    }
}

/// The books after an alert was delivered or failed.
pub open spec fn after_alert(books: Books, ok: bool, error: Option<Seq<char>>, at: Timestamp) -> Books {
    if ok {
        Books {
            alert_successes: books.alert_successes + 1,
            last_alert_at: Some(at),
            last_alert_error: None,
            ..books
        }
    } else {
        Books { alert_failures: books.alert_failures + 1, last_alert_error: error, ..books }
    }
}

/// How far the equity has fallen since the day began.
pub open spec fn drawdown(books: Books) -> Double {
    books.day_start_equity.minus(books.equity).greater_of(fraction(0, 1))
}

/// The greatest amount paid in any one market; zero if there is none.
pub open spec fn largest_notional(positions: Seq<(Seq<char>, MarketPosition)>) -> Double
    decreases positions.len(),
{
    if positions.len() == 0 {
        fraction(0, 1)
    } else {
        largest_notional(positions.drop_last()).greater_of(notional(positions.last().1))
    }
}

/// What an account reports of itself.
pub struct AccountReport {
    pub positions: Seq<(Seq<char>, MarketPosition)>,
    pub yes_prices: Seq<(Seq<char>, Double)>,
    pub mark_value: Double,
    pub unrealized_pnl: Double,
    pub realized_pnl: Double,
}

/// The realized profit of an account when the bot first saw it.
pub open spec fn baseline(books: Books, realized: Double) -> Double {
    match books.realized_baseline {
        Some(b) => b,
        None => realized,
    }
}

/// The books with an account's own figures in place of the bot's.
pub open spec fn reconciled(books: Books, report: AccountReport) -> Books {
    let realized = report.realized_pnl.minus(baseline(books, report.realized_pnl));
    let equity = books.initial_balance.plus(realized).plus(report.unrealized_pnl);
    Books {
        realized_baseline: Some(baseline(books, report.realized_pnl)),
        realized_pnl: realized,
        positions: report.positions,
        yes_prices: report.yes_prices,
        unrealized_pnl: report.unrealized_pnl,
        equity,
        balance: equity.minus(report.mark_value).greater_of(fraction(0, 1)),
        ..books
    }
}

/// The books after an account was synchronised on a date.
pub open spec fn after_sync(books: Books, report: AccountReport, today: Seq<char>) -> Books {
    judged(dated(reconciled(books, report), today), total_pnl(books))
}

/// A number of seconds in hours, minutes and seconds, without leading zeros.
pub open spec fn duration_text(secs: nat) -> Seq<char> {
    let h = secs / 3600;
    let m = (secs % 3600) / 60;
    let s = secs % 60;
    if h > 0 {
        decimal(h) + "h "@ + decimal(m) + "m "@ + decimal(s) + "s"@
    } else if m > 0 {
        decimal(m) + "m "@ + decimal(s) + "s"@
    } else {
        decimal(s) + "s"@
    }
}

/// A count of skipped signals is never negative, and tallying finds exactly the
/// occurrences of each reason; a reason that does not occur is not listed.
pub proof fn tally_counts_occurrences(skips: Seq<(Timestamp, Seq<char>)>, cutoff: int, reason: Seq<char>)
    requires
        skips.len() <= usize::MAX,
    ensures
        lookup(tally(skips, cutoff), reason) == (if occurrences(skips, cutoff, reason) == 0 {
            None
        } else {
            Some(occurrences(skips, cutoff, reason) as usize)
        }),
        occurrences(skips, cutoff, reason) <= skips.len(),
    decreases skips.len(),
{
    if skips.len() > 0 {
        let rest = tally(skips.drop_last(), cutoff);
        let last = skips.last().1;
        tally_counts_occurrences(skips.drop_last(), cutoff, reason);
        tally_counts_occurrences(skips.drop_last(), cutoff, last);
        put_then_lookup(rest, last, (count_of(rest, last) + 1) as usize, reason);
    } else {
        assert(lookup(tally(skips, cutoff), reason) is None);
    }
}

/// A longer window never finds fewer occurrences.
pub proof fn longer_window_counts_more(
    skips: Seq<(Timestamp, Seq<char>)>,
    early: int,
    late: int,
    reason: Seq<char>,
)
    requires
        early <= late,
    ensures
        occurrences(skips, late, reason) <= occurrences(skips, early, reason),
    decreases skips.len(),
{
    if skips.len() > 0 {
        longer_window_counts_more(skips.drop_last(), early, late, reason);
    }
}

/// Skipping a signal adds one to the count of its reason and changes no other
/// count, and puts the signal in front of those remembered.
pub proof fn skip_is_counted(books: Books, reason: Seq<char>, at: Timestamp, other: Seq<char>)
    requires
        count_of(books.skip_reasons, reason) < usize::MAX,
    ensures
        count_of(after_skip(books, reason, at).skip_reasons, other) == count_of(
            books.skip_reasons,
            other,
        ) + (if other == reason {
            1int
        } else {
            0int
        }),
        after_skip(books, reason, at).recent_skips.len() <= MAX_SKIP_EVENTS,
        after_skip(books, reason, at).recent_skips[0] == (at, reason),
{
    put_then_lookup(
        books.skip_reasons,
        reason,
        (count_of(books.skip_reasons, reason) + 1) as usize,
        other,
    );
}

/// The balance is never negative after a trade or a synchronisation.
pub proof fn balance_is_never_negative(
    books: Books,
    trade: Trade,
    report: AccountReport,
    today: Seq<char>,
)
    ensures
        fraction(0, 1).at_most(after_trade(books, trade, today).balance),
        fraction(0, 1).at_most(after_sync(books, report, today).balance),
{
    lemma_positive(fraction(0, 1));
}

/// A trade stands in front of those remembered, of which there are never too
/// many, and no trade goes uncounted.
pub proof fn trade_is_remembered(books: Books, trade: Trade, today: Seq<char>)
    ensures
        after_trade(books, trade, today).trade_count == books.trade_count + 1,
        after_trade(books, trade, today).recent_trades.len() <= MAX_RECENT_TRADES,
        after_trade(books, trade, today).recent_trades[0] == trade,
{
}

/// A trade changes no market but its own.
pub proof fn trade_touches_one_market(books: Books, trade: Trade, today: Seq<char>, other: Seq<char>)
    requires
        other != trade.market,
    ensures
        held(after_trade(books, trade, today).positions, other) == held(books.positions, other),
        lookup(after_trade(books, trade, today).yes_prices, other) == lookup(books.yes_prices, other),
{
    let market = trade.market;
    put_then_lookup(
        books.positions,
        market,
        grown(held(books.positions, market), trade.outcome, trade.shares, trade.size_usdc),
        other,
    );
    put_then_lookup(books.yes_prices, market, trade.price, other);
}

/// A drawdown is never negative.
pub proof fn drawdown_is_never_negative(books: Books)
    ensures
        fraction(0, 1).at_most(drawdown(books)),
{
    lemma_positive(fraction(0, 1));
}

/// With the first trade or synchronisation on a new date the drawdown starts at
/// zero and the loss streak anew.
pub proof fn new_day_starts_level(
    books: Books,
    trade: Trade,
    report: AccountReport,
    today: Seq<char>,
)
    requires
        books.day_marker != today,
    ensures
        after_trade(books, trade, today).equity.finite() ==> drawdown(after_trade(books, trade, today))
            == fraction(0, 1),
        after_trade(books, trade, today).loss_streak <= 1,
        after_trade(books, trade, today).day_marker == today,
        after_sync(books, report, today).equity.finite() ==> drawdown(after_sync(books, report, today))
            == fraction(0, 1),
        after_sync(books, report, today).loss_streak <= 1,
        after_sync(books, report, today).day_marker == today,
{
    if after_trade(books, trade, today).equity.finite() {
        lemma_level(after_trade(books, trade, today).equity);
    }
    if after_sync(books, report, today).equity.finite() {
        lemma_level(after_sync(books, report, today).equity);
    }
}

/// With the first trade or synchronisation on another UTC day than the last, the
/// drawdown starts at zero and the loss streak anew; on the same day what the
/// drawdown is measured from stays.
pub proof fn utc_day_starts_level(
    books: Books,
    trade: Trade,
    report: AccountReport,
    last: Timestamp,
    at: Timestamp,
)
    requires
        books.day_marker == date_of(last),
    ensures
        last@ / NANOS_PER_DAY as int != at@ / NANOS_PER_DAY as int ==> {
            &&& after_trade(books, trade, date_of(at)).loss_streak <= 1
            &&& after_trade(books, trade, date_of(at)).equity.finite() ==> drawdown(
                after_trade(books, trade, date_of(at)),
            ) == fraction(0, 1)
            &&& after_sync(books, report, date_of(at)).loss_streak <= 1
            &&& after_sync(books, report, date_of(at)).equity.finite() ==> drawdown(
                after_sync(books, report, date_of(at)),
            ) == fraction(0, 1)
        },
        last@ / NANOS_PER_DAY as int == at@ / NANOS_PER_DAY as int ==> {
            &&& after_trade(books, trade, date_of(at)).day_start_equity == books.day_start_equity
            &&& after_sync(books, report, date_of(at)).day_start_equity == books.day_start_equity
        },
        after_trade(books, trade, date_of(at)).day_marker == date_of(at),
        after_sync(books, report, date_of(at)).day_marker == date_of(at),
{
    if last@ / NANOS_PER_DAY as int != at@ / NANOS_PER_DAY as int {
        if date_of(last) == date_of(at) {
            dates_differ(last@ / NANOS_PER_DAY as int, at@ / NANOS_PER_DAY as int);
        }
        new_day_starts_level(books, trade, report, date_of(at));
    }
}

/// Within a day trades and synchronisations leave alone what the drawdown is
/// measured from.
pub proof fn day_keeps_its_start(books: Books, trade: Trade, report: AccountReport)
    ensures
        after_trade(books, trade, books.day_marker).day_start_equity == books.day_start_equity,
        after_trade(books, trade, books.day_marker).day_marker == books.day_marker,
        after_sync(books, report, books.day_marker).day_start_equity == books.day_start_equity,
        after_sync(books, report, books.day_marker).day_marker == books.day_marker,
{
}

/// Nothing is lost between equal figures.
proof fn lemma_level(equity: Double)
    requires
        equity.finite(),
    ensures
        equity.minus(equity).greater_of(fraction(0, 1)) == fraction(0, 1),
        equity.minus(equity) == fraction(0, 1),
{
    lemma_positive(fraction(0, 1));
    lemma_steps_zero();
    crate::double::laws::lemma_packed(equity.magnitude());
    assert(equity.opposite().value() == -equity.value());
}

/// The first synchronisation realizes nothing, and later ones measure from it.
pub proof fn first_sync_sets_baseline(books: Books, report: AccountReport, today: Seq<char>)
    requires
        report.realized_pnl.finite(),
    ensures
        after_sync(books, report, today).realized_baseline == Some(baseline(books, report.realized_pnl)),
        books.realized_baseline is None ==> after_sync(books, report, today).realized_pnl == fraction(0, 1),
        books.realized_baseline is Some ==> after_sync(books, report, today).realized_baseline
            == books.realized_baseline,
{
    lemma_level(report.realized_pnl);
}

/// No market has more paid into it than the greatest amount, where all amounts
/// are numbers.
pub proof fn largest_notional_bounds_each(positions: Seq<(Seq<char>, MarketPosition)>, i: int)
    requires
        0 <= i < positions.len(),
        forall|j: int|
            0 <= j < positions.len() ==> !(#[trigger] notional(positions[j].1)).not_a_number(),
    ensures
        notional(positions[i].1).at_most(largest_notional(positions)),
    decreases positions.len(),
{
    let shorter = positions.drop_last();
    assert forall|j: int| 0 <= j < shorter.len() implies !(#[trigger] notional(
        shorter[j].1,
    )).not_a_number() by {
        assert(!notional(positions[j].1).not_a_number());
    }
    lemma_largest_is_number(shorter);
    assert(!notional(positions.last().1).not_a_number());
    if i < shorter.len() {
        largest_notional_bounds_each(shorter, i);
        assert(shorter[i] == positions[i]);
    }
}

/// The greatest amount is a number.
proof fn lemma_largest_is_number(positions: Seq<(Seq<char>, MarketPosition)>)
    requires
        forall|j: int|
            0 <= j < positions.len() ==> !(#[trigger] notional(positions[j].1)).not_a_number(),
    ensures
        !largest_notional(positions).not_a_number(),
    decreases positions.len(),
{
    lemma_positive(fraction(0, 1));
    if positions.len() > 0 {
        let shorter = positions.drop_last();
        assert forall|j: int| 0 <= j < shorter.len() implies !(#[trigger] notional(
            shorter[j].1,
        )).not_a_number() by {
            assert(!notional(positions[j].1).not_a_number());
        }
        lemma_largest_is_number(shorter);
        assert(!notional(positions.last().1).not_a_number());
    }
}

/// The books after several synchronisations, each on a date.
pub open spec fn after_syncs(books: Books, syncs: Seq<(AccountReport, Seq<char>)>) -> Books
    decreases syncs.len(),
{
    if syncs.len() == 0 {
        books
    } else {
        after_sync(after_syncs(books, syncs.drop_last()), syncs.last().0, syncs.last().1)
    }
}

/// Over several synchronisations the baseline stays what the first one reported,
/// and the realized profit is what the last one reported above that.
pub proof fn syncs_measure_from_the_first(books: Books, syncs: Seq<(AccountReport, Seq<char>)>)
    requires
        books.realized_baseline is None,
        syncs.len() > 0,
    ensures
        after_syncs(books, syncs).realized_baseline == Some(syncs[0].0.realized_pnl),
        after_syncs(books, syncs).realized_pnl == syncs.last().0.realized_pnl.minus(
            syncs[0].0.realized_pnl,
        ),
        after_syncs(books, syncs).initial_balance == books.initial_balance,
        after_syncs(books, syncs).equity == books.initial_balance.plus(
            syncs.last().0.realized_pnl.minus(syncs[0].0.realized_pnl),
        ).plus(syncs.last().0.unrealized_pnl),
    decreases syncs.len(),
{
    let shorter = syncs.drop_last();
    if shorter.len() > 0 {
        syncs_measure_from_the_first(books, shorter);
        assert(shorter[0] == syncs[0]);
    } else {
        assert(after_syncs(books, shorter) == books);
    }
}

/// Whether no reason occurs more often among the remembered signals than it is
/// counted in total.
pub open spec fn totals_cover_windows(books: Books) -> bool {
    forall|cutoff: int, reason: Seq<char>|
        #[trigger] occurrences(books.recent_skips, cutoff, reason) <= count_of(books.skip_reasons, reason)
}

/// A signal in front of others adds itself to their occurrences.
pub proof fn lemma_front_occurrence(
    first: (Timestamp, Seq<char>),
    skips: Seq<(Timestamp, Seq<char>)>,
    cutoff: int,
    reason: Seq<char>,
)
    ensures
        occurrences(seq![first] + skips, cutoff, reason) == occurrences(skips, cutoff, reason) + (
        if first.0@ >= cutoff && first.1 == reason {
            1nat
        } else {
            0nat
        }),
    decreases skips.len(),
{
    let all = seq![first] + skips;
    if skips.len() > 0 {
        lemma_front_occurrence(first, skips.drop_last(), cutoff, reason);
        assert(all.drop_last() =~= seq![first] + skips.drop_last());
        assert(all.last() == skips.last());
    } else {
        assert(all.drop_last() =~= skips);
        assert(all.last() == first);
    }
}

/// Fewer signals hold no more occurrences.
proof fn lemma_fewer_occurrences(
    skips: Seq<(Timestamp, Seq<char>)>,
    n: int,
    cutoff: int,
    reason: Seq<char>,
)
    requires
        0 <= n <= skips.len(),
    ensures
        occurrences(skips.take(n), cutoff, reason) <= occurrences(skips, cutoff, reason),
    decreases skips.len(),
{
    if n < skips.len() {
        lemma_fewer_occurrences(skips.drop_last(), n, cutoff, reason);
        assert(skips.drop_last().take(n) =~= skips.take(n));
    } else {
        assert(skips.take(n) =~= skips);
    }
}

/// A skipped signal keeps the totals above what is counted within any window.
pub proof fn lemma_skip_is_covered(books: Books, reason: Seq<char>, at: Timestamp)
    requires
        totals_cover_windows(books),
        count_of(books.skip_reasons, reason) < usize::MAX,
    ensures
        totals_cover_windows(after_skip(books, reason, at)),
{
    let after = after_skip(books, reason, at);
    assert forall|cutoff: int, other: Seq<char>|
        #[trigger] occurrences(after.recent_skips, cutoff, other) <= count_of(
            after.skip_reasons,
            other,
        ) by {
        let all = seq![(at, reason)] + books.recent_skips;
        assert(occurrences(books.recent_skips, cutoff, other) <= count_of(books.skip_reasons, other));
        lemma_front_occurrence((at, reason), books.recent_skips, cutoff, other);
        if all.len() > MAX_SKIP_EVENTS {
            lemma_fewer_occurrences(all, MAX_SKIP_EVENTS as int, cutoff, other);
        }
        put_then_lookup(
            books.skip_reasons,
            reason,
            (count_of(books.skip_reasons, reason) + 1) as usize,
            other,
        );
    }
}

/// No window ever counts a reason more often than its total: that holds of fresh
/// books, and whatever happens keeps it.
pub proof fn window_never_exceeds_total(
    books: Books,
    trade: Trade,
    report: AccountReport,
    today: Seq<char>,
    reason: Seq<char>,
    delivered: bool,
    error: Option<Seq<char>>,
    at: Timestamp,
)
    requires
        totals_cover_windows(books),
        count_of(books.skip_reasons, reason) < usize::MAX,
    ensures
        totals_cover_windows(after_skip(books, reason, at)),
        totals_cover_windows(after_trade(books, trade, today)),
        totals_cover_windows(after_sync(books, report, today)),
        totals_cover_windows(after_alert(books, delivered, error, at)),
{
    lemma_skip_is_covered(books, reason, at);
}

/// Where the totals cover the windows, what is counted of a reason within a window is
/// the number of its occurrences there: at least one, if it is listed at all, and at
/// most its total; and a longer window lists it too and never counts less.
pub proof fn window_counts_are_within_totals(books: Books, early: int, late: int, reason: Seq<char>)
    requires
        totals_cover_windows(books),
        books.recent_skips.len() <= usize::MAX,
        early <= late,
    ensures
        lookup(tally(books.recent_skips, late), reason) is Some <==> occurrences(
            books.recent_skips,
            late,
            reason,
        ) > 0,
        lookup(tally(books.recent_skips, late), reason) matches Some(n) ==> {
            &&& n == occurrences(books.recent_skips, late, reason)
            &&& 1 <= n <= count_of(books.skip_reasons, reason)
            &&& lookup(tally(books.recent_skips, early), reason) matches Some(m) && n <= m
        },
{
    tally_counts_occurrences(books.recent_skips, late, reason);
    tally_counts_occurrences(books.recent_skips, early, reason);
    longer_window_counts_more(books.recent_skips, early, late, reason);
    assert(occurrences(books.recent_skips, late, reason) <= count_of(books.skip_reasons, reason));
}

/// Fresh books count nothing, in total or in any window.
pub proof fn fresh_books_count_nothing(dry_run: bool, balance: Double, started_at: Timestamp)
    ensures
        totals_cover_windows(fresh(dry_run, balance, started_at)),
{
}

} // verus!
