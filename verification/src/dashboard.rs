//! What the dashboard shows: rows, their order and their figures.

use crate::calendar::{clock_text, moment_text};
use crate::clock::{formatted, Timestamp, NANOS_PER_SEC};
use crate::double::laws::lemma_packed;
use crate::double::{fraction, Double};
use crate::investigation::scoring::TraderProfile;
use crate::order::{
    is_weak_order, rank, ranking, ranking_is_ordered, ranking_is_ordered_among, ranking_rearranges,
    Ranked,
};
use crate::state::model::{at_most_first, count_of, notional, quotable};
use crate::state::{clamp_price, BotState, MarketPosition, TradeRecord};
use crate::table::{keys, lookup, with_keys, KeySet, Table};
use crate::text::{
    before, characters, precedes, precedes_is_irreflexive, precedes_is_total,
    precedes_is_transitive, same, slice,
};
use std::collections::VecDeque;
use vstd::prelude::*;

verus! {

/// Seconds between reloads of the page.
pub const DASHBOARD_REFRESH_SECS: u32 = 10;

/// How many reasons for skipped signals are shown.
pub const MAX_SKIP_ROWS: usize = 20;

/// How many trades are shown.
pub const MAX_TRADE_ROWS: usize = 200;

/// The first `prefix` and the last `suffix` characters with an ellipsis between
/// them; the text itself if that would not be shorter.
pub open spec fn shortened(text: Seq<char>, prefix: int, suffix: int) -> Seq<char> {
    if text.len() <= prefix + suffix + 1 {
        text
    } else {
        text.take(prefix) + seq!['\u{2026}'] + text.skip(text.len() - suffix)
    }
}

/// The first `prefix` and the last `suffix` characters with an ellipsis between
/// them; the text itself if that would not be shorter.
pub fn truncate_middle(s: &str, prefix: usize, suffix: usize) -> (r: String)
    requires
        prefix + suffix < usize::MAX,
    ensures
        r@ == shortened(s@, prefix as int, suffix as int),
{
    let chars = characters(s);
    if chars.len() <= prefix + suffix + 1 {
        return s.to_owned();
    }
    let mut out = slice(&chars, 0, prefix);
    out.push('\u{2026}');
    let tail = slice(&chars, chars.len() - suffix, chars.len());
    out.append(tail.as_str());
    proof {
        assert(out@ =~= shortened(s@, prefix as int, suffix as int));
    }
    out
}

/// A shortened text is never longer than the parts that are kept and the
/// ellipsis, and begins and ends as the text does.
pub proof fn shortened_keeps_both_ends(text: Seq<char>, prefix: int, suffix: int)
    requires
        0 <= prefix,
        0 <= suffix,
        text.len() > prefix + suffix + 1,
    ensures
        shortened(text, prefix, suffix).len() == prefix + suffix + 1,
        shortened(text, prefix, suffix).take(prefix) == text.take(prefix),
        shortened(text, prefix, suffix).skip(prefix + 1) == text.skip(text.len() - suffix),
{
    assert(shortened(text, prefix, suffix).take(prefix) =~= text.take(prefix));
    assert(shortened(text, prefix, suffix).skip(prefix + 1) =~= text.skip(text.len() - suffix));
}

/// The page of a wallet on the exchange.
pub fn profile_url(address: &str) -> (r: String)
    ensures
        r@ == "https://polymarket.com/profile/"@ + address@,
{
    let mut url = "https://polymarket.com/profile/".to_owned();
    url.append(address);
    url
}

/// The page of a market on the exchange.
pub fn event_url(market: &str) -> (r: String)
    ensures
        r@ == "https://polymarket.com/event/"@ + market@,
{
    let mut url = "https://polymarket.com/event/".to_owned();
    url.append(market);
    url
}

/// A wallet that is followed, as it is shown.
#[derive(Debug)]
pub struct WhaleRow {
    pub rank: usize,
    pub short_address: String,
    pub profile_url: String,
    pub win_percent: Double,
    pub conservative_percent: Double,
    pub active_markets: usize,
}

/// Whether a row shows the wallet at a place of the list.
pub open spec fn shows_whale(row: WhaleRow, whales: Seq<TraderProfile>, i: int) -> bool {
    &&& row.rank == i + 1
    &&& row.short_address@ == shortened(whales[i].address@, 6, 4)
    &&& row.profile_url@ == "https://polymarket.com/profile/"@ + whales[i].address@
    &&& row.win_percent == whales[i].win_rate.times(fraction(100, 1))
    &&& row.conservative_percent == whales[i].conservative_win_rate.times(fraction(100, 1))
    &&& row.active_markets == whales[i].active_asset_ids@.len()
}

/// The wallets that are followed, as they are shown.
pub fn whale_rows(whales: &Vec<TraderProfile>) -> (r: Vec<WhaleRow>)
    ensures
        r@.len() == whales@.len(),
        forall|i: int| 0 <= i < r@.len() ==> shows_whale(#[trigger] r@[i], whales@, i),
{
    let hundred = Double::whole(100);
    let mut rows: Vec<WhaleRow> = Vec::new();
    let mut i: usize = 0;
    while i < whales.len()
        invariant
            i <= whales.len(),
            rows@.len() == i,
            hundred == fraction(100, 1),
            forall|k: int| 0 <= k < i ==> shows_whale(#[trigger] rows@[k], whales@, k),
        decreases whales.len() - i,
    {
        let w = &whales[i];
        rows.push(
            WhaleRow {
                rank: i + 1,
                short_address: truncate_middle(w.address.as_str(), 6, 4),
                profile_url: profile_url(w.address.as_str()),
                win_percent: w.win_rate.mul(hundred),
                conservative_percent: w.conservative_win_rate.mul(hundred),
                active_markets: w.active_asset_ids.len(),
            },
        );
        i = i + 1;
    }
    rows
}

/// A trade, as it is shown.
#[derive(Debug)]
pub struct TradeRow {
    pub time: String,
    pub short_whale: String,
    pub whale_url: String,
    pub short_market: String,
    pub market_url: String,
    pub bought: bool,
    pub on_yes: bool,
    pub kelly_percent: Double,
}

/// Whether a row shows a trade.
pub open spec fn shows_trade(row: TradeRow, t: TradeRecord) -> bool {
    &&& row.time@ == clock_text(t.timestamp@ / NANOS_PER_SEC as int)
    &&& row.short_whale@ == shortened(t.whale_address@, 6, 4)
    &&& row.whale_url@ == "https://polymarket.com/profile/"@ + t.whale_address@
    &&& row.short_market@ == shortened(t.market@, 6, 4)
    &&& row.market_url@ == "https://polymarket.com/event/"@ + t.market@
    &&& row.bought == (t.side@ == "Buy"@)
    &&& row.on_yes == (t.outcome@ == "YES"@)
    &&& row.kelly_percent == t.kelly_fraction.times(fraction(100, 1))
}

/// Whether rows show the latest trades in their order, up to the number that is shown.
pub open spec fn are_trade_rows(rows: Seq<TradeRow>, trades: Seq<TradeRecord>) -> bool {
    &&& rows.len() == at_most_first(trades, MAX_TRADE_ROWS as int).len()
    &&& forall|i: int| 0 <= i < rows.len() ==> shows_trade(#[trigger] rows[i], trades[i])
}

/// The latest trades, as they are shown.
pub fn trade_rows(trades: &VecDeque<TradeRecord>) -> (r: Vec<TradeRow>)
    ensures
        are_trade_rows(r@, trades@),
{
    let hundred = Double::whole(100);
    let mut rows: Vec<TradeRow> = Vec::new();
    let mut i: usize = 0;
    while i < trades.len() && i < MAX_TRADE_ROWS
        invariant
            i <= trades@.len(),
            i <= MAX_TRADE_ROWS,
            rows@.len() == i,
            hundred == fraction(100, 1),
            forall|k: int| 0 <= k < i ==> shows_trade(#[trigger] rows@[k], trades@[k]),
        decreases trades@.len() - i,
    {
        let t = &trades[i];
        rows.push(
            TradeRow {
                time: formatted(&t.timestamp, "%H:%M:%S"),
                short_whale: truncate_middle(t.whale_address.as_str(), 6, 4),
                whale_url: profile_url(t.whale_address.as_str()),
                short_market: truncate_middle(t.market.as_str(), 6, 4),
                market_url: event_url(t.market.as_str()),
                bought: same(t.side.as_str(), "Buy"),
                on_yes: same(t.outcome.as_str(), "YES"),
                kelly_percent: t.kelly_fraction.mul(hundred),
            },
        );
        i = i + 1;
    }
    rows
}

/// How often signals were skipped for a reason, as it is shown.
#[derive(Debug)]
pub struct SkipRow {
    pub reason: String,
    pub total: usize,
    pub count_24h: usize,
    pub count_1h: usize,
}

/// Whether counts rank before others: the greater total first, then the greater
/// count of a day, then that of an hour, then the reason that comes first.
pub open spec fn skip_row_before(a: SkipRow, b: SkipRow) -> bool {
    if a.total != b.total {
        a.total > b.total
    } else if a.count_24h != b.count_24h {
        a.count_24h > b.count_24h
    } else if a.count_1h != b.count_1h {
        a.count_1h > b.count_1h
    } else {
        precedes(a.reason@, b.reason@)
    }
}

impl Ranked for SkipRow {
    open spec fn ranks_before(self, other: SkipRow) -> bool {
        skip_row_before(self, other)
    }

    fn outranks(&self, other: &SkipRow) -> (r: bool) {
        if self.total != other.total {
            self.total > other.total
        } else if self.count_24h != other.count_24h {
            self.count_24h > other.count_24h
        } else if self.count_1h != other.count_1h {
            self.count_1h > other.count_1h
        } else {
            before(self.reason.as_str(), other.reason.as_str())
        }
    }
}

/// The reasons that occur in any of three tables, each once.
pub open spec fn all_reasons(
    totals: Seq<(Seq<char>, usize)>,
    hour: Seq<(Seq<char>, usize)>,
    day: Seq<(Seq<char>, usize)>,
) -> Seq<Seq<char>> {
    with_keys(with_keys(with_keys(Seq::empty(), keys(totals)), keys(hour)), keys(day))
}

/// Whether a row shows the counts of a reason.
pub open spec fn shows_reason(
    row: SkipRow,
    reason: Seq<char>,
    totals: Seq<(Seq<char>, usize)>,
    hour: Seq<(Seq<char>, usize)>,
    day: Seq<(Seq<char>, usize)>,
) -> bool {
    &&& row.reason@ == reason
    &&& row.total == count_of(totals, reason)
    &&& row.count_24h == count_of(day, reason)
    &&& row.count_1h == count_of(hour, reason)
}

/// Whether rows show the given reasons one by one.
pub open spec fn show_reasons(
    rows: Seq<SkipRow>,
    reasons: Seq<Seq<char>>,
    totals: Seq<(Seq<char>, usize)>,
    hour: Seq<(Seq<char>, usize)>,
    day: Seq<(Seq<char>, usize)>,
) -> bool {
    rows.len() == reasons.len() && forall|i: int|
        0 <= i < rows.len() ==> shows_reason(#[trigger] rows[i], reasons[i], totals, hour, day)
}

/// Adds the keys of a table to a set.
fn add_keys(set: &mut KeySet, table: &Table<usize>)
    ensures
        final(set)@ == with_keys(old(set)@, keys(table@)),
{
    let ghost start = set@;
    let mut i: usize = 0;
    proof {
        assert(keys(table@).take(0) =~= Seq::<Seq<char>>::empty());
    }
    while i < table.len()
        invariant
            i <= table@.len(),
            set@ == with_keys(start, keys(table@).take(i as int)),
        decreases table@.len() - i,
    {
        proof {
            let next = keys(table@).take(i + 1);
            assert(next.drop_last() =~= keys(table@).take(i as int));
            assert(next.last() == table@[i as int].0);
        }
        set.insert(table.key_at(i).clone());
        i = i + 1;
    }
    proof {
        assert(keys(table@).take(i as int) =~= keys(table@));
    }
}

/// The count of a reason; zero if it is not listed.
fn count_in(table: &Table<usize>, reason: &str) -> (r: usize)
    ensures
        r == count_of(table@, reason@),
{
    match table.get(reason) {
        Some(n) => *n,
        None => 0,
    }
}

/// Whether rows show how often signals were skipped: all reasons in rank order, up to
/// the number that is shown.
pub open spec fn are_skip_rows(
    rows: Seq<SkipRow>,
    totals: Seq<(Seq<char>, usize)>,
    hour: Seq<(Seq<char>, usize)>,
    day: Seq<(Seq<char>, usize)>,
) -> bool {
    exists|all: Seq<SkipRow>|
        #[trigger] show_reasons(all, all_reasons(totals, hour, day), totals, hour, day) && rows
            == at_most_first(ranking(all), MAX_SKIP_ROWS as int)
}

/// How often signals were skipped, by reason: in rank order, and no more rows
/// than are shown.
pub fn skip_rows(totals: &Table<usize>, hour: &Table<usize>, day: &Table<usize>) -> (r: Vec<SkipRow>)
    ensures
        are_skip_rows(r@, totals@, hour@, day@),
{
    let mut reasons = KeySet::new();
    add_keys(&mut reasons, totals);
    add_keys(&mut reasons, hour);
    add_keys(&mut reasons, day);
    let mut rows: Vec<SkipRow> = Vec::new();
    let mut i: usize = 0;
    while i < reasons.len()
        invariant
            i <= reasons@.len(),
            reasons@ == all_reasons(totals@, hour@, day@),
            rows@.len() == i,
            forall|k: int|
                0 <= k < i ==> shows_reason(#[trigger] rows@[k], reasons@[k], totals@, hour@, day@),
        decreases reasons@.len() - i,
    {
        let reason = reasons.at(i);
        rows.push(
            SkipRow {
                reason: reason.clone(),
                total: count_in(totals, reason.as_str()),
                count_24h: count_in(day, reason.as_str()),
                count_1h: count_in(hour, reason.as_str()),
            },
        );
        i = i + 1;
    }
    let ghost all = rows@;
    rank(&mut rows);
    let ghost ranked = rows@;
    rows.truncate(MAX_SKIP_ROWS);
    proof {
        assert(rows@ =~= at_most_first(ranked, MAX_SKIP_ROWS as int));
        assert(show_reasons(all, all_reasons(totals@, hour@, day@), totals@, hour@, day@));
    }
    rows
}

/// The ranking of counts is a weak order.
proof fn lemma_skip_rows_weakly_ordered()
    ensures
        is_weak_order::<SkipRow>(),
{
    assert forall|a: SkipRow| !#[trigger] a.ranks_before(a) by {
        precedes_is_irreflexive(a.reason@);
    }
    assert forall|a: SkipRow, b: SkipRow, c: SkipRow|
        #![trigger a.ranks_before(b), b.ranks_before(c)]
        a.ranks_before(b) && b.ranks_before(c) implies a.ranks_before(c) by {
        if precedes(a.reason@, b.reason@) && precedes(b.reason@, c.reason@) {
            precedes_is_transitive(a.reason@, b.reason@, c.reason@);
        }
    }
    assert forall|a: SkipRow, b: SkipRow, c: SkipRow|
        #![trigger a.ranks_before(b), c.ranks_before(b)]
        #![trigger a.ranks_before(b), a.ranks_before(c)]
        a.ranks_before(b) implies a.ranks_before(c) || c.ranks_before(b) by {
        if a.reason@ != c.reason@ {
            precedes_is_total(a.reason@, c.reason@);
            if precedes(c.reason@, a.reason@) && precedes(a.reason@, b.reason@) {
                precedes_is_transitive(c.reason@, a.reason@, b.reason@);
            }
        }
    }
}

/// In the rows that are shown no reason stands behind one that it ranks before.
pub proof fn skip_rows_are_ranked(rows: Seq<SkipRow>, all: Seq<SkipRow>, i: int, j: int)
    requires
        rows == at_most_first(ranking(all), MAX_SKIP_ROWS as int),
        0 <= i < j < rows.len(),
    ensures
        !skip_row_before(rows[j], rows[i]),
        rows.len() <= MAX_SKIP_ROWS,
{
    lemma_skip_rows_weakly_ordered();
    ranking_is_ordered(all);
    assert(rows[i] == ranking(all)[i] && rows[j] == ranking(all)[j]);
    assert(!rows[j].ranks_before(rows[i]));
}

/// An open position, as it is shown.
#[derive(Debug)]
pub struct PositionRow {
    pub market: String,
    pub short_market: String,
    pub market_url: String,
    pub position: MarketPosition,
    pub yes_price: Double,
    pub unrealized_pnl: Double,
    /// Whether there is no loss.
    pub gaining: bool,
}

impl Ranked for PositionRow {
    /// The greater profit or loss first.
    open spec fn ranks_before(self, other: PositionRow) -> bool {
        other.unrealized_pnl.unsigned().below(self.unrealized_pnl.unsigned())
    }

    fn outranks(&self, other: &PositionRow) -> (r: bool) {
        other.unrealized_pnl.abs().lt(self.unrealized_pnl.abs())
    }
}

/// Whether shares are held on either side.
pub open spec fn is_open(pos: MarketPosition) -> bool {
    fraction(0, 1).below(pos.yes_shares) || fraction(0, 1).below(pos.no_shares)
}

/// The price at which a position is shown: the last one seen in its market, or a
/// half.
pub open spec fn shown_price(seen: Option<Double>) -> Double {
    quotable(
        match seen {
            Some(p) => p,
            None => fraction(1, 2),
        },
    )
}

/// The profit of a position at a price.
pub open spec fn profit_at(pos: MarketPosition, yes_price: Double) -> Double {
    pos.yes_shares.times(yes_price).plus(pos.no_shares.times(fraction(1, 1).minus(yes_price))).minus(
        notional(pos),
    )
}

/// Whether a row shows a position.
pub open spec fn shows_position(
    row: PositionRow,
    entry: (Seq<char>, MarketPosition),
    yes_prices: Seq<(Seq<char>, Double)>,
) -> bool {
    let price = shown_price(lookup(yes_prices, entry.0));
    &&& row.market@ == entry.0
    &&& row.short_market@ == shortened(entry.0, 6, 4)
    &&& row.market_url@ == "https://polymarket.com/event/"@ + entry.0
    &&& row.position == entry.1
    &&& row.yes_price == price
    &&& row.unrealized_pnl == profit_at(entry.1, price)
    &&& row.gaining == fraction(0, 1).at_most(row.unrealized_pnl)
}

/// The positions with shares on either side.
pub open spec fn open_positions(positions: Seq<(Seq<char>, MarketPosition)>) -> Seq<(Seq<char>, MarketPosition)> {
    positions.filter(|e: (Seq<char>, MarketPosition)| is_open(e.1))
}

/// Whether rows show the given positions one by one.
pub open spec fn show_positions(
    rows: Seq<PositionRow>,
    entries: Seq<(Seq<char>, MarketPosition)>,
    yes_prices: Seq<(Seq<char>, Double)>,
) -> bool {
    rows.len() == entries.len() && forall|i: int|
        0 <= i < rows.len() ==> shows_position(#[trigger] rows[i], entries[i], yes_prices)
}

/// Whether rows show the open positions, in the order of the size of their profits.
pub open spec fn are_position_rows(
    rows: Seq<PositionRow>,
    positions: Seq<(Seq<char>, MarketPosition)>,
    yes_prices: Seq<(Seq<char>, Double)>,
) -> bool {
    exists|all: Seq<PositionRow>|
        #[trigger] show_positions(all, open_positions(positions), yes_prices) && rows == ranking(all)
}

/// The open positions, the greatest profit or loss first.
pub fn position_rows(state: &BotState) -> (r: Vec<PositionRow>)
    ensures
        are_position_rows(r@, state@.positions, state@.yes_prices),
{
    let zero = Double::whole(0);
    let one = Double::whole(1);
    let mut rows: Vec<PositionRow> = Vec::new();
    let mut i: usize = 0;
    let ghost opened = |e: (Seq<char>, MarketPosition)| is_open(e.1);
    let ghost positions = state@.positions;
    proof {
        reveal(Seq::filter);
        assert(positions.take(0).filter(opened) =~= Seq::empty());
    }
    while i < state.market_positions.len()
        invariant
            i <= state.market_positions@.len(),
            positions == state@.positions,
            zero == fraction(0, 1),
            one == fraction(1, 1),
            opened == (|e: (Seq<char>, MarketPosition)| is_open(e.1)),
            show_positions(rows@, positions.take(i as int).filter(opened), state@.yes_prices),
        decreases state.market_positions@.len() - i,
    {
        proof {
            reveal(Seq::filter);
            let next = positions.take(i + 1);
            assert(next.drop_last() =~= positions.take(i as int));
            assert(next.last() == positions[i as int]);
        }
        let market = state.market_positions.key_at(i);
        let position = *state.market_positions.value_at(i);
        if zero.lt(position.yes_shares) || zero.lt(position.no_shares) {
            let seen = match state.last_yes_prices.get(market.as_str()) {
                Some(p) => *p,
                None => Double::ratio(1, 2),
            };
            let yes_price = clamp_price(seen);
            let no_price = one.sub(yes_price);
            let value = position.yes_shares.mul(yes_price).add(position.no_shares.mul(no_price));
            let unrealized_pnl = value.sub(position.notional());
            rows.push(
                PositionRow {
                    market: market.clone(),
                    short_market: truncate_middle(market.as_str(), 6, 4),
                    market_url: event_url(market.as_str()),
                    position,
                    yes_price,
                    unrealized_pnl,
                    gaining: zero.le(unrealized_pnl),
                },
            );
        }
        i = i + 1;
    }
    proof {
        assert(positions.take(i as int) =~= positions);
    }
    let ghost all = rows@;
    rank(&mut rows);
    proof {
        assert(show_positions(all, open_positions(state@.positions), state@.yes_prices));
    }
    rows
}

/// Open positions whose profits are numbers are shown in the order of their size:
/// none stands behind one with a smaller profit or loss.
pub proof fn positions_are_ranked(all: Seq<PositionRow>, i: int, j: int)
    requires
        forall|k: int| 0 <= k < all.len() ==> !(#[trigger] all[k]).unrealized_pnl.not_a_number(),
        0 <= i < j < ranking(all).len(),
    ensures
        ranking(all)[j].unrealized_pnl.unsigned().at_most(ranking(all)[i].unrealized_pnl.unsigned()),
        ranking(all).to_multiset() == all.to_multiset(),
{
    let is_number = |row: PositionRow| !row.unrealized_pnl.not_a_number();
    assert forall|row: PositionRow| is_number(row) implies !(
    #[trigger] row.unrealized_pnl.unsigned()).not_a_number() by {
        lemma_packed(row.unrealized_pnl.magnitude());
    }
    ranking_is_ordered_among(all, is_number);
    ranking_rearranges(all);
    let (x, y) = (ranking(all)[i], ranking(all)[j]);
    assert(is_number(x) && is_number(y));
    assert(!y.ranks_before(x));
}

/// When the page was made.
pub fn page_time(at: Timestamp) -> (r: String)
    ensures
        r@ == moment_text(at@ / NANOS_PER_SEC as int),
{
    formatted(&at, "%Y-%m-%d %H:%M:%S UTC")
}

} // verus!
