//! What the dashboard shows, in exact numbers.

use crate::dashboard::{
    all_reasons, are_position_rows, are_skip_rows, are_trade_rows, is_open, open_positions,
    positions_are_ranked, show_positions, show_reasons, shows_position, shows_trade, shows_whale,
    skip_rows_are_ranked, PositionRow, SkipRow, TradeRow, WhaleRow,
};
use crate::double::accuracy::{
    distance, lemma_difference_error, lemma_positive_difference, lemma_price, lemma_rounding_error,
    lemma_sum_error,
};
use crate::double::laws::{
    is_amount, lemma_number, lemma_one, lemma_order, lemma_packed, lemma_sum_sign, lemma_zero,
};
use crate::double::rounding::{
    lemma_increasing, lemma_rounded_monotone, rounded, steps, BINADE, UNIT_SHIFT,
};
use crate::double::{fraction, lemma_steps_zero, Double};
use crate::investigation::scoring::TraderProfile;
use crate::order::{lemma_ranking_len, ranking, ranking_rearranges};
use crate::state::entries::lemma_half_is_quoted;
use crate::state::model::{at_most_first, count_of};
use crate::state::sums::{exact_worth, is_proper, lemma_one_worth, lemma_priced, unit};
use crate::state::valuation::lemma_quotes;
use crate::state::{MarketPosition, TradeRecord};
use crate::table::{added_keys_are_present, keys, lookup, with_keys};
use vstd::arithmetic::power2::{lemma_pow2_pos, pow2};
use vstd::prelude::*;

verus! {

/// A hundred times a number.
proof fn lemma_percent(x: Double)
    requires
        is_amount(x),
        x.times(fraction(100, 1)).finite(),
    ensures
        2 * BINADE * distance(x.times(fraction(100, 1)).value(), 100 * x.value()) <= 100 * x.value() + BINADE,
{
    let u = pow2(UNIT_SHIFT as nat);
    let c = fraction(100, 1);
    let r = x.times(c);
    lemma_pow2_pos(UNIT_SHIFT as nat);
    lemma_number(100);
    let n = steps(x.magnitude()) * steps(c.magnitude());
    lemma_rounded_monotone(n, u, n, u);
    lemma_packed(rounded(n, u));
    lemma_rounding_error(n, u);
    let e = distance((steps(r.magnitude()) * u) as int, n as int);
    let f = distance(r.value(), 100 * x.value());
    assert(e == u * f) by (nonlinear_arith)
        requires
            n == x.value() * (100 * u),
            u > 0,
            e == (if r.value() * u >= n {
                r.value() * u - n
            } else {
                n - r.value() * u
            }),
            f == (if r.value() >= 100 * x.value() {
                r.value() - 100 * x.value()
            } else {
                100 * x.value() - r.value()
            }),
    {
        assert(x.value() * (100 * u) == u * (100 * x.value()));
        assert(u * r.value() - u * (100 * x.value()) == u * (r.value() - 100 * x.value()));
        assert(u * (100 * x.value()) - u * r.value() == u * (100 * x.value() - r.value()));
    }
    assert(2 * BINADE * f <= 100 * x.value() + BINADE) by (nonlinear_arith)
        requires
            2 * BINADE * e <= n + BINADE * u,
            e == u * f,
            n == x.value() * (100 * u),
            u > 0,
    {
        assert(2 * BINADE * (u * f) == u * (2 * BINADE * f));
        assert(x.value() * (100 * u) + BINADE * u == u * (100 * x.value() + BINADE));
    }
}

/// Wallets are shown in their order, counted from one, with their rates in percent, up
/// to rounding, and with the number of tokens that they hold.
pub proof fn wallet_is_shown(row: WhaleRow, whales: Seq<TraderProfile>, i: int)
    requires
        shows_whale(row, whales, i),
        is_amount(whales[i].win_rate),
        is_amount(whales[i].conservative_win_rate),
        row.win_percent.finite(),
        row.conservative_percent.finite(),
    ensures
        row.rank == i + 1,
        row.active_markets == whales[i].active_asset_ids@.len(),
        2 * BINADE * distance(row.win_percent.value(), 100 * whales[i].win_rate.value()) <= 100
            * whales[i].win_rate.value() + BINADE,
        2 * BINADE * distance(row.conservative_percent.value(), 100 * whales[i].conservative_win_rate.value())
            <= 100 * whales[i].conservative_win_rate.value() + BINADE,
        whales[i].address@.len() <= 11 ==> row.short_address@ == whales[i].address@,
        whales[i].address@.len() > 11 ==> {
            let n = whales[i].address@.len() as int;
            &&& row.short_address@.len() == 11
            &&& row.short_address@.take(6) == whales[i].address@.take(6)
            &&& row.short_address@.skip(7) == whales[i].address@.skip(n - 4)
        },
{
    lemma_percent(whales[i].win_rate);
    lemma_percent(whales[i].conservative_win_rate);
    let text = whales[i].address@;
    if text.len() > 11 {
        assert(row.short_address@.take(6) =~= text.take(6));
        assert(row.short_address@.skip(7) =~= text.skip(text.len() - 4));
    }
}

/// A trade is shown as bought or sold, on YES or NO, and with its fraction in percent,
/// up to rounding.
pub proof fn trade_is_shown(row: TradeRow, t: TradeRecord)
    requires
        shows_trade(row, t),
        is_amount(t.kelly_fraction),
        row.kelly_percent.finite(),
    ensures
        t.side@ == "Buy"@ ==> row.bought,
        t.side@ == "Sell"@ ==> !row.bought,
        t.outcome@ == "YES"@ ==> row.on_yes,
        t.outcome@ == "NO"@ ==> !row.on_yes,
        2 * BINADE * distance(row.kelly_percent.value(), 100 * t.kelly_fraction.value()) <= 100
            * t.kelly_fraction.value() + BINADE,
{
    lemma_percent(t.kelly_fraction);
    reveal_strlit("Buy");
    reveal_strlit("Sell");
    reveal_strlit("YES");
    reveal_strlit("NO");
    assert("Buy"@.len() != "Sell"@.len());
    assert("YES"@.len() != "NO"@.len());
}

/// What the errors of a profit come to: `h` is the number of shares, `x` what they are
/// worth exactly, times one, and `w` rounded, `c` their cost exactly and `d` rounded,
/// and `p` the profit.
proof fn lemma_profit(u: int, b: int, h: int, x: int, w: int, c: int, d: int, p: int)
    requires
        8 <= b,
        u > 0,
        0 <= h,
        0 <= c,
        0 <= w <= 2 * h,
        2 * b * distance(w * u, x) <= 5 * (h * u) + 2 * (b * u),
        2 * b * distance(d, c) <= c,
        2 * b * distance(p, w - d) <= distance(w - d, 0),
    ensures
        2 * b * distance(p * u, x - c * u) <= 7 * (h * u) + 3 * (c * u) + 2 * (b * u),
{
    let e1 = distance(w * u, x);
    let e2 = distance(d, c);
    let e3 = distance(p, w - d);
    assert(e2 <= c) by (nonlinear_arith)
        requires
            2 * b * e2 <= c,
            b >= 8,
            e2 >= 0,
            c >= 0,
    ;
    assert(distance(w - d, 0) <= 2 * h + 2 * c);
    let a = distance(p * u, x - c * u);
    assert(p * u - (w - d) * u <= u * e3 && (w - d) * u - p * u <= u * e3 && d * u - c * u <= u * e2 && c * u - d
        * u <= u * e2 && (w - d) * u == w * u - d * u) by (nonlinear_arith)
        requires
            p - (w - d) <= e3,
            (w - d) - p <= e3,
            d - c <= e2,
            c - d <= e2,
            u > 0,
    ;
    assert(a <= e1 + u * e2 + u * e3);
    assert(2 * b * a <= 2 * b * e1 + u * (2 * b * e2) + u * (2 * b * e3)) by (nonlinear_arith)
        requires
            a <= e1 + u * e2 + u * e3,
            b > 0,
    ;
    assert(u * (2 * b * e2) <= c * u && u * (2 * b * e3) <= 2 * (h * u) + 2 * (c * u)) by (nonlinear_arith)
        requires
            2 * b * e2 <= c,
            2 * b * e3 <= 2 * h + 2 * c,
            u > 0,
    ;
}

/// A position is shown at the last price seen in its market, or at a half where none
/// was; its profit is what its shares are worth there less what was paid for them, up
/// to rounding; and it counts as gaining exactly where that is not negative.
pub proof fn profit_is_shown(
    row: PositionRow,
    entry: (Seq<char>, MarketPosition),
    yes_prices: Seq<(Seq<char>, Double)>,
)
    requires
        shows_position(row, entry, yes_prices),
        is_proper(entry.1),
        row.unrealized_pnl.finite(),
        lookup(yes_prices, entry.0) matches Some(p) ==> fraction(1, 10_000).at_most(p) && p.at_most(
            fraction(9999, 10_000),
        ),
    ensures
        lookup(yes_prices, entry.0) matches Some(p) ==> row.yes_price == p,
        lookup(yes_prices, entry.0) is None ==> row.yes_price == fraction(1, 2),
        row.position == entry.1,
        row.gaining <==> row.unrealized_pnl.value() >= 0,
        ({
            let pos = entry.1;
            let shares = pos.yes_shares.value() + pos.no_shares.value();
            let cost = pos.yes_cost_usdc.value() + pos.no_cost_usdc.value();
            2 * BINADE * distance(
                row.unrealized_pnl.value() * unit(),
                exact_worth(pos, row.yes_price) - cost * unit(),
            ) <= 7 * (shares * unit()) + 3 * (cost * unit()) + 2 * (BINADE * unit())
        }),
{
    let pos = entry.1;
    let y = row.yes_price;
    let one = fraction(1, 1);
    lemma_zero();
    lemma_one();
    lemma_quotes();
    lemma_steps_zero();
    lemma_price(1, 10_000);
    lemma_price(9999, 10_000);
    lemma_price(1, 2);
    lemma_price(1, 1);
    lemma_half_is_quoted();
    let low = fraction(1, 10_000);
    let high = fraction(9999, 10_000);
    assert(low.at_most(y) && y.at_most(high));
    lemma_order(low, one);
    lemma_order(high, one);
    assert(y.value() > 0 && !y.negative()) by {
        if low.magnitude() > 0 {
            lemma_increasing(0, low.magnitude());
        }
    }
    lemma_order(y, high);
    lemma_order(y, one);
    let z = one.minus(y);
    assert(y.value() < unit());
    lemma_positive_difference(one, y);
    lemma_difference_error(one, y);
    lemma_order(z, one);
    lemma_priced(pos.yes_shares, y);
    lemma_priced(pos.no_shares, z);
    let (p, q) = (pos.yes_shares.times(y), pos.no_shares.times(z));
    let w = p.plus(q);
    let c = pos.yes_cost_usdc.plus(pos.no_cost_usdc);
    assert(row.unrealized_pnl == w.minus(c));
    assert(w.finite() && c.finite()) by {
        lemma_sum_sign(p, q);
        lemma_sum_sign(pos.yes_cost_usdc, pos.no_cost_usdc);
        lemma_packed(c.magnitude());
    }
    lemma_sum_error(p, q);
    lemma_sum_error(pos.yes_cost_usdc, pos.no_cost_usdc);
    lemma_difference_error(w, c);
    lemma_one_worth(
        unit(),
        BINADE as int,
        pos.yes_shares.value(),
        pos.no_shares.value(),
        y.value(),
        z.value(),
        p.value(),
        q.value(),
        w.value(),
    );
    lemma_profit(
        unit(),
        BINADE as int,
        pos.yes_shares.value() + pos.no_shares.value(),
        exact_worth(pos, y),
        w.value(),
        pos.yes_cost_usdc.value() + pos.no_cost_usdc.value(),
        c.value(),
        row.unrealized_pnl.value(),
    );
}

/// Exactly the positions with shares on either side are shown.
pub proof fn held_positions_are_shown(
    positions: Seq<(Seq<char>, MarketPosition)>,
    entry: (Seq<char>, MarketPosition),
)
    ensures
        open_positions(positions).contains(entry) <==> positions.contains(entry) && (fraction(0, 1).below(
            entry.1.yes_shares,
        ) || fraction(0, 1).below(entry.1.no_shares)),
    decreases positions.len(),
{
    reveal(Seq::filter);
    let opened = |e: (Seq<char>, MarketPosition)| is_open(e.1);
    if positions.len() > 0 {
        let rest = positions.drop_last();
        let kept = rest.filter(opened);
        held_positions_are_shown(rest, entry);
        assert(positions[positions.len() - 1] == positions.last());
        if positions.contains(entry) {
            let i = positions.index_of(entry);
            if i < rest.len() {
                assert(rest[i] == entry);
            }
        }
        if rest.contains(entry) {
            let i = rest.index_of(entry);
            assert(positions[i] == entry);
        }
        if opened(positions.last()) {
            let more = kept.push(positions.last());
            assert(open_positions(positions) == more);
            assert(more[kept.len() as int] == positions.last());
            if kept.contains(entry) {
                let i = kept.index_of(entry);
                assert(more[i] == entry);
            }
            if more.contains(entry) && entry != positions.last() {
                let i = more.index_of(entry);
                assert(kept[i] == entry);
            }
        }
    }
}

/// Reasons are shown with how often they were counted in all, in a day and in an hour,
/// the most frequent first, and at most twenty of them. One that was counted is left
/// out only where there are twenty.
pub proof fn reasons_are_shown(
    rows: Seq<SkipRow>,
    totals: Seq<(Seq<char>, usize)>,
    hour: Seq<(Seq<char>, usize)>,
    day: Seq<(Seq<char>, usize)>,
    i: int,
    j: int,
    reason: Seq<char>,
)
    requires
        are_skip_rows(rows, totals, hour, day),
        keys(totals).contains(reason) || keys(hour).contains(reason) || keys(day).contains(reason),
    ensures
        0 < rows.len() <= 20,
        0 <= i < rows.len() ==> {
            &&& rows[i].total == count_of(totals, rows[i].reason@)
            &&& rows[i].count_24h == count_of(day, rows[i].reason@)
            &&& rows[i].count_1h == count_of(hour, rows[i].reason@)
        },
        0 <= i < j < rows.len() ==> rows[i].total >= rows[j].total,
        rows.len() < 20 ==> exists|k: int| 0 <= k < rows.len() && (#[trigger] rows[k]).reason@ == reason,
{
    let reasons = all_reasons(totals, hour, day);
    let all = choose|all: Seq<SkipRow>|
        #[trigger] show_reasons(all, reasons, totals, hour, day) && rows == at_most_first(ranking(all), 20);
    lemma_ranking_len(all);
    ranking_rearranges(all);
    let first = with_keys(Seq::empty(), keys(totals));
    let second = with_keys(first, keys(hour));
    added_keys_are_present(Seq::empty(), keys(totals), reason);
    added_keys_are_present(first, keys(hour), reason);
    added_keys_are_present(second, keys(day), reason);
    assert(reasons.contains(reason));
    let m = reasons.index_of(reason);
    assert(all[m].reason@ == reason);
    if 0 <= i < rows.len() {
        assert(rows[i] == ranking(all)[i]);
        lemma_same_rows(ranking(all), all, rows[i]);
        let n = all.index_of(rows[i]);
        assert(all[n] == rows[i]);
        if i < j < rows.len() {
            skip_rows_are_ranked(rows, all, i, j);
        }
    }
    if rows.len() < 20 {
        lemma_same_rows(ranking(all), all, all[m]);
        let k = ranking(all).index_of(all[m]);
        assert(rows == ranking(all));
        assert(rows[k].reason@ == reason);
    }
}

/// The latest 200 trades are shown, or all where there are fewer, in their order.
pub proof fn latest_trades_are_shown(rows: Seq<TradeRow>, trades: Seq<TradeRecord>, i: int)
    requires
        are_trade_rows(rows, trades),
    ensures
        rows.len() == if trades.len() > 200 {
            200
        } else {
            trades.len()
        },
        0 <= i < rows.len() ==> shows_trade(rows[i], trades[i]),
{
}

/// Every open position has a row, and every row shows one; where all profits are
/// numbers, the greater ones, in either direction, come first.
pub proof fn open_positions_have_rows(
    rows: Seq<PositionRow>,
    positions: Seq<(Seq<char>, MarketPosition)>,
    yes_prices: Seq<(Seq<char>, Double)>,
    i: int,
    j: int,
)
    requires
        are_position_rows(rows, positions, yes_prices),
    ensures
        rows.len() == open_positions(positions).len(),
        0 <= i < rows.len() ==> exists|k: int|
            0 <= k < open_positions(positions).len() && shows_position(
                rows[i],
                #[trigger] open_positions(positions)[k],
                yes_prices,
            ),
        0 <= i < j < rows.len() && (forall|k: int|
            0 <= k < rows.len() ==> !(#[trigger] rows[k]).unrealized_pnl.not_a_number())
            ==> rows[j].unrealized_pnl.unsigned().at_most(rows[i].unrealized_pnl.unsigned()),
{
    let entries = open_positions(positions);
    let all = choose|all: Seq<PositionRow>|
        #[trigger] show_positions(all, entries, yes_prices) && rows == ranking(all);
    lemma_ranking_len(all);
    ranking_rearranges(all);
    if 0 <= i < rows.len() {
        lemma_same_positions(rows, all, rows[i]);
        let k = all.index_of(rows[i]);
        assert(shows_position(all[k], entries[k], yes_prices));
        if i < j < rows.len() && (forall|k: int|
            0 <= k < rows.len() ==> !(#[trigger] rows[k]).unrealized_pnl.not_a_number()) {
            assert forall|k: int| 0 <= k < all.len() implies !(
            #[trigger] all[k]).unrealized_pnl.not_a_number() by {
                assert(all.contains(all[k]));
                lemma_same_positions(rows, all, all[k]);
                let n = rows.index_of(all[k]);
                assert(!rows[n].unrealized_pnl.not_a_number());
            }
            positions_are_ranked(all, i, j);
        }
    }
}

/// Lists with the same rows hold the same.
proof fn lemma_same_positions(a: Seq<PositionRow>, b: Seq<PositionRow>, row: PositionRow)
    requires
        a.to_multiset() == b.to_multiset(),
        a.contains(row) || b.contains(row),
    ensures
        a.contains(row),
        b.contains(row),
{
    broadcast use vstd::seq_lib::group_to_multiset_ensures;

    assert(a.contains(row) <==> a.to_multiset().count(row) > 0);
    assert(b.contains(row) <==> b.to_multiset().count(row) > 0);
}

/// Lists with the same rows hold the same.
proof fn lemma_same_rows(a: Seq<SkipRow>, b: Seq<SkipRow>, row: SkipRow)
    requires
        a.to_multiset() == b.to_multiset(),
        a.contains(row) || b.contains(row),
    ensures
        a.contains(row),
        b.contains(row),
{
    broadcast use vstd::seq_lib::group_to_multiset_ensures;

    assert(a.contains(row) <==> a.to_multiset().count(row) > 0);
    assert(b.contains(row) <==> b.to_multiset().count(row) > 0);
}

} // verus!
