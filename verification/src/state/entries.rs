//! What every entry changes in the books, in exact numbers.

use super::model::{
    after_alert, after_skip, after_sync, after_trade, count_of, counts_within, drawdown,
    duration_text, entered, fresh, grown, held, invested, lemma_front_occurrence, mark_value,
    notional, running_time, tally_counts_occurrences, valuation_price, AccountReport, Books, Trade,
};
use super::sums::{all_shares, are_proper, books_are_valued_exactly, exact_cost, exact_value, unit};
use super::MarketPosition;
use crate::clock::Timestamp;
use crate::double::accuracy::{
    distance, lemma_difference, lemma_difference_error, lemma_price, lemma_sum_error,
};
use crate::double::laws::{
    difference_sign, is_amount, lemma_fraction, lemma_order, lemma_packed, lemma_positive,
    lemma_zero,
};
use crate::double::rounding::{
    lemma_increasing, lemma_rounded_exact, lemma_rounded_monotone, rounded, steps, BINADE,
    UNIT_SHIFT,
};
use crate::double::{fraction, lemma_steps_zero, Double};
use crate::table::{lookup, put_then_lookup};
use crate::text::decimal;
use vstd::arithmetic::power2::pow2;
use vstd::prelude::*;

verus! {

/// A difference that is not negative is its own greater with zero, in value.
proof fn lemma_not_below_zero(a: Double, b: Double)
    requires
        a.finite(),
        b.finite(),
    ensures
        b.value() <= a.value() ==> a.minus(b).greater_of(fraction(0, 1)).value() == a.minus(b).value(),
        a.value() <= b.value() ==> a.minus(b).greater_of(fraction(0, 1)).value() == 0,
{
    lemma_zero();
    lemma_steps_zero();
    lemma_difference(a, b);
    difference_sign(a, b);
    lemma_positive(a.minus(b));
}

/// A trade takes its size from the cash, up to rounding, and leaves none where it costs
/// more than there is. Shares and cost go to the side of its outcome, and the other
/// side, the start, the realized profit and the counts of skips and alerts stay.
pub proof fn trade_is_entered(books: Books, trade: Trade, today: Seq<char>)
    requires
        books.balance.finite(),
        trade.size_usdc.finite(),
        trade.outcome == "YES"@ || trade.outcome == "NO"@,
    ensures
        ({
            let after = after_trade(books, trade, today);
            let left = books.balance.value() - trade.size_usdc.value();
            let old_pos = held(books.positions, trade.market);
            let new_pos = held(after.positions, trade.market);
            &&& left >= 0 && after.balance.finite() ==> 2 * BINADE * distance(after.balance.value(), left)
                <= left
            &&& left <= 0 ==> after.balance.value() == 0
            &&& trade.outcome == "YES"@ ==> {
                &&& new_pos.yes_shares == old_pos.yes_shares.plus(trade.shares)
                &&& new_pos.yes_cost_usdc == old_pos.yes_cost_usdc.plus(trade.size_usdc)
                &&& new_pos.no_shares == old_pos.no_shares
                &&& new_pos.no_cost_usdc == old_pos.no_cost_usdc
            }
            &&& trade.outcome == "NO"@ ==> {
                &&& new_pos.no_shares == old_pos.no_shares.plus(trade.shares)
                &&& new_pos.no_cost_usdc == old_pos.no_cost_usdc.plus(trade.size_usdc)
                &&& new_pos.yes_shares == old_pos.yes_shares
                &&& new_pos.yes_cost_usdc == old_pos.yes_cost_usdc
            }
            &&& fraction(0, 1).at_most(trade.price) && trade.price.below(fraction(1, 1)) ==> lookup(
                after.yes_prices,
                trade.market,
            ) == Some(trade.price)
            &&& !(fraction(0, 1).at_most(trade.price) && trade.price.below(fraction(1, 1)))
                ==> after.yes_prices == books.yes_prices
            &&& after.dry_run == books.dry_run
            &&& after.initial_balance == books.initial_balance
            &&& after.started_at == books.started_at
            &&& after.whale_count == books.whale_count
            &&& after.realized_pnl == books.realized_pnl
            &&& after.realized_baseline == books.realized_baseline
            &&& after.skip_reasons == books.skip_reasons
            &&& after.recent_skips == books.recent_skips
            &&& after.alert_successes == books.alert_successes
            &&& after.alert_failures == books.alert_failures
            &&& after.last_alert_at == books.last_alert_at
            &&& after.last_alert_error == books.last_alert_error
        }),
{
    let market = trade.market;
    let pos = grown(held(books.positions, market), trade.outcome, trade.shares, trade.size_usdc);
    reveal_strlit("YES");
    reveal_strlit("NO");
    assert("YES"@.len() != "NO"@.len());
    put_then_lookup(books.positions, market, pos, market);
    put_then_lookup(books.yes_prices, market, trade.price, market);
    lemma_not_below_zero(books.balance, trade.size_usdc);
    let rest = books.balance.minus(trade.size_usdc);
    lemma_zero();
    lemma_positive(rest);
    if books.balance.value() >= trade.size_usdc.value() && after_trade(books, trade, today).balance.finite() {
        if rest.finite() {
            lemma_difference_error(books.balance, trade.size_usdc);
        } else {
            lemma_difference(books.balance, trade.size_usdc);
            difference_sign(books.balance, trade.size_usdc);
        }
    }
}

/// After a trade the equity is the cash and what all positions are worth, and the
/// unrealized profit is that worth less what was paid, up to rounding.
pub proof fn equity_is_cash_and_positions(books: Books, trade: Trade, today: Seq<char>)
    requires
        ({
            let after = after_trade(books, trade, today);
            &&& are_proper(after.positions, after.yes_prices)
            &&& after.balance.finite()
            &&& after.equity.finite()
            &&& after.unrealized_pnl.finite()
            &&& 7 * after.positions.len() <= 2 * BINADE
        }),
    ensures
        ({
            let after = after_trade(books, trade, today);
            let value = mark_value(after.positions, after.yes_prices).value();
            let cost = invested(after.positions).value();
            let n = after.positions.len();
            &&& 2 * BINADE * distance(value * unit(), exact_value(after.positions, after.yes_prices)) <= n * (7
                * (all_shares(after.positions) * unit()) + 4 * (BINADE * unit()))
            &&& 2 * BINADE * distance(cost, exact_cost(after.positions)) <= n * (3 * exact_cost(
                after.positions,
            ))
            &&& 2 * BINADE * distance(after.equity.value(), after.balance.value() + value) <= distance(
                after.balance.value() + value,
                0,
            )
            &&& 2 * BINADE * distance(after.unrealized_pnl.value(), value - cost) <= distance(value - cost, 0)
        }),
{
    books_are_valued_exactly(entered(books, trade));
}

/// A synchronised account's cash is its equity less what is marked in open positions,
/// and none where that is more.
pub proof fn synchronised_cash_is_not_invested(books: Books, report: AccountReport, today: Seq<char>)
    requires
        after_sync(books, report, today).equity.finite(),
        report.mark_value.finite(),
    ensures
        ({
            let after = after_sync(books, report, today);
            let cash = after.equity.value() - report.mark_value.value();
            &&& cash >= 0 && after.balance.finite() ==> 2 * BINADE * distance(after.balance.value(), cash) <= cash
            &&& cash <= 0 ==> after.balance.value() == 0
        }),
{
    let equity = after_sync(books, report, today).equity;
    let rest = equity.minus(report.mark_value);
    lemma_not_below_zero(equity, report.mark_value);
    lemma_zero();
    lemma_positive(rest);
    if equity.value() >= report.mark_value.value() && after_sync(books, report, today).balance.finite() {
        if rest.finite() {
            lemma_difference_error(equity, report.mark_value);
        } else {
            lemma_difference(equity, report.mark_value);
            difference_sign(equity, report.mark_value);
        }
    }
}

/// The drawdown is how far the equity lies below the start of the day, up to rounding,
/// and nothing where it does not.
pub proof fn drawdown_is_the_fall(books: Books)
    requires
        books.day_start_equity.finite(),
        books.equity.finite(),
    ensures
        ({
            let fall = books.day_start_equity.value() - books.equity.value();
            &&& fall >= 0 && drawdown(books).finite() ==> 2 * BINADE * distance(drawdown(books).value(), fall)
                <= fall
            &&& fall <= 0 ==> drawdown(books).value() == 0
        }),
{
    let fall = books.day_start_equity.minus(books.equity);
    lemma_not_below_zero(books.day_start_equity, books.equity);
    lemma_zero();
    lemma_positive(fall);
    if books.day_start_equity.value() >= books.equity.value() && drawdown(books).finite() {
        if fall.finite() {
            lemma_difference_error(books.day_start_equity, books.equity);
        } else {
            lemma_difference(books.day_start_equity, books.equity);
            difference_sign(books.day_start_equity, books.equity);
        }
    }
}

/// A new bot has its balance as cash, as equity and as the equity of the day, and
/// nothing else.
pub proof fn fresh_books_hold_the_balance(dry_run: bool, balance: Double, at: Timestamp, market: Seq<char>)
    ensures
        ({
            let books = fresh(dry_run, balance, at);
            &&& books.dry_run == dry_run
            &&& books.balance == balance
            &&& books.initial_balance == balance
            &&& books.equity == balance
            &&& books.day_start_equity == balance
            &&& books.started_at == at
            &&& books.unrealized_pnl.value() == 0
            &&& books.realized_pnl.value() == 0
            &&& books.realized_baseline is None
            &&& books.loss_streak == 0
            &&& books.trade_count == 0
            &&& books.recent_trades.len() == 0
            &&& books.recent_skips.len() == 0
            &&& books.alert_successes == 0
            &&& books.alert_failures == 0
            &&& lookup(books.positions, market) is None
            &&& lookup(books.yes_prices, market) is None
            &&& lookup(books.skip_reasons, market) is None
        }),
{
    lemma_zero();
    lemma_steps_zero();
}

/// A delivered alert is counted, dated, and clears the last failure; a failed one is
/// counted and noted, and leaves the date of the last delivery. Nothing else changes.
pub proof fn alert_is_noted(books: Books, error: Option<Seq<char>>, at: Timestamp)
    ensures
        after_alert(books, true, error, at) == (Books {
            alert_successes: books.alert_successes + 1,
            last_alert_at: Some(at),
            last_alert_error: None,
            ..books
        }),
        after_alert(books, false, error, at) == (Books {
            alert_failures: books.alert_failures + 1,
            last_alert_error: error,
            ..books
        }),
{
}

/// A skipped signal moves no money and no position, and counts for no trade.
pub proof fn skip_moves_no_money(books: Books, reason: Seq<char>, at: Timestamp)
    ensures
        ({
            let after = after_skip(books, reason, at);
            after == (Books { skip_reasons: after.skip_reasons, recent_skips: after.recent_skips, ..books })
        }),
{
}

/// A running time is told in hours, minutes and seconds; parts that are zero are left
/// out in front, but never the seconds.
pub proof fn duration_names_its_parts(h: nat, m: nat, s: nat)
    requires
        m < 60,
        s < 60,
    ensures
        ({
            let text = duration_text(h * 3600 + m * 60 + s);
            &&& h > 0 ==> text == decimal(h) + "h "@ + decimal(m) + "m "@ + decimal(s) + "s"@
            &&& h == 0 && m > 0 ==> text == decimal(m) + "m "@ + decimal(s) + "s"@
            &&& h == 0 && m == 0 ==> text == decimal(s) + "s"@
        }),
{
    let t = h * 3600 + m * 60 + s;
    assert(t / 3600 == h && t % 3600 == m * 60 + s) by (nonlinear_arith)
        requires
            t == h * 3600 + (m * 60 + s),
            m * 60 + s < 3600,
    ;
    assert((m * 60 + s) / 60 == m) by (nonlinear_arith)
        requires
            s < 60,
    ;
    assert(t % 60 == s) by (nonlinear_arith)
        requires
            t == (h * 60 + m) * 60 + s,
            s < 60,
    ;
}

/// A further purchase raises what was paid in a market by its cost, on either side.
pub proof fn cost_is_paid_in_the_market(pos: MarketPosition, shares: Double, cost: Double)
    ensures
        notional(grown(pos, "YES"@, shares, cost)) == pos.yes_cost_usdc.plus(cost).plus(pos.no_cost_usdc),
        notional(grown(pos, "NO"@, shares, cost)) == pos.yes_cost_usdc.plus(pos.no_cost_usdc.plus(cost)),
{
    reveal_strlit("YES");
    reveal_strlit("NO");
    assert("YES"@.len() != "NO"@.len());
}

/// The difference to a third number falls no lower than that of a lesser number.
proof fn lemma_difference_monotone(a: Double, b: Double, c: Double)
    requires
        a.finite(),
        b.finite(),
        c.finite(),
        a.value() <= b.value(),
    ensures
        a.minus(c).at_most(b.minus(c)),
{
    let (x, y) = (a.value() - c.value(), b.value() - c.value());
    lemma_steps_zero();
    lemma_packed(c.magnitude());
    lemma_packed(0);
    lemma_difference(a, c);
    lemma_difference(b, c);
    difference_sign(a, c);
    difference_sign(b, c);
    lemma_zero();
    if x > 0 {
        lemma_rounded_monotone(x as nat, 1, y as nat, 1);
        lemma_packed(rounded(x as nat, 1));
        lemma_packed(rounded(y as nat, 1));
        if rounded(x as nat, 1) < rounded(y as nat, 1) {
            lemma_increasing(rounded(x as nat, 1), rounded(y as nat, 1));
        }
    } else if y < 0 {
        lemma_rounded_monotone((-y) as nat, 1, (-x) as nat, 1);
        lemma_packed(rounded((-x) as nat, 1));
        lemma_packed(rounded((-y) as nat, 1));
        if rounded((-y) as nat, 1) < rounded((-x) as nat, 1) {
            lemma_increasing(rounded((-y) as nat, 1), rounded((-x) as nat, 1));
        }
    }
}

/// Adding what is not negative leaves no less.
proof fn lemma_sum_not_less(x: Double, e: Double)
    requires
        x.finite(),
        is_amount(e),
    ensures
        x.at_most(x.plus(e)),
{
    let sum = x.value() + e.value();
    lemma_steps_zero();
    lemma_packed(0);
    lemma_rounded_exact(steps(x.magnitude()), 1, x.magnitude());
    if sum > 0 {
        lemma_rounded_monotone(sum as nat, 1, sum as nat, 1);
        lemma_packed(rounded(sum as nat, 1));
        if !x.negative() {
            lemma_rounded_monotone(steps(x.magnitude()), 1, sum as nat, 1);
            if x.magnitude() < rounded(sum as nat, 1) {
                lemma_increasing(x.magnitude(), rounded(sum as nat, 1));
            }
        }
    } else if sum < 0 {
        lemma_rounded_monotone((-sum) as nat, 1, steps(x.magnitude()), 1);
        lemma_packed(rounded((-sum) as nat, 1));
        if rounded((-sum) as nat, 1) < x.magnitude() {
            lemma_increasing(rounded((-sum) as nat, 1), x.magnitude());
        }
    }
}

/// What is left of a clear fall after the errors: `e` and `f` are the equities, `i` the
/// initial balance, `p` and `q` the profits, and `s` the second with the allowance `t`.
proof fn lemma_clear_fall(b: int, e: int, f: int, i: int, t: int, p: int, q: int, s: int)
    requires
        b >= 8,
        t >= 0,
        2 * b * distance(p, e - i) <= distance(e - i, 0),
        2 * b * distance(q, f - i) <= distance(f - i, 0),
        2 * b * distance(s, q + t) <= distance(q + t, 0),
        b * (e - f - t) > 2 * (distance(e, 0) + distance(f, 0) + distance(i, 0) + t),
    ensures
        s < p,
{
    let m = distance(e, 0) + distance(f, 0) + distance(i, 0) + t;
    let (d1, d2, d3) = (distance(p, e - i), distance(q, f - i), distance(s, q + t));
    assert(d2 <= m) by (nonlinear_arith)
        requires
            2 * b * d2 <= m,
            b >= 8,
            d2 >= 0,
    ;
    assert(distance(q + t, 0) <= 2 * m);
    assert(p - s >= e - f - t - d1 - d2 - d3);
    assert(b * (p - s) >= b * (e - f - t) - b * d1 - b * d2 - b * d3) by (nonlinear_arith)
        requires
            p - s >= e - f - t - d1 - d2 - d3,
            b > 0,
    ;
    assert(2 * b * d1 == 2 * (b * d1) && 2 * b * d2 == 2 * (b * d2) && 2 * b * d3 == 2 * (b * d3))
        by (nonlinear_arith);
    assert(b * (p - s) > 0);
    assert(p > s) by (nonlinear_arith)
        requires
            b * (p - s) > 0,
            b > 0,
    ;
}

/// The losses in a row end with the first entry after which the equity is not lower
/// than before, and grow by one with each after which it is lower by more than a
/// billionth and rounding. On a new day they are counted from nothing.
pub proof fn streak_follows_the_equity(books: Books, after: Books, today: Seq<char>)
    requires
        (exists|trade: Trade| after == #[trigger] after_trade(books, trade, today)) || (exists|
            report: AccountReport,
        | after == #[trigger] after_sync(books, report, today)),
        books.equity.finite(),
        after.equity.finite(),
        books.initial_balance.finite(),
        books.equity.minus(books.initial_balance).finite(),
        after.equity.minus(books.initial_balance).finite(),
        after.equity.minus(books.initial_balance).plus(fraction(1, 1_000_000_000)).finite(),
    ensures
        books.equity.value() <= after.equity.value() ==> after.loss_streak == 0,
        ({
            let (e, f, i) = (books.equity.value(), after.equity.value(), books.initial_balance.value());
            let t = fraction(1, 1_000_000_000).value();
            BINADE * (e - f - t) > 2 * (distance(e, 0) + distance(f, 0) + distance(i, 0) + t)
                ==> after.loss_streak == 1 + if books.day_marker == today {
                books.loss_streak
            } else {
                0
            }
        }),
{
    let t = fraction(1, 1_000_000_000);
    let i = books.initial_balance;
    let (p, q) = (books.equity.minus(i), after.equity.minus(i));
    lemma_fraction(1, 1_000_000_000);
    assert(t.finite()) by {
        if !t.finite() {
            assert(!q.plus(t).finite());
        }
    }
    lemma_difference_error(books.equity, i);
    lemma_difference_error(after.equity, i);
    lemma_sum_error(q, t);
    assert(after.initial_balance == i);
    if books.equity.value() <= after.equity.value() {
        lemma_difference_monotone(books.equity, after.equity, i);
        lemma_sum_not_less(q, t);
    }
    if BINADE * (books.equity.value() - after.equity.value() - t.value()) > 2 * (distance(
        books.equity.value(),
        0,
    ) + distance(after.equity.value(), 0) + distance(i.value(), 0) + t.value()) {
        lemma_clear_fall(
            BINADE as int,
            books.equity.value(),
            after.equity.value(),
            i.value(),
            t.value(),
            p.value(),
            q.value(),
            q.plus(t).value(),
        );
    }
}

/// The latest 200 trades are kept, the newest first: each moves one place back with a
/// further one, and the oldest leaves when there are more.
pub proof fn trades_are_kept_newest_first(books: Books, trade: Trade, today: Seq<char>, i: int)
    requires
        0 <= i < books.recent_trades.len(),
        i < 199,
    ensures
        ({
            let after = after_trade(books, trade, today).recent_trades;
            &&& after.len() == if books.recent_trades.len() < 200 {
                books.recent_trades.len() + 1
            } else {
                200
            }
            &&& after[0] == trade
            &&& after[i + 1] == books.recent_trades[i]
        }),
{
}

/// The latest 5000 skipped signals are kept, the newest first.
pub proof fn skips_are_kept_newest_first(books: Books, reason: Seq<char>, at: Timestamp, i: int)
    requires
        0 <= i < books.recent_skips.len(),
        i < 4999,
    ensures
        ({
            let after = after_skip(books, reason, at).recent_skips;
            &&& after.len() == if books.recent_skips.len() < 5000 {
                books.recent_skips.len() + 1
            } else {
                5000
            }
            &&& after[0] == (at, reason)
            &&& after[i + 1] == books.recent_skips[i]
        }),
{
}

/// A position is valued at the last price seen in its market, moved into the range of
/// quotes. Where none was seen it is valued at what a YES share cost on average, or at
/// one less what a NO share cost where there are only those, or at a half.
pub proof fn price_of_a_position(pos: MarketPosition, seen: Double)
    ensures
        ({
            let (low, high) = (fraction(1, 10_000), fraction(9999, 10_000));
            let zero = fraction(0, 1);
            let yes = pos.yes_cost_usdc.over(pos.yes_shares);
            let no = fraction(1, 1).minus(pos.no_cost_usdc.over(pos.no_shares));
            &&& low.at_most(seen) && seen.at_most(high) ==> valuation_price(pos, Some(seen)) == seen
            &&& seen.below(low) ==> valuation_price(pos, Some(seen)) == low
            &&& high.below(seen) && !seen.below(low) ==> valuation_price(pos, Some(seen)) == high
            &&& zero.below(pos.yes_shares) && low.at_most(yes) && yes.at_most(high) ==> valuation_price(pos, None)
                == yes
            &&& !zero.below(pos.yes_shares) && zero.below(pos.no_shares) && low.at_most(no) && no.at_most(high)
                ==> valuation_price(pos, None) == no
            &&& !zero.below(pos.yes_shares) && !zero.below(pos.no_shares) ==> valuation_price(pos, None)
                == fraction(1, 2)
        }),
{
    lemma_half_is_quoted();
    lemma_price(1, 10_000);
    lemma_price(9999, 10_000);
    lemma_price(1, 2);
    lemma_order(fraction(1, 10_000), fraction(1, 2));
    lemma_order(fraction(1, 2), fraction(9999, 10_000));
}

/// A half lies between the least and the greatest quote.
pub proof fn lemma_half_is_quoted()
    ensures
        fraction(1, 10_000).at_most(fraction(1, 2)),
        fraction(1, 2).at_most(fraction(9999, 10_000)),
{
    let u = pow2(UNIT_SHIFT as nat);
    lemma_price(1, 10_000);
    lemma_price(9999, 10_000);
    lemma_price(1, 2);
    assert((1 * u) * 2 <= (1 * u) * 10_000 && (1 * u) * 10_000 <= (9999 * u) * 2) by (nonlinear_arith)
        requires
            u >= 0,
    ;
    lemma_rounded_monotone(1 * u, 10_000, 1 * u, 2);
    lemma_rounded_monotone(1 * u, 2, 9999 * u, 10_000);
    lemma_packed(rounded(1 * u, 10_000));
    lemma_packed(rounded(1 * u, 2));
    lemma_packed(rounded(9999 * u, 10_000));
    lemma_order(fraction(1, 10_000), fraction(1, 2));
    lemma_order(fraction(1, 2), fraction(9999, 10_000));
}

/// A signal counts in a window while it lies no further back than the window reaches,
/// under its own reason; a window without seconds holds nothing.
pub proof fn skip_counts_while_in_the_window(
    books: Books,
    reason: Seq<char>,
    other: Seq<char>,
    at: Timestamp,
    now: Timestamp,
    secs: int,
)
    requires
        books.recent_skips.len() < 5000,
        other != reason,
    ensures
        secs <= 0 ==> counts_within(books, now, secs).len() == 0,
        secs > 0 ==> {
            let before = counts_within(books, now, secs);
            let after = counts_within(after_skip(books, reason, at), now, secs);
            &&& count_of(after, reason) == count_of(before, reason) + if now@ - at@ <= secs * 1_000_000_000 {
                1int
            } else {
                0
            }
            &&& count_of(after, other) == count_of(before, other)
        },
{
    let cutoff = now@ - secs * 1_000_000_000;
    let after = after_skip(books, reason, at).recent_skips;
    assert(after =~= seq![(at, reason)] + books.recent_skips);
    tally_counts_occurrences(books.recent_skips, cutoff, reason);
    tally_counts_occurrences(books.recent_skips, cutoff, other);
    tally_counts_occurrences(after, cutoff, reason);
    tally_counts_occurrences(after, cutoff, other);
    lemma_front_occurrence((at, reason), books.recent_skips, cutoff, reason);
    lemma_front_occurrence((at, reason), books.recent_skips, cutoff, other);
}

/// The running time is counted in whole seconds from the start, and is nothing before.
pub proof fn running_time_is_counted(started_at: Timestamp, at: Timestamp)
    ensures
        ({
            let secs = running_time(started_at, at);
            let span = at@ - started_at@;
            &&& span >= 0 ==> secs * 1_000_000_000 <= span < (secs + 1) * 1_000_000_000
            &&& span < 0 ==> secs == 0
        }),
{
}

} // verus!
