//! What a synchronised account comes to, in exact numbers.

use crate::double::accuracy::{distance, lemma_difference_error, lemma_sum_error};
use crate::double::laws::{lemma_positive, lemma_zero};
use crate::double::rounding::BINADE;
use crate::double::{fraction, lemma_steps_zero, Double};
use crate::state::model::{after_sync, grown, held, quotable, AccountReport, Books};
use crate::table::{lookup, put_then_lookup};
use crate::text::alike;
use crate::trading::account::{account_report, average_price, present_price, OpenPosition};
use vstd::prelude::*;

verus! {

/// What a closed position brought; nothing where no figure is reported.
pub open spec fn exact_result(result: Option<Double>) -> int {
    match result {
        Some(x) => x.value(),
        None => 0,
    }
}

/// What closed positions brought together, gains less losses.
pub open spec fn exact_results(results: Seq<Option<Double>>) -> int
    decreases results.len(),
{
    if results.len() == 0 {
        0
    } else {
        exact_results(results.drop_last()) + exact_result(results.last())
    }
}

/// Their gains and their losses added up, whatever their signs.
pub open spec fn gains_and_losses(results: Seq<Option<Double>>) -> int
    decreases results.len(),
{
    if results.len() == 0 {
        0
    } else {
        gains_and_losses(results.drop_last()) + distance(exact_result(results.last()), 0)
    }
}

/// A finite sum has finite parts.
proof fn lemma_finite_sum(a: Double, b: Double)
    requires
        a.plus(b).finite(),
    ensures
        a.finite(),
        b.finite(),
{
}

/// One more result added up.
proof fn lemma_next_result(b: int, n: int, x: int, a: int, v: int, w: int, r: int)
    requires
        b > 0,
        1 <= n <= b,
        distance(x, 0) <= a,
        b * distance(v, x) <= (n - 1) * a,
        2 * b * distance(r, v + w) <= distance(v + w, 0),
    ensures
        b * distance(r, x + w) <= n * (a + distance(w, 0)),
{
    let e = distance(v, x);
    let f = distance(r, v + w);
    let c = distance(w, 0);
    assert(e <= a) by (nonlinear_arith)
        requires
            b * e <= (n - 1) * a,
            1 <= n <= b,
            a >= 0,
            e >= 0,
            b > 0,
    ;
    assert(distance(v + w, 0) <= 2 * a + c);
    assert(distance(r, x + w) <= e + f);
    assert(b * distance(r, x + w) <= b * e + b * f) by (nonlinear_arith)
        requires
            distance(r, x + w) <= e + f,
            b > 0,
    ;
    assert(2 * b * f == 2 * (b * f)) by (nonlinear_arith);
    assert((n - 1) * a + a + c <= n * (a + c)) by (nonlinear_arith)
        requires
            n >= 1,
            c >= 0,
    ;
}

/// The realized profit that an account reports is what all its closed positions
/// brought, losses counted against gains, up to rounding.
pub proof fn realized_profit_is_the_sum(open: Seq<OpenPosition>, closed: Seq<Option<Double>>)
    requires
        account_report(open, closed).realized_pnl.finite(),
        closed.len() <= BINADE,
    ensures
        BINADE * distance(account_report(open, closed).realized_pnl.value(), exact_results(closed))
            <= closed.len() * gains_and_losses(closed),
        distance(exact_results(closed), 0) <= gains_and_losses(closed),
    decreases closed.len(),
{
    lemma_zero();
    lemma_steps_zero();
    if closed.len() > 0 {
        let before = closed.drop_last();
        let total = account_report(open, before).realized_pnl;
        let last = match closed.last() {
            Some(x) => x,
            None => fraction(0, 1),
        };
        assert(account_report(open, closed).realized_pnl == total.plus(last));
        lemma_finite_sum(total, last);
        realized_profit_is_the_sum(open, before);
        lemma_sum_error(total, last);
        lemma_next_result(
            BINADE as int,
            closed.len() as int,
            exact_results(before),
            gains_and_losses(before),
            total.value(),
            last.value(),
            account_report(open, closed).realized_pnl.value(),
        );
    } else {
        assert(BINADE * distance(0, 0) == 0) by (nonlinear_arith)
            requires
                distance(0, 0) == 0,
        ;
    }
}

/// One more closed position adds its result to the reported profit, be it a gain or a
/// loss, and changes nothing else of the report. One without a figure adds nothing.
pub proof fn closed_position_adds_its_result(
    open: Seq<OpenPosition>,
    closed: Seq<Option<Double>>,
    result: Option<Double>,
)
    requires
        account_report(open, closed.push(result)).realized_pnl.finite(),
    ensures
        ({
            let before = account_report(open, closed);
            let after = account_report(open, closed.push(result));
            let sum = before.realized_pnl.value() + exact_result(result);
            &&& 2 * BINADE * distance(after.realized_pnl.value(), sum) <= distance(sum, 0)
            &&& before.realized_pnl.finite()
            &&& after == (AccountReport { realized_pnl: after.realized_pnl, ..before })
        }),
{
    assert(closed.push(result).drop_last() =~= closed);
    lemma_zero();
    lemma_steps_zero();
    let total = account_report(open, closed).realized_pnl;
    let last = match result {
        Some(x) => x,
        None => fraction(0, 1),
    };
    lemma_finite_sum(total, last);
    lemma_sum_error(total, last);
}

/// A small part of a number.
proof fn lemma_part(b: int, d: int, n: int)
    requires
        b >= 8,
        d >= 0,
        2 * b * d <= n,
    ensures
        16 * d <= n,
{
    assert(16 * d <= 2 * b * d) by (nonlinear_arith)
        requires
            b >= 8,
            d >= 0,
    ;
}

/// What the errors of two synchronisations come to in the realized profit: `r` and `s`
/// are the reported profits, `base` the first of all, `p` and `q` the realized ones.
proof fn lemma_two_profits(b: int, base: int, x: int, r: int, s: int, p: int, q: int, m: int)
    requires
        b >= 8,
        m == distance(r, 0) + distance(x, 0) + distance(base, 0),
        2 * b * distance(s, r + x) <= distance(r + x, 0),
        2 * b * distance(p, r - base) <= distance(r - base, 0),
        2 * b * distance(q, s - base) <= distance(s - base, 0),
    ensures
        2 * b * distance(q - p, x) <= 6 * m,
        distance(p, 0) <= 2 * m,
        distance(q, 0) <= 2 * m,
{
    let d1 = distance(s, r + x);
    let d2 = distance(p, r - base);
    let d3 = distance(q, s - base);
    lemma_part(b, d1, distance(r + x, 0));
    lemma_part(b, d2, distance(r - base, 0));
    lemma_part(b, d3, distance(s - base, 0));
    assert(distance(q - p, x) <= d1 + d2 + d3);
    assert(2 * b * distance(q - p, x) <= 2 * b * d1 + 2 * b * d2 + 2 * b * d3) by (nonlinear_arith)
        requires
            distance(q - p, x) <= d1 + d2 + d3,
            b > 0,
    ;
    assert(distance(r + x, 0) + distance(r - base, 0) + distance(s - base, 0) <= 6 * m);
}

/// What the errors come to in the equity: `f` and `g` are the realized profits with the
/// initial balance `i`, and `e` and `h` the equities.
proof fn lemma_two_equities(
    b: int,
    i: int,
    n: int,
    x: int,
    p: int,
    q: int,
    f: int,
    g: int,
    e: int,
    h: int,
    m: int,
)
    requires
        b >= 8,
        m >= 0,
        2 * b * distance(q - p, x) <= 6 * m,
        distance(p, 0) <= 2 * m,
        distance(q, 0) <= 2 * m,
        2 * b * distance(f, i + p) <= distance(i + p, 0),
        2 * b * distance(g, i + q) <= distance(i + q, 0),
        2 * b * distance(e, f + n) <= distance(f + n, 0),
        2 * b * distance(h, g + n) <= distance(g + n, 0),
    ensures
        b * distance(h - e, x) <= 9 * (distance(i, 0) + m + distance(n, 0)),
{
    let k = distance(i, 0) + m + distance(n, 0);
    let d3 = distance(q - p, x);
    let d4 = distance(f, i + p);
    let d5 = distance(g, i + q);
    let d6 = distance(e, f + n);
    let d7 = distance(h, g + n);
    lemma_part(b, d4, distance(i + p, 0));
    lemma_part(b, d5, distance(i + q, 0));
    assert(distance(i + p, 0) <= 2 * k && distance(f + n, 0) <= 3 * k);
    assert(distance(i + q, 0) <= 2 * k && distance(g + n, 0) <= 3 * k);
    assert(distance(h - e, x) <= d3 + d4 + d5 + d6 + d7);
    assert(2 * (b * distance(h - e, x)) <= 2 * b * d3 + 2 * b * d4 + 2 * b * d5 + 2 * b * d6 + 2 * b * d7)
        by (nonlinear_arith)
        requires
            distance(h - e, x) <= d3 + d4 + d5 + d6 + d7,
            b > 0,
    ;
}

/// A position that closes between two synchronisations moves the realized profit and
/// the equity by its result, be it a gain or a loss, up to rounding.
pub proof fn closed_result_reaches_the_books(
    books: Books,
    open: Seq<OpenPosition>,
    closed: Seq<Option<Double>>,
    x: Double,
    earlier: Seq<char>,
    later: Seq<char>,
)
    requires
        ({
            let first = after_sync(books, account_report(open, closed), earlier);
            let second = after_sync(first, account_report(open, closed.push(Some(x))), later);
            &&& account_report(open, closed.push(Some(x))).realized_pnl.finite()
            &&& first.realized_baseline->0.finite()
            &&& first.realized_pnl.finite()
            &&& first.equity.finite()
            &&& second.realized_pnl.finite()
            &&& second.equity.finite()
        }),
    ensures
        ({
            let report = account_report(open, closed);
            let first = after_sync(books, report, earlier);
            let second = after_sync(first, account_report(open, closed.push(Some(x))), later);
            let sizes = distance(report.realized_pnl.value(), 0) + distance(x.value(), 0) + distance(
                first.realized_baseline->0.value(),
                0,
            );
            &&& BINADE * distance(second.realized_pnl.value() - first.realized_pnl.value(), x.value()) <= 3
                * sizes
            &&& BINADE * distance(second.equity.value() - first.equity.value(), x.value()) <= 9 * (distance(
                books.initial_balance.value(),
                0,
            ) + sizes + distance(report.unrealized_pnl.value(), 0))
        }),
{
    let report = account_report(open, closed);
    let next = account_report(open, closed.push(Some(x)));
    let first = after_sync(books, report, earlier);
    let second = after_sync(first, next, later);
    let base = first.realized_baseline->0;
    closed_position_adds_its_result(open, closed, Some(x));
    assert(first.realized_pnl == report.realized_pnl.minus(base));
    assert(second.realized_pnl == next.realized_pnl.minus(base));
    lemma_difference_error(report.realized_pnl, base);
    lemma_difference_error(next.realized_pnl, base);
    let i = books.initial_balance;
    let n = report.unrealized_pnl;
    assert(first.equity == i.plus(first.realized_pnl).plus(n));
    assert(second.equity == i.plus(second.realized_pnl).plus(n));
    lemma_finite_sum(i.plus(first.realized_pnl), n);
    lemma_finite_sum(i.plus(second.realized_pnl), n);
    lemma_finite_sum(i, first.realized_pnl);
    lemma_sum_error(i, first.realized_pnl);
    lemma_sum_error(i, second.realized_pnl);
    lemma_sum_error(i.plus(first.realized_pnl), n);
    lemma_sum_error(i.plus(second.realized_pnl), n);
    let sizes = distance(report.realized_pnl.value(), 0) + distance(x.value(), 0) + distance(base.value(), 0);
    let (p, q) = (first.realized_pnl.value(), second.realized_pnl.value());
    lemma_two_profits(
        BINADE as int,
        base.value(),
        x.value(),
        report.realized_pnl.value(),
        next.realized_pnl.value(),
        p,
        q,
        sizes,
    );
    assert(2 * BINADE * distance(q - p, x.value()) == 2 * (BINADE * distance(q - p, x.value())))
        by (nonlinear_arith);
    lemma_two_equities(
        BINADE as int,
        i.value(),
        n.value(),
        x.value(),
        p,
        q,
        i.plus(first.realized_pnl).value(),
        i.plus(second.realized_pnl).value(),
        first.equity.value(),
        second.equity.value(),
        sizes,
    );
}

/// One more open position with shares grows its own side of its market by the shares,
/// and by what they cost at the average price; it is priced and marked at its present
/// price, and its profit is added to the unrealized one. Other markets, the other side
/// and the realized profit stay as they were.
pub proof fn open_position_is_taken_over(
    open: Seq<OpenPosition>,
    closed: Seq<Option<Double>>,
    p: OpenPosition,
    shares: Double,
    bought: Double,
    present: Double,
    gain: Double,
    other: Seq<char>,
)
    requires
        p.size == Some(shares),
        p.avg_price == Some(bought),
        p.cur_price == Some(present),
        p.cash_pnl == Some(gain),
        fraction(0, 1).below(shares),
        fraction(1, 10_000).at_most(bought),
        bought.at_most(fraction(9999, 10_000)),
        fraction(1, 10_000).at_most(present),
        present.at_most(fraction(9999, 10_000)),
        other != p.market@,
    ensures
        ({
            let before = account_report(open, closed);
            let after = account_report(open.push(p), closed);
            let old_pos = held(before.positions, p.market@);
            let new_pos = held(after.positions, p.market@);
            let rest = fraction(1, 1).minus(present);
            &&& alike(p.outcome@, "yes"@) ==> {
                &&& new_pos.yes_shares == old_pos.yes_shares.plus(shares)
                &&& new_pos.yes_cost_usdc == old_pos.yes_cost_usdc.plus(shares.times(bought))
                &&& new_pos.no_shares == old_pos.no_shares
                &&& new_pos.no_cost_usdc == old_pos.no_cost_usdc
                &&& lookup(after.yes_prices, p.market@) == Some(present)
            }
            &&& !alike(p.outcome@, "yes"@) ==> {
                &&& new_pos.no_shares == old_pos.no_shares.plus(shares)
                &&& new_pos.no_cost_usdc == old_pos.no_cost_usdc.plus(shares.times(bought))
                &&& new_pos.yes_shares == old_pos.yes_shares
                &&& new_pos.yes_cost_usdc == old_pos.yes_cost_usdc
                &&& fraction(1, 10_000).at_most(rest) && rest.at_most(fraction(9999, 10_000)) ==> lookup(
                    after.yes_prices,
                    p.market@,
                ) == Some(rest)
            }
            &&& after.mark_value == before.mark_value.plus(shares.times(present))
            &&& after.unrealized_pnl == before.unrealized_pnl.plus(gain)
            &&& after.realized_pnl == before.realized_pnl
            &&& held(after.positions, other) == held(before.positions, other)
            &&& lookup(after.yes_prices, other) == lookup(before.yes_prices, other)
        }),
{
    assert(open.push(p).drop_last() =~= open);
    lemma_zero();
    lemma_positive(shares);
    reveal_strlit("YES");
    reveal_strlit("NO");
    assert("YES"@.len() != "NO"@.len());
    let before = account_report(open, closed);
    let after = account_report(open.push(p), closed);
    let market = p.market@;
    let written = grown(
        held(before.positions, market),
        if alike(p.outcome@, "yes"@) {
            "YES"@
        } else {
            "NO"@
        },
        shares,
        shares.times(bought),
    );
    let seen = if alike(p.outcome@, "yes"@) {
        present
    } else {
        quotable(fraction(1, 1).minus(present))
    };
    put_then_lookup(before.positions, market, written, market);
    put_then_lookup(before.positions, market, written, other);
    put_then_lookup(before.yes_prices, market, seen, market);
    put_then_lookup(before.yes_prices, market, seen, other);
}

/// A position whose present price is not reported is marked at its average price, and
/// figures that are missing count as zero.
pub proof fn missing_figures_are_replaced(
    open: Seq<OpenPosition>,
    closed: Seq<Option<Double>>,
    p: OpenPosition,
)
    requires
        p.size matches Some(shares) ==> fraction(0, 1).below(shares),
    ensures
        p.size is None ==> account_report(open.push(p), closed) == account_report(open, closed),
        p.cash_pnl is None && p.size is Some ==> account_report(open.push(p), closed).unrealized_pnl
            == account_report(open, closed).unrealized_pnl.plus(fraction(0, 1)),
        (p.size is Some && p.cur_price is None && p.avg_price is Some && fraction(1, 10_000).at_most(
            p.avg_price->0,
        ) && p.avg_price->0.at_most(fraction(9999, 10_000))) ==> account_report(open.push(p), closed).mark_value
            == account_report(open, closed).mark_value.plus(p.size->0.times(p.avg_price->0)),
{
    assert(open.push(p).drop_last() =~= open);
    lemma_zero();
    if let Some(shares) = p.size {
        lemma_positive(shares);
    }
}

/// A price outside the range of quotes is moved to its nearer end: what was bought
/// below a ten-thousandth counts as bought there, and what stands above 0.9999 is
/// marked there.
pub proof fn odd_prices_are_moved(
    open: Seq<OpenPosition>,
    closed: Seq<Option<Double>>,
    p: OpenPosition,
    shares: Double,
)
    requires
        p.size == Some(shares),
        fraction(0, 1).below(shares),
        alike(p.outcome@, "yes"@),
    ensures
        ({
            let before = account_report(open, closed);
            let after = account_report(open.push(p), closed);
            let old_cost = held(before.positions, p.market@).yes_cost_usdc;
            let new_cost = held(after.positions, p.market@).yes_cost_usdc;
            let (low, high) = (fraction(1, 10_000), fraction(9999, 10_000));
            &&& p.avg_price is Some && p.avg_price->0.below(low) ==> new_cost == old_cost.plus(shares.times(low))
            &&& p.avg_price is Some && high.below(p.avg_price->0) && !p.avg_price->0.below(low) ==> new_cost
                == old_cost.plus(shares.times(high))
            &&& p.cur_price is Some && p.cur_price->0.below(low) ==> after.mark_value == before.mark_value.plus(
                shares.times(low),
            ) && lookup(after.yes_prices, p.market@) == Some(low)
            &&& p.cur_price is Some && high.below(p.cur_price->0) && !p.cur_price->0.below(low)
                ==> after.mark_value == before.mark_value.plus(shares.times(high)) && lookup(
                after.yes_prices,
                p.market@,
            ) == Some(high)
        }),
{
    assert(open.push(p).drop_last() =~= open);
    lemma_zero();
    lemma_positive(shares);
    let before = account_report(open, closed);
    let market = p.market@;
    let written = grown(
        held(before.positions, market),
        "YES"@,
        shares,
        shares.times(average_price(p)),
    );
    put_then_lookup(before.positions, market, written, market);
    put_then_lookup(before.yes_prices, market, present_price(p), market);
}

/// A position whose size is zero, negative or no number leaves the report as it was.
pub proof fn position_without_shares_is_ignored(
    open: Seq<OpenPosition>,
    closed: Seq<Option<Double>>,
    p: OpenPosition,
    shares: Double,
)
    requires
        p.size == Some(shares),
        shares.not_a_number() || shares.at_most(fraction(0, 1)),
    ensures
        account_report(open.push(p), closed) == account_report(open, closed),
{
    assert(open.push(p).drop_last() =~= open);
    lemma_zero();
    lemma_positive(shares);
}

} // verus!
