//! The books' sums over exact numbers.
//!
//! Amounts are counted in the smallest step of a double. Values of positions are
//! products of two such counts, so one stands for the square of the number of steps in
//! one.

use crate::double::accuracy::{
    distance, lemma_difference, lemma_difference_error, lemma_rounding_error, lemma_sum_error,
};
use crate::double::laws::{
    is_amount, lemma_fraction, lemma_one, lemma_order, lemma_packed, lemma_positive,
    lemma_product_sign, lemma_sum_sign, lemma_zero, ordinary, product_is_monotone, product_with_one,
};
use crate::double::rounding::{
    lemma_increasing, lemma_rounded_monotone, rounded, steps, BINADE, INFINITE, UNIT_SHIFT,
};
use crate::double::{fraction, lemma_steps_zero, Double};
use crate::state::model::{
    after_sync, implied_yes_price, invested, mark_value, notional, quotable, revalued, total_pnl,
    valuation_price, worth, AccountReport, Books,
};
use crate::state::valuation::{lemma_complement, lemma_quotable, lemma_quotes};
use crate::state::MarketPosition;
use crate::table::lookup;
use vstd::arithmetic::power2::{lemma_pow2_pos, pow2};
use vstd::prelude::*;

verus! {

/// The number of steps in one.
pub open spec fn unit() -> int {
    pow2(UNIT_SHIFT as nat) as int
}

/// Whether shares and costs of a position are amounts.
pub open spec fn is_proper(pos: MarketPosition) -> bool {
    &&& is_amount(pos.yes_shares)
    &&& is_amount(pos.yes_cost_usdc)
    &&& is_amount(pos.no_shares)
    &&& is_amount(pos.no_cost_usdc)
}

/// What a position is worth at a YES price: the price for every YES share, one minus
/// it for every NO share.
pub open spec fn exact_worth(pos: MarketPosition, yes_price: Double) -> int {
    pos.yes_shares.value() * yes_price.value() + pos.no_shares.value() * (unit() - yes_price.value())
}

/// What all positions are worth.
pub open spec fn exact_value(
    positions: Seq<(Seq<char>, MarketPosition)>,
    yes_prices: Seq<(Seq<char>, Double)>,
) -> int
    decreases positions.len(),
{
    if positions.len() == 0 {
        0
    } else {
        let (market, pos) = positions.last();
        exact_value(positions.drop_last(), yes_prices) + exact_worth(
            pos,
            valuation_price(pos, lookup(yes_prices, market)),
        )
    }
}

/// How many shares there are in all.
pub open spec fn all_shares(positions: Seq<(Seq<char>, MarketPosition)>) -> int
    decreases positions.len(),
{
    if positions.len() == 0 {
        0
    } else {
        all_shares(positions.drop_last()) + positions.last().1.yes_shares.value()
            + positions.last().1.no_shares.value()
    }
}

/// What was paid in all.
pub open spec fn exact_cost(positions: Seq<(Seq<char>, MarketPosition)>) -> int
    decreases positions.len(),
{
    if positions.len() == 0 {
        0
    } else {
        exact_cost(positions.drop_last()) + positions.last().1.yes_cost_usdc.value()
            + positions.last().1.no_cost_usdc.value()
    }
}

/// Whether every position is proper and every price that was seen is a number.
pub open spec fn are_proper(
    positions: Seq<(Seq<char>, MarketPosition)>,
    yes_prices: Seq<(Seq<char>, Double)>,
) -> bool {
    forall|i: int|
        0 <= i < positions.len() ==> is_proper((#[trigger] positions[i]).1) && (lookup(
            yes_prices,
            positions[i].0,
        ) matches Some(price) ==> !price.not_a_number())
}

/// The price at which a proper position is valued can be quoted.
proof fn lemma_valuation(pos: MarketPosition, seen: Option<Double>)
    requires
        is_proper(pos),
        seen matches Some(price) ==> !price.not_a_number(),
    ensures
        ({
            let y = valuation_price(pos, seen);
            ordinary(y) && y.finite() && y.at_most(fraction(1, 1)) && quotable(y) == y
        }),
{
    let zero = fraction(0, 1);
    lemma_zero();
    lemma_one();
    lemma_steps_zero();
    match seen {
        Some(price) => {
            lemma_quotable(price);
        },
        None => {
            let raw = if zero.below(pos.yes_shares) {
                pos.yes_cost_usdc.over(pos.yes_shares)
            } else if zero.below(pos.no_shares) {
                fraction(1, 1).minus(pos.no_cost_usdc.over(pos.no_shares))
            } else {
                fraction(1, 2)
            };
            lemma_positive(pos.yes_shares);
            lemma_positive(pos.no_shares);
            if zero.below(pos.yes_shares) {
                lemma_quotient_number(pos.yes_cost_usdc, pos.yes_shares);
            } else if zero.below(pos.no_shares) {
                let average = pos.no_cost_usdc.over(pos.no_shares);
                lemma_quotient_number(pos.no_cost_usdc, pos.no_shares);
                lemma_packed(average.magnitude());
                if average.finite() {
                    lemma_difference(fraction(1, 1), average);
                }
            } else {
                lemma_fraction(1, 2);
            }
            lemma_quotable(raw);
            lemma_quotable(implied_yes_price(pos));
        },
    }
}

/// A quotient of amounts is a number.
proof fn lemma_quotient_number(a: Double, b: Double)
    requires
        is_amount(a),
        is_amount(b),
        b.magnitude() > 0,
    ensures
        ordinary(a.over(b)),
{
    let n = steps(a.magnitude()) * pow2(UNIT_SHIFT as nat);
    lemma_steps_zero();
    lemma_increasing(0, b.magnitude());
    lemma_rounded_monotone(n, steps(b.magnitude()), n, steps(b.magnitude()));
    lemma_packed(rounded(n, steps(b.magnitude())));
}

/// A product with a price errs little, and is not more than the other factor.
pub proof fn lemma_priced(x: Double, price: Double)
    requires
        is_amount(x),
        is_amount(price),
        price.at_most(fraction(1, 1)),
    ensures
        is_amount(x.times(price)),
        x.times(price).value() <= x.value(),
        0 <= x.times(price).value(),
        2 * BINADE * distance(x.times(price).value() * unit(), x.value() * price.value()) <= x.value()
            * price.value() + BINADE * unit(),
{
    let u = pow2(UNIT_SHIFT as nat);
    let n = steps(x.magnitude()) * steps(price.magnitude());
    lemma_one();
    lemma_pow2_pos(UNIT_SHIFT as nat);
    lemma_product_sign(x, price);
    lemma_product_sign(x, fraction(1, 1));
    product_with_one(x);
    product_is_monotone(x, price, fraction(1, 1));
    lemma_order(x.times(price), x);
    lemma_rounded_monotone(n, u, n, u);
    lemma_packed(rounded(n, u));
    lemma_rounding_error(n, u);
}

/// The bound on what rounding makes of one position.
pub proof fn lemma_one_worth(u: int, b: int, s: int, n: int, y: int, z: int, p: int, q: int, w: int)
    requires
        b > 0,
        8 * b < u,
        0 <= s,
        0 <= n,
        0 <= y <= u,
        0 <= z <= u,
        0 <= p <= s,
        0 <= q <= n,
        2 * b * distance(p * u, s * y) <= s * y + b * u,
        2 * b * distance(q * u, n * z) <= n * z + b * u,
        2 * b * distance(z, u - y) <= 2 * u + b,
        2 * b * distance(w, p + q) <= p + q,
    ensures
        2 * b * distance(w * u, s * y + n * (u - y)) <= 5 * ((s + n) * u) + 2 * (b * u),
        w <= 2 * (s + n),
        w >= 0,
{
    let e1 = distance(p * u, s * y);
    let e2 = distance(q * u, n * z);
    let e3 = distance(z, u - y);
    let e4 = distance(w, p + q);
    assert(distance(w * u, (p + q) * u) == e4 * u) by (nonlinear_arith)
        requires
            e4 == distance(w, p + q),
            u > 0,
    ;
    assert(distance(n * z, n * (u - y)) == n * e3) by (nonlinear_arith)
        requires
            e3 == distance(z, u - y),
            n >= 0,
    ;
    assert((p + q) * u == p * u + q * u) by (nonlinear_arith);
    let whole = distance(w * u, s * y + n * (u - y));
    assert(whole <= e4 * u + e1 + e2 + n * e3);
    assert(2 * b * whole <= (2 * b * e4) * u + 2 * b * e1 + 2 * b * e2 + n * (2 * b * e3))
        by (nonlinear_arith)
        requires
            whole <= e4 * u + e1 + e2 + n * e3,
            b > 0,
    ;
    assert((2 * b * e4) * u <= (s + n) * u) by (nonlinear_arith)
        requires
            2 * b * e4 <= p + q,
            p <= s,
            q <= n,
            u > 0,
    ;
    assert(n * (2 * b * e3) <= 3 * (n * u)) by (nonlinear_arith)
        requires
            2 * b * e3 <= 2 * u + b,
            b <= u,
            n >= 0,
    ;
    assert(s * y <= s * u && n * z <= n * u && 0 <= s * u) by (nonlinear_arith)
        requires
            0 <= s,
            0 <= n,
            y <= u,
            z <= u,
            u > 0,
    ;
    assert((s + n) * u == s * u + n * u) by (nonlinear_arith);
    assert(e4 <= p + q) by (nonlinear_arith)
        requires
            2 * b * e4 <= p + q,
            b > 0,
            e4 >= 0,
    ;
}

/// What one position is worth errs little.
proof fn lemma_worth(pos: MarketPosition, y: Double)
    requires
        is_proper(pos),
        ordinary(y),
        y.finite(),
        y.at_most(fraction(1, 1)),
        quotable(y) == y,
        worth(pos, y).finite(),
    ensures
        ({
            let shares = pos.yes_shares.value() + pos.no_shares.value();
            &&& 2 * BINADE * distance(worth(pos, y).value() * unit(), exact_worth(pos, y)) <= 5 * (shares
                * unit()) + 2 * (BINADE * unit())
            &&& 0 <= worth(pos, y).value() <= 2 * shares
            &&& ordinary(worth(pos, y))
        }),
{
    let z = quotable(fraction(1, 1).minus(y));
    lemma_one();
    lemma_order(y, fraction(1, 1));
    lemma_complement(y);
    lemma_order(z, fraction(1, 1));
    lemma_priced(pos.yes_shares, y);
    lemma_priced(pos.no_shares, z);
    let (p, q) = (pos.yes_shares.times(y), pos.no_shares.times(z));
    lemma_sum_sign(p, q);
    lemma_sum_error(p, q);
    lemma_quotes();
    lemma_one_worth(
        unit(),
        BINADE as int,
        pos.yes_shares.value(),
        pos.no_shares.value(),
        y.value(),
        z.value(),
        p.value(),
        q.value(),
        worth(pos, y).value(),
    );
}

/// One more term keeps the bound on what rounding makes of a sum of values.
proof fn lemma_next_value(u: int, b: int, k: int, t: int, h: int, v: int, w: int, r: int, x: int, e: int)
    requires
        b > 0,
        u > 0,
        1 <= k,
        7 * k <= 2 * b,
        0 <= t,
        0 <= h,
        0 <= v,
        0 <= w <= 2 * h,
        x <= t * u,
        2 * b * distance(v * u, x) <= (k - 1) * (7 * (t * u) + 4 * (b * u)),
        2 * b * distance(w * u, e) <= 5 * (h * u) + 2 * (b * u),
        2 * b * distance(r, v + w) <= v + w,
    ensures
        2 * b * distance(r * u, x + e) <= k * (7 * ((t + h) * u) + 4 * (b * u)),
{
    let a1 = distance(v * u, x);
    let a2 = distance(w * u, e);
    let a3 = distance(r, v + w);
    // The sum so far is at most twice the shares, and a little.
    assert(v <= 2 * t + 2 * k) by (nonlinear_arith)
        requires
            2 * b * a1 <= (k - 1) * (7 * (t * u) + 4 * (b * u)),
            v * u <= x + a1,
            x <= t * u,
            7 * k <= 2 * b,
            0 <= t,
            b > 0,
            u > 0,
            k >= 1,
    {
        assert((k - 1) * (7 * (t * u) + 4 * (b * u)) == (7 * (k - 1)) * (t * u) + (4 * (k - 1)) * (b * u));
        assert(t * u >= 0);
        assert((7 * (k - 1)) * (t * u) <= (2 * b) * (t * u));
        assert((4 * (k - 1)) * (b * u) == (2 * b) * ((2 * (k - 1)) * u));
        assert((2 * b) * a1 <= (2 * b) * (t * u + (2 * (k - 1)) * u));
        assert(a1 <= t * u + (2 * (k - 1)) * u);
        assert(v * u <= (2 * t + 2 * (k - 1)) * u);
        assert(v <= 2 * t + 2 * (k - 1));
    }
    assert(distance(r * u, (v + w) * u) == a3 * u) by (nonlinear_arith)
        requires
            a3 == distance(r, v + w),
            u > 0,
    ;
    assert((v + w) * u == v * u + w * u) by (nonlinear_arith);
    let all = distance(r * u, x + e);
    assert(all <= a3 * u + a1 + a2);
    assert(2 * b * all <= (2 * b * a3) * u + 2 * b * a1 + 2 * b * a2) by (nonlinear_arith)
        requires
            all <= a3 * u + a1 + a2,
            b > 0,
    ;
    assert((2 * b * a3) * u <= (2 * t + 2 * k + 2 * h) * u) by (nonlinear_arith)
        requires
            2 * b * a3 <= v + w,
            v <= 2 * t + 2 * k,
            w <= 2 * h,
            u > 0,
    ;
    assert(2 * b * all <= k * (7 * ((t + h) * u) + 4 * (b * u))) by (nonlinear_arith)
        requires
            2 * b * all <= (2 * t + 2 * k + 2 * h) * u + (k - 1) * (7 * (t * u) + 4 * (b * u))
                + (5 * (h * u) + 2 * (b * u)),
            7 * k <= 2 * b,
            0 <= t,
            0 <= h,
            u > 0,
            b > 0,
            k >= 1,
    {
        assert(h * u >= 0 && t * u >= 0);
        assert((t + h) * u == t * u + h * u);
        assert((2 * t + 2 * k + 2 * h) * u == 2 * (t * u) + 2 * (k * u) + 2 * (h * u));
        assert(k * (7 * (t * u + h * u) + 4 * (b * u)) == (k - 1) * (7 * (t * u) + 4 * (b * u))
            + (k - 1) * (7 * (h * u)) + 7 * (t * u) + 7 * (h * u) + 4 * (b * u));
        assert((k - 1) * (7 * (h * u)) >= 0);
        assert(k * u <= b * u);
    }
}

/// The exact value of proper positions is not negative and not more than one for
/// every share.
proof fn lemma_exact_value(positions: Seq<(Seq<char>, MarketPosition)>, yes_prices: Seq<(Seq<char>, Double)>)
    requires
        are_proper(positions, yes_prices),
    ensures
        0 <= exact_value(positions, yes_prices) <= all_shares(positions) * unit(),
        0 <= all_shares(positions),
    decreases positions.len(),
{
    if positions.len() > 0 {
        let (market, pos) = positions.last();
        let rest = positions.drop_last();
        assert(positions[positions.len() - 1] == positions.last());
        assert forall|i: int| 0 <= i < rest.len() implies is_proper((#[trigger] rest[i]).1) && (lookup(
            yes_prices,
            rest[i].0,
        ) matches Some(price) ==> !price.not_a_number()) by {
            assert(rest[i] == positions[i]);
        }
        lemma_exact_value(rest, yes_prices);
        let y = valuation_price(pos, lookup(yes_prices, market));
        lemma_valuation(pos, lookup(yes_prices, market));
        lemma_one();
        lemma_order(y, fraction(1, 1));
        let (s, n, v, u) = (pos.yes_shares.value(), pos.no_shares.value(), y.value(), unit());
        assert(0 <= s * v + n * (u - v) <= (s + n) * u) by (nonlinear_arith)
            requires
                0 <= s,
                0 <= n,
                0 <= v <= u,
        ;
        let t = all_shares(rest);
        assert((t + s + n) * u == t * u + (s + n) * u) by (nonlinear_arith);
    }
}

/// Where the value of all positions is finite, it is that of the exact numbers up to
/// rounding.
proof fn lemma_value(positions: Seq<(Seq<char>, MarketPosition)>, yes_prices: Seq<(Seq<char>, Double)>)
    requires
        are_proper(positions, yes_prices),
        mark_value(positions, yes_prices).finite(),
        7 * positions.len() <= 2 * BINADE,
    ensures
        ordinary(mark_value(positions, yes_prices)),
        2 * BINADE * distance(
            mark_value(positions, yes_prices).value() * unit(),
            exact_value(positions, yes_prices),
        ) <= positions.len() * (7 * (all_shares(positions) * unit()) + 4 * (BINADE * unit())),
    decreases positions.len(),
{
    lemma_zero();
    lemma_steps_zero();
    lemma_pow2_pos(UNIT_SHIFT as nat);
    let u = unit();
    if positions.len() == 0 {
        assert(0 * u == 0 && 2 * BINADE * 0 == 0 && 0 * (7 * (0 * u) + 4 * (BINADE * u)) == 0)
            by (nonlinear_arith);
    } else {
        let (market, pos) = positions.last();
        let rest = positions.drop_last();
        let y = valuation_price(pos, lookup(yes_prices, market));
        assert(positions[positions.len() - 1] == positions.last());
        assert forall|i: int| 0 <= i < rest.len() implies is_proper((#[trigger] rest[i]).1) && (lookup(
            yes_prices,
            rest[i].0,
        ) matches Some(price) ==> !price.not_a_number()) by {
            assert(rest[i] == positions[i]);
        }
        lemma_valuation(pos, lookup(yes_prices, market));
        let before = mark_value(rest, yes_prices);
        let added = worth(pos, y);
        assert(before.finite() && added.finite());
        lemma_value(rest, yes_prices);
        lemma_exact_value(rest, yes_prices);
        lemma_worth(pos, y);
        lemma_sum_sign(before, added);
        lemma_sum_error(before, added);
        lemma_next_value(
            u,
            BINADE as int,
            positions.len() as int,
            all_shares(rest),
            pos.yes_shares.value() + pos.no_shares.value(),
            before.value(),
            added.value(),
            before.plus(added).value(),
            exact_value(rest, yes_prices),
            exact_worth(pos, y),
        );
    }
}

/// One more term keeps the bound on what rounding makes of a sum of costs.
proof fn lemma_next_cost(b: int, k: int, x: int, a: int, v: int, w: int, r: int)
    requires
        b > 0,
        1 <= k,
        3 * k <= 2 * b,
        0 <= x,
        0 <= a,
        0 <= v,
        2 * b * distance(v, x) <= (k - 1) * (3 * x),
        2 * b * distance(w, a) <= a,
        2 * b * distance(r, v + w) <= distance(v + w, 0),
    ensures
        2 * b * distance(r, x + a) <= k * (3 * (x + a)),
{
    let (a1, a2, a3) = (distance(v, x), distance(w, a), distance(r, v + w));
    assert(a1 <= x && a2 <= a) by (nonlinear_arith)
        requires
            2 * b * a1 <= (k - 1) * (3 * x),
            2 * b * a2 <= a,
            3 * k <= 2 * b,
            0 <= x,
            0 <= a,
            b > 0,
            k >= 1,
            a2 >= 0,
    {
        assert((k - 1) * (3 * x) == (3 * (k - 1)) * x);
        assert((3 * (k - 1)) * x <= (2 * b) * x);
        assert((2 * b) * a1 <= (2 * b) * x);
    }
    let all = distance(r, x + a);
    assert(all <= a1 + a2 + a3);
    assert(2 * b * all <= 2 * b * a1 + 2 * b * a2 + 2 * b * a3) by (nonlinear_arith)
        requires
            all <= a1 + a2 + a3,
            b > 0,
    ;
    assert(k * (3 * (x + a)) >= (k - 1) * (3 * x) + 3 * (x + a)) by (nonlinear_arith)
        requires
            k >= 1,
            a >= 0,
            x >= 0,
    ;
}

/// Where the sum of all costs is finite, it is that of the exact numbers up to
/// rounding.
proof fn lemma_cost(positions: Seq<(Seq<char>, MarketPosition)>)
    requires
        forall|i: int| 0 <= i < positions.len() ==> is_proper((#[trigger] positions[i]).1),
        invested(positions).finite(),
        3 * positions.len() <= 2 * BINADE,
    ensures
        ordinary(invested(positions)),
        0 <= exact_cost(positions),
        2 * BINADE * distance(invested(positions).value(), exact_cost(positions)) <= positions.len() * (3
            * exact_cost(positions)),
    decreases positions.len(),
{
    lemma_zero();
    lemma_steps_zero();
    if positions.len() == 0 {
        assert(2 * BINADE * 0 == 0);
    } else {
        let pos = positions.last().1;
        let rest = positions.drop_last();
        assert(positions[positions.len() - 1] == positions.last());
        assert forall|i: int| 0 <= i < rest.len() implies is_proper((#[trigger] rest[i]).1) by {
            assert(rest[i] == positions[i]);
        }
        let before = invested(rest);
        let added = notional(pos);
        assert(before.finite() && added.finite());
        lemma_cost(rest);
        lemma_sum_sign(pos.yes_cost_usdc, pos.no_cost_usdc);
        lemma_sum_error(pos.yes_cost_usdc, pos.no_cost_usdc);
        lemma_sum_sign(before, added);
        lemma_sum_error(before, added);
        lemma_next_cost(
            BINADE as int,
            positions.len() as int,
            exact_cost(rest),
            pos.yes_cost_usdc.value() + pos.no_cost_usdc.value(),
            before.value(),
            added.value(),
            before.plus(added).value(),
        );
    }
}

/// Valued anew, the books hold what the exact numbers give, up to rounding: the value
/// of the positions is the sum, over the markets, of the price for every YES share
/// and one minus it for every NO share; what was paid is the sum of the costs; the
/// equity is the balance and the value; and the unrealized profit is the value without
/// what was paid. Nothing else changes.
pub proof fn books_are_valued_exactly(books: Books)
    requires
        are_proper(books.positions, books.yes_prices),
        books.balance.finite(),
        revalued(books).equity.finite(),
        revalued(books).unrealized_pnl.finite(),
        7 * books.positions.len() <= 2 * BINADE,
    ensures
        ({
            let after = revalued(books);
            let value = mark_value(books.positions, books.yes_prices).value();
            let cost = invested(books.positions).value();
            let n = books.positions.len();
            &&& 2 * BINADE * distance(value * unit(), exact_value(books.positions, books.yes_prices)) <= n * (7
                * (all_shares(books.positions) * unit()) + 4 * (BINADE * unit()))
            &&& 2 * BINADE * distance(cost, exact_cost(books.positions)) <= n * (3 * exact_cost(
                books.positions,
            ))
            &&& 2 * BINADE * distance(after.equity.value(), books.balance.value() + value) <= distance(
                books.balance.value() + value,
                0,
            )
            &&& 2 * BINADE * distance(after.unrealized_pnl.value(), value - cost) <= distance(value - cost, 0)
            &&& after == (Books { equity: after.equity, unrealized_pnl: after.unrealized_pnl, ..books })
        }),
{
    let value = mark_value(books.positions, books.yes_prices);
    let cost = invested(books.positions);
    lemma_packed(INFINITE as nat);
    assert(value.finite());
    if !cost.finite() {
        assert(cost.opposite().magnitude() >= INFINITE) by {
            if !cost.not_a_number() {
                lemma_packed(cost.magnitude());
            } else {
                lemma_not_a_number(cost);
            }
        }
    }
    lemma_value(books.positions, books.yes_prices);
    lemma_cost(books.positions);
    lemma_sum_error(books.balance, value);
    lemma_difference_error(value, cost);
}

/// What is no number is none with the other sign either.
proof fn lemma_not_a_number(x: Double)
    requires
        x.not_a_number(),
    ensures
        x.opposite().not_a_number(),
{
}

/// The bound on what rounding makes of a total.
proof fn lemma_total(b: int, i: int, r: int, n: int, first: int, equity: int, total: int)
    requires
        b >= 8,
        2 * b * distance(first, i + r) <= distance(i + r, 0),
        2 * b * distance(equity, first + n) <= distance(first + n, 0),
        2 * b * distance(total, equity - i) <= distance(equity - i, 0),
    ensures
        b * distance(total, r + n) <= 4 * (distance(i, 0) + distance(r, 0) + distance(n, 0)),
{
    let all = distance(i, 0) + distance(r, 0) + distance(n, 0);
    let (e1, e2, e3) = (distance(first, i + r), distance(equity, first + n), distance(total, equity - i));
    assert(16 * e1 <= all) by (nonlinear_arith)
        requires
            2 * b * e1 <= all,
            b >= 8,
            e1 >= 0,
    ;
    assert(16 * e2 <= 2 * all) by (nonlinear_arith)
        requires
            2 * b * e2 <= 2 * all,
            b >= 8,
            e2 >= 0,
    ;
    assert(2 * b * distance(total, r + n) <= 2 * b * e1 + 2 * b * e2 + 2 * b * e3) by (nonlinear_arith)
        requires
            distance(total, r + n) <= e1 + e2 + e3,
            b >= 8,
    ;
    assert(2 * b * e1 + 2 * b * e2 + 2 * b * e3 <= 8 * all);
    assert(b * distance(total, r + n) <= 4 * all) by (nonlinear_arith)
        requires
            2 * b * distance(total, r + n) <= 8 * all,
    ;
}

/// After a synchronisation the total profit is the realized and the unrealized one,
/// up to rounding; the equity is the initial balance and both; and what the account
/// reports takes the place of the positions and prices.
pub proof fn synchronised_total_is_realized_and_unrealized(
    books: Books,
    report: AccountReport,
    today: Seq<char>,
)
    requires
        ({
            let after = after_sync(books, report, today);
            &&& books.initial_balance.finite()
            &&& after.realized_pnl.finite()
            &&& after.unrealized_pnl.finite()
            &&& books.initial_balance.plus(after.realized_pnl).finite()
            &&& after.equity.finite()
            &&& total_pnl(after).finite()
        }),
    ensures
        ({
            let after = after_sync(books, report, today);
            &&& BINADE * distance(
                total_pnl(after).value(),
                after.realized_pnl.value() + after.unrealized_pnl.value(),
            ) <= 4 * (distance(books.initial_balance.value(), 0) + distance(after.realized_pnl.value(), 0)
                + distance(after.unrealized_pnl.value(), 0))
            &&& after.unrealized_pnl == report.unrealized_pnl
            &&& after.positions == report.positions
            &&& after.yes_prices == report.yes_prices
            &&& after.initial_balance == books.initial_balance
            &&& after.recent_trades == books.recent_trades
            &&& after.trade_count == books.trade_count
            &&& after.skip_reasons == books.skip_reasons
        }),
{
    let after = after_sync(books, report, today);
    let first = books.initial_balance.plus(after.realized_pnl);
    lemma_sum_error(books.initial_balance, after.realized_pnl);
    lemma_sum_error(first, after.unrealized_pnl);
    lemma_difference_error(after.equity, books.initial_balance);
    lemma_total(
        BINADE as int,
        books.initial_balance.value(),
        after.realized_pnl.value(),
        after.unrealized_pnl.value(),
        first.value(),
        after.equity.value(),
        total_pnl(after).value(),
    );
}

} // verus!
