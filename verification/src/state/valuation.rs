//! What positions are worth where no price was seen.

use crate::double::accuracy::{
    distance, lemma_difference, lemma_positive_difference, lemma_price, lemma_rounding_error,
    product_undoes_quotient,
};
use crate::double::laws::{
    lemma_one, lemma_order, lemma_packed, lemma_positive, lemma_zero, ordinary, sum_with_zero,
};
use crate::double::rounding::{
    lemma_increasing, lemma_machine_powers, lemma_rounded_exact, lemma_rounded_monotone, rounded,
    steps, BINADE, UNIT_SHIFT,
};
use crate::double::{fraction, lemma_steps_zero, Double};
use crate::state::model::{implied_yes_price, notional, quotable, valuation_price, worth};
use crate::state::MarketPosition;
use vstd::arithmetic::power2::{
    lemma2_to64, lemma_pow2_adds, lemma_pow2_pos, lemma_pow2_strictly_increases, pow2,
};
use vstd::prelude::*;

verus! {

/// Whether some shares of one outcome are held, for what was paid for them.
pub open spec fn is_holding(shares: Double, cost: Double) -> bool {
    &&& fraction(0, 1).below(shares)
    &&& shares.finite()
    &&& fraction(0, 1).at_most(cost)
    &&& !cost.negative()
    &&& cost.finite()
}

/// Whether a market is held on its YES side alone.
pub open spec fn is_yes_only(pos: MarketPosition) -> bool {
    &&& is_holding(pos.yes_shares, pos.yes_cost_usdc)
    &&& pos.no_shares == fraction(0, 1)
    &&& pos.no_cost_usdc == fraction(0, 1)
}

/// Whether a market is held on its NO side alone.
pub open spec fn is_no_only(pos: MarketPosition) -> bool {
    &&& is_holding(pos.no_shares, pos.no_cost_usdc)
    &&& pos.yes_shares == fraction(0, 1)
    &&& pos.yes_cost_usdc == fraction(0, 1)
}

/// None of a thing is worth nothing.
proof fn lemma_zero_product(x: Double)
    requires
        ordinary(x),
        x.finite(),
    ensures
        fraction(0, 1).times(x) == fraction(0, 1),
{
    let u = pow2(UNIT_SHIFT as nat);
    lemma_zero();
    lemma_steps_zero();
    lemma_pow2_pos(UNIT_SHIFT as nat);
    assert(0 * steps(x.magnitude()) == 0 && 0 * u == 0) by (nonlinear_arith);
    lemma_rounded_exact(0, u, 0);
}

/// A number that was made quotable lies in the range of quotes and stays there.
pub proof fn lemma_quotable(x: Double)
    requires
        !x.not_a_number(),
    ensures
        ordinary(quotable(x)),
        quotable(x).finite(),
        quotable(x).magnitude() >= 2 * BINADE,
        quotable(x).at_most(fraction(1, 1)),
        quotable(quotable(x)) == quotable(x),
{
    let (low, high) = (fraction(1, 10_000), fraction(9999, 10_000));
    let u = pow2(UNIT_SHIFT as nat);
    lemma_price(1, 10_000);
    lemma_price(9999, 10_000);
    lemma_one();
    lemma_steps_zero();
    lemma_increasing(0, low.magnitude());
    assert((1 * u) * 10_000 <= (9999 * u) * 10_000) by (nonlinear_arith);
    lemma_rounded_monotone(1 * u, 10_000, 9999 * u, 10_000);
    lemma_order(low, high);
    lemma_order(high, fraction(1, 1));
    if !x.below(low) && !high.below(x) {
        lemma_positive(x);
        lemma_order(low, x);
        lemma_order(x, high);
    }
}

/// The least and the greatest quote add up to one, up to rounding, and the greatest
/// is less than one.
pub proof fn lemma_quotes()
    ensures
        ({
            let u = pow2(UNIT_SHIFT as nat);
            let low = steps(fraction(1, 10_000).magnitude());
            let high = steps(fraction(9999, 10_000).magnitude());
            &&& 2 * BINADE * distance((low + high) as int, u as int) <= u + 2 * BINADE
            &&& 0 < low
            &&& high < u
            &&& 8 * BINADE < u
        }),
{
    let u = pow2(UNIT_SHIFT as nat);
    let (low, high) = (fraction(1, 10_000), fraction(9999, 10_000));
    lemma_price(1, 10_000);
    lemma_price(9999, 10_000);
    lemma_rounded_monotone(1 * u, 10_000, 1 * u, 10_000);
    lemma_rounded_monotone(9999 * u, 10_000, 9999 * u, 10_000);
    lemma_packed(rounded(1 * u, 10_000));
    lemma_packed(rounded(9999 * u, 10_000));
    lemma_rounding_error(1 * u, 10_000);
    lemma_rounding_error(9999 * u, 10_000);
    lemma_steps_zero();
    lemma_increasing(0, low.magnitude());
    lemma_machine_powers();
    lemma2_to64();
    lemma_pow2_adds(53, 14);
    lemma_pow2_strictly_increases(67, UNIT_SHIFT as nat);
}

/// One minus a quote, moved into the range of quotes, is one minus the quote up to
/// rounding.
pub proof fn lemma_complement(x: Double)
    requires
        ordinary(x),
        quotable(x) == x,
    ensures
        ({
            let y = quotable(fraction(1, 1).minus(x));
            let u = pow2(UNIT_SHIFT as nat);
            &&& ordinary(y)
            &&& y.finite()
            &&& y.at_most(fraction(1, 1))
            &&& quotable(y) == y
            &&& 2 * BINADE * distance(y.value(), u - x.value()) <= 2 * u + BINADE
        }),
{
    let (low, high) = (fraction(1, 10_000), fraction(9999, 10_000));
    let one = fraction(1, 1);
    let u = pow2(UNIT_SHIFT as nat);
    let rest = one.minus(x);
    lemma_one();
    lemma_quotes();
    lemma_price(1, 10_000);
    lemma_price(9999, 10_000);
    lemma_order(x, one);
    lemma_positive_difference(one, x);
    lemma_quotable(rest);
    let exact = (u - x.value()) as nat;
    lemma_order(rest, one);
    assert(rest.magnitude() == rounded(exact, 1));
    lemma_rounding_error(exact, 1);
    lemma_rounded_exact(steps(low.magnitude()), 1, low.magnitude());
    lemma_rounded_exact(steps(high.magnitude()), 1, high.magnitude());
    lemma_order(rest, low);
    lemma_order(high, rest);
    if rest.below(low) {
        if exact >= steps(low.magnitude()) {
            lemma_rounded_monotone(steps(low.magnitude()), 1, exact, 1);
        }
        assert(x.at_most(high));
        let (l, h) = (steps(low.magnitude()) as int, steps(high.magnitude()) as int);
        assert(2 * BINADE * (l - exact) <= 2 * BINADE * (l + h - u)) by (nonlinear_arith)
            requires
                l - exact <= l + h - u,
        ;
    } else if high.below(rest) {
        if exact <= steps(high.magnitude()) {
            lemma_rounded_monotone(exact, 1, steps(high.magnitude()), 1);
        }
        assert(low.at_most(x));
        let (l, h) = (steps(low.magnitude()) as int, steps(high.magnitude()) as int);
        assert(2 * BINADE * (exact - h) <= 2 * BINADE * (u - l - h)) by (nonlinear_arith)
            requires
                exact - h <= u - l - h,
        ;
    }
}

/// A market that is held on its YES side alone, and of which no price was seen, is
/// worth what was paid for it, up to one last place of rounding, while its average
/// price is one that can be quoted: it adds nothing to the unrealized profit.
pub proof fn unpriced_yes_side_is_worth_its_cost(pos: MarketPosition)
    requires
        is_yes_only(pos),
        quotable(pos.yes_cost_usdc.over(pos.yes_shares)) == pos.yes_cost_usdc.over(pos.yes_shares),
    ensures
        notional(pos) == pos.yes_cost_usdc,
        ordinary(worth(pos, valuation_price(pos, None))),
        notional(pos).magnitude() - 1 <= worth(pos, valuation_price(pos, None)).magnitude()
            <= notional(pos).magnitude() + 1,
{
    let (shares, cost) = (pos.yes_shares, pos.yes_cost_usdc);
    let average = cost.over(shares);
    let rest = fraction(1, 1).minus(average);
    lemma_zero();
    lemma_positive(shares);
    lemma_steps_zero();
    lemma_increasing(0, shares.magnitude());
    let n = steps(cost.magnitude()) * pow2(UNIT_SHIFT as nat);
    lemma_rounded_monotone(n, steps(shares.magnitude()), n, steps(shares.magnitude()));
    lemma_packed(rounded(n, steps(shares.magnitude())));
    lemma_quotable(average);
    assert(implied_yes_price(pos) == average);
    assert(valuation_price(pos, None) == average);
    sum_with_zero(cost);
    product_undoes_quotient(cost, shares);
    lemma_one();
    lemma_difference(fraction(1, 1), average);
    lemma_quotable(rest);
    lemma_zero_product(quotable(rest));
    sum_with_zero(shares.times(average));
}

/// The bound on what rounding makes of a NO side.
proof fn lemma_no_side(u: int, base: int, s: int, c: int, p: int, y: int, v: int, w: int)
    requires
        base > 0,
        3 * base <= u,
        0 <= c <= s,
        0 <= p <= u,
        0 <= y <= u,
        0 <= v <= u,
        2 * base * distance(p * s, c * u) <= c * u + base * s,
        2 * base * distance(y, u - p) <= 2 * u + base,
        2 * base * distance(v, u - y) <= 2 * u + base,
        2 * base * distance(w * u, s * v) <= s * v + base * u,
    ensures
        2 * base * distance(w, c) <= 7 * s + base,
{
    let apart = distance(v, p);
    assert(2 * base * apart <= 2 * base * distance(v, u - y) + 2 * base * distance(y, u - p))
        by (nonlinear_arith)
        requires
            apart <= distance(v, u - y) + distance(y, u - p),
            base > 0,
    ;
    assert(base * apart <= 2 * u + base) by (nonlinear_arith)
        requires
            2 * base * apart <= 2 * (2 * u + base),
    ;
    assert(distance(s * v, p * s) <= s * apart) by (nonlinear_arith)
        requires
            apart == distance(v, p),
            s >= 0,
    ;
    assert(base * (s * apart) <= s * (2 * u + base)) by (nonlinear_arith)
        requires
            base * apart <= 2 * u + base,
            s >= 0,
    ;
    let total = distance(w * u, c * u);
    assert(2 * base * total <= 2 * base * distance(w * u, s * v) + 2 * (base * (s * apart)) + 2 * base
        * distance(p * s, c * u)) by (nonlinear_arith)
        requires
            total <= distance(w * u, s * v) + distance(s * v, p * s) + distance(p * s, c * u),
            distance(s * v, p * s) <= s * apart,
            base > 0,
    ;
    assert(s * v <= s * u && c * u <= s * u && 3 * (s * base) <= s * u) by (nonlinear_arith)
        requires
            0 <= v <= u,
            0 <= c <= s,
            3 * base <= u,
            base > 0,
    ;
    assert(s * (2 * u + base) == 2 * (s * u) + s * base && base * s == s * base) by (nonlinear_arith);
    assert(2 * base * total <= 7 * (s * u) + base * u);
    assert(total == distance(w, c) * u) by (nonlinear_arith)
        requires
            total == distance(w * u, c * u),
            u > 0,
    ;
    assert(2 * base * distance(w, c) <= 7 * s + base) by (nonlinear_arith)
        requires
            2 * base * total <= 7 * (s * u) + base * u,
            total == distance(w, c) * u,
            u > 0,
    {
        assert(2 * base * total == (2 * base * distance(w, c)) * u);
        assert(7 * (s * u) + base * u == (7 * s + base) * u);
    }
}

/// A market that is held on its NO side alone, and of which no price was seen, is
/// worth what was paid for it while its average price is one that can be quoted: it
/// adds nothing to the unrealized profit but rounding, at most seven halves of the
/// last of 53 binary places per share, or half of the smallest number.
pub proof fn unpriced_no_side_is_worth_its_cost(pos: MarketPosition)
    requires
        is_no_only(pos),
        quotable(pos.no_cost_usdc.over(pos.no_shares)) == pos.no_cost_usdc.over(pos.no_shares),
    ensures
        notional(pos) == pos.no_cost_usdc,
        worth(pos, valuation_price(pos, None)).finite(),
        2 * BINADE * distance(worth(pos, valuation_price(pos, None)).value(), notional(pos).value()) <= 7
            * pos.no_shares.value() + BINADE,
{
    let (shares, cost) = (pos.no_shares, pos.no_cost_usdc);
    let one = fraction(1, 1);
    let average = cost.over(shares);
    let yes_price = quotable(one.minus(average));
    let no_price = quotable(one.minus(yes_price));
    let u = pow2(UNIT_SHIFT as nat);
    let (c, s) = (steps(cost.magnitude()), steps(shares.magnitude()));
    lemma_zero();
    lemma_one();
    lemma_quotes();
    lemma_positive(shares);
    lemma_steps_zero();
    lemma_increasing(0, shares.magnitude());
    let n = c * u;
    lemma_rounded_monotone(n, s, n, s);
    lemma_packed(rounded(n, s));
    lemma_quotable(average);
    lemma_order(average, one);
    lemma_complement(average);
    assert(implied_yes_price(pos) == yes_price);
    assert(valuation_price(pos, None) == yes_price);
    lemma_order(yes_price, one);
    lemma_complement(yes_price);
    lemma_order(no_price, one);
    sum_with_zero(cost);
    lemma_zero_product(yes_price);
    let (p, y, v) = (steps(average.magnitude()), steps(yes_price.magnitude()), steps(no_price.magnitude()));
    // The product is no more than the number of shares.
    lemma_pow2_pos(UNIT_SHIFT as nat);
    assert((s * v) * 1 <= s * u) by (nonlinear_arith)
        requires
            v <= u,
    ;
    lemma_rounded_exact(s, 1, shares.magnitude());
    lemma_rounded_monotone(s * v, u, s, 1);
    lemma_packed(rounded(s * v, u));
    sum_with_zero(shares.times(no_price));
    if c > s {
        assert(u * s <= n * 1) by (nonlinear_arith)
            requires
                n == c * u,
                c > s,
        ;
        lemma_rounded_exact(u, 1, one.magnitude());
        lemma_rounded_monotone(u, 1, n, s);
        lemma_price(9999, 10_000);
        lemma_order(average, fraction(9999, 10_000));
        if fraction(9999, 10_000).magnitude() < average.magnitude() {
            lemma_increasing(fraction(9999, 10_000).magnitude(), average.magnitude());
        }
        lemma_order(one, average);
    }
    lemma_rounding_error(n, s);
    lemma_rounding_error(s * v, u);
    lemma_no_side(
        u as int,
        BINADE as int,
        s as int,
        c as int,
        p as int,
        y as int,
        v as int,
        steps(rounded(s * v, u)) as int,
    );
}

} // verus!
