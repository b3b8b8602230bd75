//! Protective prices and drift, in exact numbers.

use crate::config::Config;
use crate::double::accuracy::{
    distance, lemma_difference_error, lemma_over_number, lemma_positive_difference, lemma_price,
    lemma_rounding_error, lemma_sum_error,
};
use crate::double::laws::{
    is_amount, lemma_number, lemma_one, lemma_order, lemma_packed, lemma_positive,
    lemma_product_sign, lemma_sum_sign, lemma_zero,
};
use crate::double::rounding::{
    lemma_increasing, lemma_rounded_exact, lemma_rounded_monotone, rounded, steps, BINADE,
    UNIT_SHIFT,
};
use crate::double::{fraction, lemma_steps_zero, lemma_whole, Double};
use crate::investigation::accuracy::lemma_room;
use crate::state::valuation::lemma_quotes;
use crate::trading::accuracy::unit;
use crate::trading::decision::{CopyPlan, SkipReason, TradeSide};
use crate::trading::live::{live_step, Action, Event, Stage};
use vstd::arithmetic::power2::pow2;
use vstd::prelude::*;

verus! {

/// What the errors of a protective price come to: `q` is the quote, `s` the distance in
/// basis points, `f` as a fraction, `g` the same with its sign, `m` one with it, and `p`
/// the price.
proof fn lemma_protective(u: int, b: int, q: int, s: int, f: int, g: int, m: int, p: int)
    requires
        8 <= b,
        0x1_0000_0000 * b <= u,
        0 <= q <= u,
        0 <= s <= 5000 * u,
        0 <= f,
        g == f || g == -f,
        0 <= m,
        2 * b * distance(10_000 * f, s) <= s + b * 10_000,
        2 * b * distance(m, u + g) <= distance(u + g, 0),
        2 * b * distance(p * u, q * m) <= q * m + b * u,
    ensures
        b * distance(10_000 * (p * u), q * (10_000 * u + if g == f {
            s
        } else {
            -s
        })) <= 37_500 * (u * u),
{
    let t = if g == f {
        s
    } else {
        -s
    };
    let e1 = distance(10_000 * f, s);
    let e2 = distance(m, u + g);
    let e3 = distance(p * u, q * m);
    assert(e1 <= 5000 * u) by (nonlinear_arith)
        requires
            2 * b * e1 <= s + b * 10_000,
            s <= 5000 * u,
            0x1_0000_0000 * b <= u,
            b >= 8,
            e1 >= 0,
    ;
    assert(f <= u);
    assert(e2 <= u) by (nonlinear_arith)
        requires
            2 * b * e2 <= 2 * u,
            b >= 8,
            e2 >= 0,
    ;
    assert(m <= 3 * u);
    let x = 10_000 * (p * u) - q * (10_000 * u + t);
    let (d1, d2, d3) = (10_000 * g - t, m - (u + g), p * u - q * m);
    assert(x == 10_000 * d3 + 10_000 * (q * d2) + q * d1) by (nonlinear_arith)
        requires
            x == 10_000 * (p * u) - q * (10_000 * u + t),
            d1 == 10_000 * g - t,
            d2 == m - (u + g),
            d3 == p * u - q * m,
    ;
    assert(-e1 <= d1 <= e1 && -e2 <= d2 <= e2 && -e3 <= d3 <= e3);
    assert(q * d2 <= q * e2 && -(q * d2) <= q * e2 && q * d1 <= q * e1 && -(q * d1) <= q * e1)
        by (nonlinear_arith)
        requires
            q >= 0,
            -e1 <= d1 <= e1,
            -e2 <= d2 <= e2,
    ;
    let a = distance(10_000 * (p * u), q * (10_000 * u + t));
    assert(a <= 10_000 * e3 + 10_000 * (q * e2) + q * e1);
    let w = u * u;
    assert(2 * b * e3 <= 4 * w && q * (2 * b * e2) <= 2 * w && q * (2 * b * e1) <= 5001 * w)
        by (nonlinear_arith)
        requires
            2 * b * e3 <= q * m + b * u,
            0 <= q <= u,
            0 <= m <= 3 * u,
            0x1_0000_0000 * b <= u,
            b > 0,
            0 <= 2 * b * e2 <= 2 * u,
            0 <= 2 * b * e1 <= s + b * 10_000,
            s <= 5000 * u,
            w == u * u,
    {
        assert(q * m <= u * (3 * u));
        assert(b * u <= u * u);
        assert(q * (2 * b * e2) <= u * (2 * u));
        assert(2 * b * e1 <= 5001 * u);
        assert(q * (2 * b * e1) <= u * (5001 * u));
    }
    assert(2 * (b * a) <= 10_000 * (2 * b * e3) + 10_000 * (q * (2 * b * e2)) + q * (2 * b * e1))
        by (nonlinear_arith)
        requires
            a <= 10_000 * e3 + 10_000 * (q * e2) + q * e1,
            b > 0,
    ;
}

/// One with and without a fraction of it, and a quote times that.
proof fn lemma_parts(quote: Double, slip: Double, adding: bool)
    requires
        fraction(0, 1).below(quote),
        quote.below(fraction(1, 1)),
        is_amount(slip),
        slip.value() <= 5000 * unit(),
    ensures
        ({
            let f = slip.over(fraction(10_000, 1));
            let m = if adding {
                fraction(1, 1).plus(f)
            } else {
                fraction(1, 1).minus(f)
            };
            let p = quote.times(m);
            &&& is_amount(p)
            &&& BINADE * distance(10_000 * (p.value() * unit()), quote.value() * (10_000 * unit() + if adding {
                slip.value()
            } else {
                -slip.value()
            })) <= 37_500 * (unit() * unit())
        }),
{
    let one = fraction(1, 1);
    let f = slip.over(fraction(10_000, 1));
    let u = unit();
    let b = BINADE as int;
    let uu = pow2(UNIT_SHIFT as nat);
    lemma_zero();
    lemma_one();
    lemma_quotes();
    lemma_room();
    lemma_steps_zero();
    lemma_positive(quote);
    lemma_order(quote, one);
    lemma_over_number(slip, 10_000);
    // Half of one at most.
    assert(f.value() <= u) by (nonlinear_arith)
        requires
            2 * b * distance(10_000 * f.value(), slip.value()) <= slip.value() + b * 10_000,
            10_000 * f.value() - slip.value() <= distance(10_000 * f.value(), slip.value()),
            slip.value() <= 5000 * u,
            0x1_0000_0000 * b <= u,
            b >= 8,
            distance(10_000 * f.value(), slip.value()) >= 0,
    ;
    if f.magnitude() > one.magnitude() {
        lemma_increasing(one.magnitude(), f.magnitude());
    }
    lemma_order(f, one);
    let m = if adding {
        one.plus(f)
    } else {
        one.minus(f)
    };
    lemma_number(2);
    if adding {
        lemma_sum_sign(one, f);
        let sum = (u + f.value()) as nat;
        assert(sum * 1 <= (2 * uu) * 1);
        lemma_whole(2);
        lemma_rounded_monotone(sum, 1, 2 * uu, 1);
        lemma_packed(rounded(sum, 1));
        lemma_sum_error(one, f);
    } else {
        assert(f.value() < u) by (nonlinear_arith)
            requires
                2 * b * distance(10_000 * f.value(), slip.value()) <= slip.value() + b * 10_000,
                10_000 * f.value() - slip.value() <= distance(10_000 * f.value(), slip.value()),
                slip.value() <= 5000 * u,
                0x1_0000_0000 * b <= u,
                b >= 8,
                u > 0,
                distance(10_000 * f.value(), slip.value()) >= 0,
        ;
        lemma_positive_difference(one, f);
        lemma_order(m, one);
        lemma_difference_error(one, f);
    }
    assert(is_amount(m));
    let p = quote.times(m);
    lemma_product_sign(quote, m);
    let n = steps(quote.magnitude()) * steps(m.magnitude());
    assert(m.value() <= 3 * u) by {
        let e = distance(m.value(), u + if adding {
            f.value()
        } else {
            -f.value()
        });
        assert(e <= u) by (nonlinear_arith)
            requires
                2 * b * e <= 2 * u,
                b >= 8,
                e >= 0,
        ;
    }
    lemma_whole(3);
    assert(n * 1 <= (3 * uu) * uu) by (nonlinear_arith)
        requires
            n == quote.value() * m.value(),
            0 <= quote.value() <= uu,
            0 <= m.value() <= 3 * uu,
    ;
    lemma_rounded_monotone(n, uu, 3 * uu, 1);
    lemma_packed(rounded(n, uu));
    lemma_rounding_error(n, uu);
    lemma_protective(
        u,
        b,
        quote.value(),
        slip.value(),
        f.value(),
        if adding {
            f.value()
        } else {
            -f.value()
        },
        m.value(),
        p.value(),
    );
    if f.value() == 0 {
        lemma_no_slip(u, b, quote.value(), slip.value(), f.value(), m.value(), p.value());
    }
}

/// Where the fraction vanishes, so does what it is made of, up to rounding.
proof fn lemma_no_slip(u: int, b: int, q: int, s: int, f: int, m: int, p: int)
    requires
        8 <= b,
        0x1_0000_0000 * b <= u,
        0 <= q <= u,
        0 <= s,
        f == 0,
        0 <= m,
        2 * b * distance(10_000 * f, s) <= s + b * 10_000,
        2 * b * distance(m, u) <= u,
        2 * b * distance(p * u, q * m) <= q * m + b * u,
    ensures
        b * distance(10_000 * (p * u), q * (10_000 * u - s)) <= 37_500 * (u * u),
{
    assert(s <= 10_000) by (nonlinear_arith)
        requires
            2 * b * s <= s + b * 10_000,
            b >= 8,
            s >= 0,
    ;
    let e2 = distance(m, u);
    let e3 = distance(p * u, q * m);
    let a = distance(10_000 * (p * u), q * (10_000 * u - s));
    assert(e2 <= u) by (nonlinear_arith)
        requires
            2 * b * e2 <= u,
            b >= 8,
            e2 >= 0,
    ;
    let (d2, d3) = (m - u, p * u - q * m);
    assert(10_000 * (p * u) - q * (10_000 * u - s) == 10_000 * d3 + 10_000 * (q * d2) + q * s) by (nonlinear_arith)
        requires
            d2 == m - u,
            d3 == p * u - q * m,
    ;
    assert(q * d2 <= q * e2 && -(q * d2) <= q * e2 && 0 <= q * s) by (nonlinear_arith)
        requires
            q >= 0,
            s >= 0,
            -e2 <= d2 <= e2,
    ;
    assert(a <= 10_000 * e3 + 10_000 * (q * e2) + q * s);
    let w = u * u;
    assert(2 * b * e3 <= 3 * w && q * (2 * b * e2) <= w && 2 * b * (q * s) <= w) by (nonlinear_arith)
        requires
            2 * b * e3 <= q * m + b * u,
            0 <= q <= u,
            0 <= m <= 2 * u,
            0x1_0000_0000 * b <= u,
            b > 0,
            0 <= 2 * b * e2 <= u,
            0 <= s <= 10_000,
            w == u * u,
    {
        assert(q * m <= u * (2 * u));
        assert(b * u <= u * u);
        assert(q * (2 * b * e2) <= u * u);
        assert(2 * b * (q * s) == q * (2 * b * s));
        assert(2 * b * s <= u);
        assert(q * (2 * b * s) <= u * u);
    }
    assert(2 * (b * a) <= 10_000 * (2 * b * e3) + 10_000 * (q * (2 * b * e2)) + 2 * b * (q * s))
        by (nonlinear_arith)
        requires
            a <= 10_000 * e3 + 10_000 * (q * e2) + q * s,
            b > 0,
    ;
}

/// The protective price of a purchase lies above the quote, and that of a sale below it,
/// by the allowed slippage, up to rounding; but never above 0.9999 or below 0.0001.
pub proof fn protective_price_follows_the_quote(plan: CopyPlan, config: Config, quote: Double)
    requires
        plan.side == TradeSide::Buy || plan.side == TradeSide::Sell,
        fraction(0, 1).below(quote),
        quote.below(fraction(1, 1)),
        is_amount(config.max_order_slippage_bps),
        config.max_order_slippage_bps.at_most(fraction(5000, 1)),
        quote.minus(plan.market_price).unsigned().over(plan.market_price).times(fraction(10_000, 1)).at_most(
            config.max_copy_price_drift_bps,
        ),
    ensures
        live_step(plan, config, Stage::Quote, Event::Quoted(Some(Some(quote)))).0 == Stage::Price,
        live_step(plan, config, Stage::Quote, Event::Quoted(Some(Some(quote)))).1 matches Action::ConvertPrice(
            price,
        ) && {
            let u = unit();
            let slip = config.max_order_slippage_bps.value();
            let most = fraction(9999, 10_000);
            let least = fraction(1, 10_000);
            let above = quote.value() * (10_000 * u + slip);
            let below = quote.value() * (10_000 * u - slip);
            &&& plan.side == TradeSide::Buy ==> {
                &&& price.at_most(most)
                &&& BINADE * distance(10_000 * (price.value() * u), above) <= 37_500 * (u * u) || (price == most
                    && BINADE * (10_000 * (most.value() * u) - above) <= 37_500 * (u * u))
            }
            &&& plan.side == TradeSide::Sell ==> {
                &&& least.at_most(price)
                &&& BINADE * distance(10_000 * (price.value() * u), below) <= 37_500 * (u * u) || (price == least
                    && BINADE * (below - 10_000 * (least.value() * u)) <= 37_500 * (u * u))
            }
        },
{
    let slip = config.max_order_slippage_bps;
    let u = unit();
    let b = BINADE as int;
    lemma_number(5000);
    lemma_one();
    lemma_quotes();
    lemma_price(9999, 10_000);
    lemma_price(1, 10_000);
    let f = slip.over(fraction(10_000, 1));
    if plan.side == TradeSide::Buy {
        lemma_parts(quote, slip, true);
        let p = quote.times(fraction(1, 1).plus(f));
        let most = fraction(9999, 10_000);
        if most.below(p) {
            let above = quote.value() * (10_000 * u + slip.value());
            lemma_clamped(u, b, p.value(), most.value(), above, 37_500 * (u * u));
        }
    } else {
        lemma_parts(quote, slip, false);
        let p = quote.times(fraction(1, 1).minus(f));
        let least = fraction(1, 10_000);
        if p.below(least) {
            let below = quote.value() * (10_000 * u - slip.value());
            assert((-p.value()) * u == -(p.value() * u) && (-least.value()) * u == -(least.value() * u))
                by (nonlinear_arith);
            lemma_clamped(u, b, -p.value(), -least.value(), -below, 37_500 * (u * u));
        }
    }
}

/// A price that was moved down lay above the end of the range, up to its error.
proof fn lemma_clamped(u: int, b: int, p: int, end: int, target: int, error: int)
    requires
        u > 0,
        b > 0,
        end < p,
        b * distance(10_000 * (p * u), target) <= error,
    ensures
        b * (10_000 * (end * u) - target) <= error,
{
    assert(end * u <= p * u) by (nonlinear_arith)
        requires
            end < p,
            u > 0,
    ;
    let d = distance(10_000 * (p * u), target);
    assert(10_000 * (end * u) - target <= d);
    assert(b * (10_000 * (end * u) - target) <= b * d) by (nonlinear_arith)
        requires
            10_000 * (end * u) - target <= d,
            b > 0,
    ;
}

/// What the errors of a drift come to: `p` is the price, `g` the distance of the quote
/// from it exactly and `d` rounded, `r` that as a share of the price, and `y` in basis
/// points.
proof fn lemma_drift(u: int, b: int, p: int, g: int, d: int, r: int, y: int)
    requires
        8 <= b,
        u > 0,
        p > 0,
        g >= 0,
        d >= 0,
        r >= 0,
        2 * b * distance(d, g) <= g,
        2 * b * distance(r * p, d * u) <= d * u + b * p,
        2 * b * distance(y, 10_000 * r) <= 10_000 * r + b,
    ensures
        2 * b * distance(y * p, 10_000 * (g * u)) <= 50_000 * (g * u) + 20_000 * (b * p),
{
    let (e1, e2, e3) = (distance(d, g), distance(r * p, d * u), distance(y, 10_000 * r));
    assert(16 * e1 <= g) by (nonlinear_arith)
        requires
            2 * b * e1 <= g,
            b >= 8,
            e1 >= 0,
    ;
    let v = g * u;
    assert(16 * (d * u) <= 17 * v && 0 <= v) by (nonlinear_arith)
        requires
            16 * d <= 17 * g,
            v == g * u,
            u > 0,
            g >= 0,
    ;
    assert(16 * e2 <= d * u + 8 * p) by (nonlinear_arith)
        requires
            2 * b * e2 <= d * u + b * p,
            d * u >= 0,
            p > 0,
            b >= 8,
            e2 >= 0,
    {
        assert(b * (2 * e2 - p) <= d * u);
        if 2 * e2 - p > 0 {
            assert(8 * (2 * e2 - p) <= b * (2 * e2 - p));
        }
    }
    assert(r * p <= 2 * v + p);
    let (f1, f2, f3) = (d - g, r * p - d * u, y - 10_000 * r);
    assert(y * p - 10_000 * v == p * f3 + 10_000 * f2 + 10_000 * (u * f1)) by (nonlinear_arith)
        requires
            f1 == d - g,
            f2 == r * p - d * u,
            f3 == y - 10_000 * r,
            v == g * u,
    ;
    assert(p * f3 <= p * e3 && -(p * f3) <= p * e3 && u * f1 <= u * e1 && -(u * f1) <= u * e1)
        by (nonlinear_arith)
        requires
            p > 0,
            u > 0,
            -e3 <= f3 <= e3,
            -e1 <= f1 <= e1,
    ;
    let a = distance(y * p, 10_000 * v);
    assert(a <= p * e3 + 10_000 * e2 + 10_000 * (u * e1));
    assert(2 * b * a <= p * (2 * b * e3) + 10_000 * (2 * b * e2) + 10_000 * (u * (2 * b * e1)))
        by (nonlinear_arith)
        requires
            a <= p * e3 + 10_000 * e2 + 10_000 * (u * e1),
            b > 0,
    ;
    assert(p * (2 * b * e3) <= 10_000 * (r * p) + b * p && u * (2 * b * e1) <= v) by (nonlinear_arith)
        requires
            2 * b * e3 <= 10_000 * r + b,
            2 * b * e1 <= g,
            p > 0,
            u > 0,
            v == g * u,
    ;
    assert(8 * p <= b * p) by (nonlinear_arith)
        requires
            b >= 8,
            p > 0,
    ;
}

/// A quote is taken where it lies less than the allowed drift from the copied price, and
/// given up where it lies further; only where the two differ by no more than rounding
/// either may come of it.
pub proof fn drift_is_measured(plan: CopyPlan, config: Config, quote: Double)
    requires
        fraction(0, 1).below(quote),
        quote.below(fraction(1, 1)),
        fraction(1, 10_000).at_most(plan.market_price),
        plan.market_price.below(fraction(1, 1)),
        is_amount(config.max_copy_price_drift_bps),
    ensures
        ({
            let u = unit();
            let p = plan.market_price.value();
            let gap = distance(quote.value(), p);
            let most = config.max_copy_price_drift_bps.value();
            let error = 50_000 * (gap * u) + 20_000 * (BINADE * p);
            let action = live_step(plan, config, Stage::Quote, Event::Quoted(Some(Some(quote)))).1;
            &&& 2 * BINADE * (most * p - 10_000 * (gap * u)) >= error ==> action is ConvertPrice
            &&& 2 * BINADE * (10_000 * (gap * u) - most * p) > error ==> action == Action::GiveUp(
                SkipReason::PriceDriftTooLarge,
            )
        }),
{
    let one = fraction(1, 1);
    let price = plan.market_price;
    let low = fraction(1, 10_000);
    let u = unit();
    let b = BINADE as int;
    let uu = pow2(UNIT_SHIFT as nat);
    lemma_zero();
    lemma_one();
    lemma_quotes();
    lemma_room();
    lemma_steps_zero();
    lemma_price(1, 10_000);
    lemma_positive(quote);
    lemma_order(quote, one);
    lemma_increasing(0, low.magnitude());
    lemma_order(price, one);
    // The least price is not much less than a ten-thousandth.
    lemma_rounded_monotone(1 * uu, 10_000, 1 * uu, 10_000);
    lemma_packed(rounded(1 * uu, 10_000));
    lemma_rounding_error(1 * uu, 10_000);
    assert(u <= 20_000 * low.value()) by (nonlinear_arith)
        requires
            2 * b * distance((low.value() * 10_000) as int, (1 * uu) as int) <= 1 * uu + b * 10_000,
            u - low.value() * 10_000 <= distance((low.value() * 10_000) as int, (1 * uu) as int),
            u == uu,
            0x1_0000_0000 * b <= u,
            b >= 8,
            distance((low.value() * 10_000) as int, (1 * uu) as int) >= 0,
    ;
    // The distance.
    let gap = distance(quote.value(), price.value());
    let diff = quote.minus(price);
    let d = diff.unsigned();
    lemma_gap(quote, price);
    lemma_packed(diff.magnitude());
    // Its share of the price.
    let n = steps(d.magnitude()) * uu;
    let k = steps(price.magnitude());
    lemma_increasing(0, price.magnitude());
    lemma_whole(20_000);
    assert(n * 1 <= (20_000 * uu) * k) by (nonlinear_arith)
        requires
            n == d.value() * uu,
            0 <= d.value() <= uu,
            uu <= 20_000 * k,
    ;
    let r = d.over(price);
    lemma_rounded_monotone(n, k, 20_000 * uu, 1);
    lemma_packed(rounded(n, k));
    lemma_rounding_error(n, k);
    assert(r.value() <= 20_000 * u) by {
        if rounded(n, k) < rounded(20_000 * uu, 1) {
            lemma_increasing(rounded(n, k), rounded(20_000 * uu, 1));
        }
    }
    // In basis points.
    let c = fraction(10_000, 1);
    lemma_number(10_000);
    let y = r.times(c);
    let m = steps(r.magnitude()) * steps(c.magnitude());
    lemma_whole(200_000_000);
    assert(m * 1 <= (200_000_000 * uu) * uu) by (nonlinear_arith)
        requires
            m == r.value() * (10_000 * uu),
            0 <= r.value() <= 20_000 * uu,
    {
        assert(r.value() * (10_000 * uu) <= (20_000 * uu) * (10_000 * uu));
        assert((20_000 * uu) * (10_000 * uu) == (200_000_000 * uu) * uu);
    }
    lemma_rounded_monotone(m, uu, 200_000_000 * uu, 1);
    lemma_packed(rounded(m, uu));
    lemma_rounding_error(m, uu);
    lemma_times_number(u, b, r.value(), 10_000, y.value());
    lemma_drift(u, b, price.value(), gap, d.value(), r.value(), y.value());
    let most = config.max_copy_price_drift_bps.value();
    lemma_either_side(b, price.value(), y.value(), most, 10_000 * (gap * u), 50_000 * (gap * u) + 20_000 * (b
        * price.value()));
    assert(live_step(plan, config, Stage::Quote, Event::Quoted(Some(Some(quote)))).1
        == if config.max_copy_price_drift_bps.below(y) {
        Action::GiveUp(SkipReason::PriceDriftTooLarge)
    } else {
        live_step(plan, config, Stage::Quote, Event::Quoted(Some(Some(quote)))).1
    });
}

/// The distance of two prices, rounded.
proof fn lemma_gap(a: Double, b: Double)
    requires
        is_amount(a),
        a.value() <= unit(),
        is_amount(b),
        b.value() <= unit(),
    ensures
        a.minus(b).finite(),
        a.minus(b).unsigned().value() <= unit(),
        is_amount(a.minus(b).unsigned()),
        2 * BINADE * distance(a.minus(b).unsigned().value(), distance(a.value(), b.value())) <= distance(
            a.value(),
            b.value(),
        ),
{
    let one = fraction(1, 1);
    let gap = distance(a.value(), b.value()) as nat;
    lemma_one();
    lemma_steps_zero();
    lemma_packed(b.magnitude());
    lemma_packed(0);
    lemma_rounded_exact(steps(one.magnitude()), 1, one.magnitude());
    lemma_rounded_monotone(gap, 1, steps(one.magnitude()), 1);
    lemma_packed(rounded(gap, 1));
    if rounded(gap, 1) < one.magnitude() {
        lemma_increasing(rounded(gap, 1), one.magnitude());
    }
    lemma_difference_error(a, b);
    lemma_packed(a.minus(b).magnitude());
}

/// A product with a whole number.
proof fn lemma_times_number(u: int, b: int, r: int, c: int, y: int)
    requires
        u > 0,
        2 * b * distance(y * u, r * (c * u)) <= r * (c * u) + b * u,
    ensures
        2 * b * distance(y, c * r) <= c * r + b,
{
    let e = distance(y * u, r * (c * u));
    let f = distance(y, c * r);
    assert(e == u * f) by (nonlinear_arith)
        requires
            u > 0,
            e == (if y * u >= r * (c * u) {
                y * u - r * (c * u)
            } else {
                r * (c * u) - y * u
            }),
            f == (if y >= c * r {
                y - c * r
            } else {
                c * r - y
            }),
    {
        assert(r * (c * u) == u * (c * r));
        assert(u * y - u * (c * r) == u * (y - c * r));
        assert(u * (c * r) - u * y == u * (c * r - y));
    }
    assert(2 * b * f <= c * r + b) by (nonlinear_arith)
        requires
            2 * b * e <= r * (c * u) + b * u,
            e == u * f,
            u > 0,
    {
        assert(2 * b * (u * f) == u * (2 * b * f));
        assert(r * (c * u) + b * u == u * (c * r + b));
    }
}

/// A number that is close to another lies on the same side of a third that is not.
proof fn lemma_either_side(b: int, p: int, y: int, most: int, target: int, error: int)
    requires
        b > 0,
        p > 0,
        2 * b * distance(y * p, target) <= error,
    ensures
        2 * b * (most * p - target) >= error ==> y <= most,
        2 * b * (target - most * p) > error ==> most < y,
{
    let d = distance(y * p, target);
    if 2 * b * (most * p - target) >= error && y > most {
        assert(most * p < y * p) by (nonlinear_arith)
            requires
                most < y,
                p > 0,
        ;
        assert(2 * b * (most * p - target) < 2 * b * d) by (nonlinear_arith)
            requires
                most * p - target < d,
                b > 0,
        ;
    }
    if 2 * b * (target - most * p) > error && most >= y {
        assert(most * p >= y * p) by (nonlinear_arith)
            requires
                most >= y,
                p > 0,
        ;
        assert(2 * b * (target - most * p) <= 2 * b * d) by (nonlinear_arith)
            requires
                target - most * p <= d,
                b > 0,
        ;
    }
}

} // verus!
