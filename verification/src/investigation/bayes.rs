//! Win rates with a prior, their spread and what is left of them, in exact numbers.

use super::accuracy::{lemma_sum_times, lemma_wins, unit};
use super::scoring::{best_come_first, exponents, lowered, selected, TraderProfile};
use super::{is_assessment, is_profile, Assessment};
use crate::config::Config;
use crate::double::accuracy::{
    difference_is_not_greater, distance, lemma_difference, lemma_difference_error,
    lemma_over_number, lemma_rounding_error, lemma_sum_error, quotient_is_monotone,
};
use crate::double::laws::{
    difference_sign, is_amount, lemma_number, lemma_one, lemma_order, lemma_packed, lemma_positive,
    lemma_product_sign, lemma_sum_sign, lemma_zero, product_is_monotone, product_with_one,
    quotient_by_itself, sum_is_monotone, sum_with_zero,
};
use crate::double::rounding::{
    lemma_increasing, lemma_rounded_monotone, rounded, steps, BINADE, UNIT_SHIFT,
};
use crate::double::{fraction, lemma_steps_zero, Double};
use crate::order::{lemma_ranking_len, ranking, ranking_rearranges};
use crate::quantity::Quantity;
use crate::state::valuation::lemma_quotes;
use crate::trading::kelly::lemma_lose;
use vstd::arithmetic::power2::pow2;
use vstd::prelude::*;

verus! {

/// A further amount added to a sum: `s` is the sum exactly and `r` rounded, `t` the
/// amount, and `q` the new sum.
proof fn lemma_further(b: int, k: int, s: int, r: int, t: int, q: int)
    requires
        8 <= b,
        0 <= k <= b,
        0 <= s,
        0 <= t,
        2 * b * distance(r, s) <= k * s,
        2 * b * distance(q, r + t) <= distance(r + t, 0),
    ensures
        2 * b * distance(q, s + t) <= (k + 2) * (s + t),
        q <= 2 * (s + t),
{
    let d = distance(r, s);
    let e = distance(q, r + t);
    assert(2 * d <= s) by (nonlinear_arith)
        requires
            2 * b * d <= k * s,
            0 <= k <= b,
            b >= 8,
            s >= 0,
            d >= 0,
    {
        assert(k * s <= b * s);
        assert(b * (2 * d) <= b * s);
    }
    assert(distance(r + t, 0) <= 2 * (s + t));
    assert(2 * b * distance(q, s + t) <= 2 * b * d + 2 * b * e) by (nonlinear_arith)
        requires
            distance(q, s + t) <= d + e,
            b > 0,
    ;
    assert(k * s + 2 * (s + t) <= (k + 2) * (s + t)) by (nonlinear_arith)
        requires
            k >= 0,
            t >= 0,
    ;
    assert(8 * e <= s + t) by (nonlinear_arith)
        requires
            2 * b * e <= 2 * (s + t),
            b >= 8,
            e >= 0,
    ;
}

/// A quotient of rounded amounts: `x` and `y` are numerator and denominator exactly,
/// `p` and `q` rounded, and `r` the quotient.
proof fn lemma_ratio(u: int, b: int, k: int, x: int, y: int, p: int, q: int, r: int)
    requires
        8 <= b,
        8 * b < u,
        0 <= k,
        0 <= x <= y,
        0 <= p <= 2 * y,
        0 < q <= 2 * y,
        0 <= r <= 2 * u,
        2 * b * distance(p, x) <= k * y,
        2 * b * distance(q, y) <= k * y,
        2 * b * distance(r * q, p * u) <= p * u + b * q,
    ensures
        2 * b * distance(r * y, x * u) <= (3 * k + 3) * (u * y),
{
    let d1 = distance(p, x);
    let d2 = distance(q, y);
    let d3 = distance(r * q, p * u);
    let a = distance(r * y, x * u);
    assert(r * y - r * q <= r * d2 && r * q - r * y <= r * d2 && p * u - x * u <= u * d1 && x * u - p * u <= u
        * d1) by (nonlinear_arith)
        requires
            y - q <= d2,
            q - y <= d2,
            p - x <= d1,
            x - p <= d1,
            r >= 0,
            u > 0,
    ;
    assert(a <= r * d2 + d3 + u * d1);
    assert(2 * b * a <= r * (2 * b * d2) + 2 * b * d3 + u * (2 * b * d1)) by (nonlinear_arith)
        requires
            a <= r * d2 + d3 + u * d1,
            b > 0,
    ;
    let w = u * y;
    assert(r * (2 * b * d2) <= 2 * (k * w) && u * (2 * b * d1) <= k * w && p * u + b * q <= 3 * w)
        by (nonlinear_arith)
        requires
            0 <= r <= 2 * u,
            0 <= 2 * b * d2 <= k * y,
            2 * b * d1 <= k * y,
            0 <= p <= 2 * y,
            0 < q <= 2 * y,
            8 * b < u,
            b > 0,
            w == u * y,
    {
        assert(r * (2 * b * d2) <= (2 * u) * (2 * b * d2));
        assert((2 * u) * (2 * b * d2) <= (2 * u) * (k * y));
        assert((2 * u) * (k * y) == 2 * (k * (u * y)));
        assert(u * (2 * b * d1) <= u * (k * y));
        assert(u * (k * y) == k * (u * y));
        assert(p * u <= (2 * y) * u);
        assert(b * q <= b * (2 * y));
        assert(8 * (b * (2 * y)) <= u * (2 * y));
    }
    assert((3 * k + 3) * w == 3 * (k * w) + 3 * w) by (nonlinear_arith);
}

/// A posterior win rate is the wins and the prior wins over the trades and all prior
/// trades, up to rounding.
pub proof fn posterior_is_the_share_with_the_prior(
    a: Assessment,
    results: Seq<Quantity>,
    pnl_decay: Double,
    volume_decay: Double,
    config: Config,
)
    requires
        is_assessment(a, results, pnl_decay, volume_decay, config),
        is_amount(config.bayes_prior_alpha),
        is_amount(config.bayes_prior_beta),
        config.bayes_prior_alpha.magnitude() > 0,
        fraction(results.len(), 1).plus(config.bayes_prior_alpha).plus(config.bayes_prior_beta).finite(),
    ensures
        ({
            let prior = config.bayes_prior_alpha.value();
            let won = a.wins * unit() + prior;
            let all = results.len() * unit() + prior + config.bayes_prior_beta.value();
            &&& is_amount(a.posterior_win_rate)
            &&& a.posterior_win_rate.value() <= unit()
            &&& BINADE * distance(a.posterior_win_rate.value() * all, won * unit()) <= 8 * (unit() * all)
        }),
{
    let n = results.len();
    let wins = a.wins as nat;
    let (alpha, beta) = (config.bayes_prior_alpha, config.bayes_prior_beta);
    let u = unit();
    let b = BINADE as int;
    let one = fraction(1, 1);
    let zero = fraction(0, 1);
    lemma_wins(results);
    lemma_zero();
    lemma_one();
    lemma_quotes();
    lemma_steps_zero();
    lemma_number(n);
    lemma_number(wins);
    lemma_positive(beta);
    let (w, t) = (fraction(wins, 1), fraction(n, 1));
    assert(wins * u <= n * u && 0 <= wins * u) by (nonlinear_arith)
        requires
            wins <= n,
            u > 0,
    ;
    let x = w.plus(alpha);
    let y1 = t.plus(alpha);
    let y = y1.plus(beta);
    lemma_sum_sign(w, alpha);
    lemma_sum_sign(t, alpha);
    lemma_sum_sign(y1, beta);
    sum_is_monotone(w, alpha, t, alpha);
    sum_is_monotone(y1, zero, y1, beta);
    sum_with_zero(y1);
    sum_is_monotone(zero, alpha, w, alpha);
    sum_with_zero(alpha);
    lemma_positive(w);
    lemma_order(alpha, x);
    lemma_order(x, y1);
    lemma_order(y1, y);
    lemma_order(x, y);
    lemma_sum_error(w, alpha);
    lemma_sum_error(t, alpha);
    lemma_sum_error(y1, beta);
    quotient_is_monotone(x, y, y);
    quotient_by_itself(y);
    let q = x.over(y);
    lemma_order(q, one);
    lemma_increasing(0, y.magnitude());
    let m = steps(x.magnitude()) * pow2(UNIT_SHIFT as nat);
    let d = steps(y.magnitude());
    lemma_rounded_monotone(m, d, m, d);
    lemma_packed(rounded(m, d));
    lemma_rounding_error(m, d);
    let (s1, s2) = (w.value() + alpha.value(), t.value() + alpha.value());
    assert(2 * b * distance(w.value(), w.value()) <= 0 * w.value()) by (nonlinear_arith)
        requires
            distance(w.value(), w.value()) == 0,
    ;
    assert(2 * b * distance(t.value(), t.value()) <= 0 * t.value()) by (nonlinear_arith)
        requires
            distance(t.value(), t.value()) == 0,
    ;
    lemma_further(b, 0, w.value(), w.value(), alpha.value(), x.value());
    lemma_further(b, 0, t.value(), t.value(), alpha.value(), y1.value());
    lemma_further(b, 2, s2, y1.value(), beta.value(), y.value());
    let all = s2 + beta.value();
    lemma_ratio(u, b, 4, s1, all, x.value(), y.value(), q.value());
    assert(2 * b * distance(q.value() * all, s1 * u) == 2 * (b * distance(q.value() * all, s1 * u)))
        by (nonlinear_arith);
    assert(u * all >= 0) by (nonlinear_arith)
        requires
            u > 0,
            all >= 0,
    ;
    assert(s1 == a.wins * unit() + alpha.value());
    assert(all == results.len() * unit() + alpha.value() + beta.value());
    assert(a.posterior_win_rate == q);
    let e = distance(q.value() * all, s1 * u);
    assert(2 * b * e <= 15 * (u * all)) by (nonlinear_arith)
        requires
            2 * b * e <= (3 * 4 + 3) * (u * all),
    ;
    assert(b * e <= 8 * (u * all));
}

/// A variance is the mean times one less the mean, over the trades, all prior trades
/// and one, up to rounding.
pub proof fn variance_is_that_of_the_posterior(
    a: Assessment,
    results: Seq<Quantity>,
    pnl_decay: Double,
    volume_decay: Double,
    config: Config,
)
    requires
        is_assessment(a, results, pnl_decay, volume_decay, config),
        is_amount(config.bayes_prior_alpha),
        is_amount(config.bayes_prior_beta),
        config.bayes_prior_alpha.magnitude() > 0,
        fraction(results.len(), 1).plus(config.bayes_prior_alpha).plus(config.bayes_prior_beta).plus(
            fraction(1, 1),
        ).finite(),
    ensures
        ({
            let mean = a.posterior_win_rate.value();
            let all = results.len() * unit() + config.bayes_prior_alpha.value()
                + config.bayes_prior_beta.value() + unit();
            BINADE * distance(a.variance.value() * all, mean * (unit() - mean)) <= 15 * (unit() * all)
        }),
{
    let n = results.len();
    let (alpha, beta) = (config.bayes_prior_alpha, config.bayes_prior_beta);
    let u = unit();
    let b = BINADE as int;
    let one = fraction(1, 1);
    let zero = fraction(0, 1);
    let mean = a.posterior_win_rate;
    lemma_zero();
    lemma_one();
    lemma_quotes();
    lemma_steps_zero();
    lemma_number(n);
    lemma_positive(beta);
    lemma_positive(alpha);
    lemma_positive(one);
    let t = fraction(n, 1);
    assert(0 <= n * u) by (nonlinear_arith)
        requires
            u > 0,
    ;
    let y1 = t.plus(alpha);
    let y2 = y1.plus(beta);
    let y = y2.plus(one);
    lemma_sum_sign(t, alpha);
    lemma_sum_sign(y1, beta);
    lemma_sum_sign(y2, one);
    assert(y2.finite() && y1.finite());
    posterior_is_the_share_with_the_prior(a, results, pnl_decay, volume_decay, config);
    lemma_sum_error(t, alpha);
    lemma_sum_error(y1, beta);
    lemma_sum_error(y2, one);
    assert(2 * b * distance(t.value(), t.value()) <= 0 * t.value()) by (nonlinear_arith)
        requires
            distance(t.value(), t.value()) == 0,
    ;
    let s1 = t.value() + alpha.value();
    let s2 = s1 + beta.value();
    let all = s2 + u;
    lemma_further(b, 0, t.value(), t.value(), alpha.value(), y1.value());
    lemma_further(b, 2, s1, y1.value(), beta.value(), y2.value());
    lemma_further(b, 4, s2, y2.value(), u, y.value());
    sum_is_monotone(zero, one, y2, one);
    sum_with_zero(one);
    lemma_positive(y2);
    lemma_order(one, y);
    // The chance of losing.
    lemma_positive(mean);
    lemma_lose(mean);
    let lose = one.minus(mean);
    lemma_difference_error(one, mean);
    difference_is_not_greater(one, mean);
    lemma_order(lose, one);
    if mean.magnitude() > one.magnitude() {
        lemma_increasing(one.magnitude(), mean.magnitude());
    }
    lemma_order(mean, one);
    // Their product.
    let p = mean.times(lose);
    lemma_product_sign(mean, lose);
    lemma_product_sign(mean, one);
    product_is_monotone(mean, lose, one);
    product_with_one(mean);
    lemma_order(p, mean);
    lemma_order(p, one);
    let c = steps(mean.magnitude()) * steps(lose.magnitude());
    let uu = pow2(UNIT_SHIFT as nat);
    lemma_rounded_monotone(c, uu, c, uu);
    lemma_packed(rounded(c, uu));
    lemma_rounding_error(c, uu);
    // The quotient.
    let v = p.over(y);
    lemma_order(p, y);
    quotient_is_monotone(p, y, y);
    quotient_by_itself(y);
    lemma_order(v, one);
    lemma_increasing(0, y.magnitude());
    let m = steps(p.magnitude()) * uu;
    let d = steps(y.magnitude());
    lemma_rounded_monotone(m, d, m, d);
    lemma_packed(rounded(m, d));
    lemma_rounding_error(m, d);
    lemma_spread(u, b, mean.value(), lose.value(), p.value(), all, y.value(), v.value());
}

/// What the errors of a variance come to: `m` is the mean, `q` one less the mean, `p`
/// their product, `y` the denominator exactly and `d` rounded, and `v` the variance.
proof fn lemma_spread(u: int, b: int, m: int, q: int, p: int, y: int, d: int, v: int)
    requires
        8 <= b,
        8 * b < u,
        0 <= m <= u,
        0 <= q <= u,
        0 <= p <= u,
        u <= y,
        0 < d <= 2 * y,
        0 <= v <= u,
        2 * b * distance(q, u - m) <= u - m,
        2 * b * distance(p * u, m * q) <= m * q + b * u,
        2 * b * distance(d, y) <= 6 * y,
        2 * b * distance(v * d, p * u) <= p * u + b * d,
    ensures
        b * distance(v * y, m * (u - m)) <= 15 * (u * y),
{
    let (d1, d2) = (distance(q, u - m), distance(p * u, m * q));
    let (d3, d4) = (distance(d, y), distance(v * d, p * u));
    let a = distance(v * y, m * (u - m));
    assert(v * y - v * d <= v * d3 && v * d - v * y <= v * d3 && m * q - m * (u - m) <= m * d1 && m * (u - m)
        - m * q <= m * d1) by (nonlinear_arith)
        requires
            y - d <= d3,
            d - y <= d3,
            q - (u - m) <= d1,
            (u - m) - q <= d1,
            v >= 0,
            m >= 0,
    ;
    assert(a <= v * d3 + d4 + d2 + m * d1);
    let w = u * y;
    assert(v * (2 * b * d3) <= 6 * w && m * (2 * b * d1) <= w && m * q + b * u <= 2 * w && p * u + b * d <= 2
        * w) by (nonlinear_arith)
        requires
            0 <= v <= u,
            0 <= 2 * b * d3 <= 6 * y,
            0 <= m <= u,
            0 <= 2 * b * d1 <= u - m,
            0 <= q <= u,
            0 <= p <= u,
            u <= y,
            0 < d <= 2 * y,
            8 * b < u,
            b > 0,
            w == u * y,
    {
        assert(v * (2 * b * d3) <= u * (6 * y));
        assert(m * (2 * b * d1) <= u * y);
        assert(m * q <= u * y);
        assert(b * u <= u * y);
        assert(p * u <= y * u);
        assert(b * d <= b * (2 * y));
        assert(b * (2 * y) <= u * y);
    }
    lemma_sum_times(b, a, v * d3 + d4, d2 + m * d1);
    lemma_sum_times(b, v * d3 + d4, v * d3, d4);
    lemma_sum_times(b, d2 + m * d1, d2, m * d1);
    assert(2 * b * (v * d3) == v * (2 * b * d3)) by (nonlinear_arith);
    assert(2 * b * (m * d1) == m * (2 * b * d1)) by (nonlinear_arith);
    assert(2 * b * a == 2 * (b * a)) by (nonlinear_arith);
}

/// A lowered win rate is the mean less that many standard deviations, up to rounding; it
/// is nothing where they are more than the mean. It is never above the mean.
pub proof fn win_rate_is_lowered(mean: Double, z: Double, deviation: Double)
    requires
        is_amount(mean),
        mean.value() <= unit(),
        is_amount(z),
        is_amount(deviation),
        z.times(deviation).finite(),
    ensures
        ({
            let r = lowered(mean, z, deviation);
            let left = mean.value() * unit() - z.value() * deviation.value();
            &&& 0 <= r.value() <= mean.value()
            &&& left >= 0 ==> BINADE * distance(r.value() * unit(), left) <= 2 * (unit() * unit())
            &&& left <= 0 ==> BINADE * (r.value() * unit()) <= 2 * (unit() * unit())
        }),
{
    let u = unit();
    let uu = pow2(UNIT_SHIFT as nat);
    let b = BINADE as int;
    let one = fraction(1, 1);
    let d = z.times(deviation);
    let l = mean.minus(d);
    lemma_one();
    lemma_zero();
    lemma_quotes();
    lemma_steps_zero();
    lemma_positive(l);
    lemma_product_sign(z, deviation);
    let c = steps(z.magnitude()) * steps(deviation.magnitude());
    lemma_rounded_monotone(c, uu, c, uu);
    lemma_packed(rounded(c, uu));
    lemma_rounding_error(c, uu);
    difference_is_not_greater(mean, d);
    lemma_difference(mean, d);
    if mean.magnitude() > one.magnitude() {
        lemma_increasing(one.magnitude(), mean.magnitude());
    }
    lemma_order(mean, one);
    if l.negative() {
        assert(l.value() <= 0);
        assert(lowered(mean, z, deviation).value() == 0);
        if d.value() <= mean.value() {
            if l.magnitude() > 0 {
                lemma_increasing(0, l.magnitude());
            }
            lemma_difference_error(mean, d);
        }
    } else {
        lemma_order(l, mean);
        lemma_order(l, one);
        assert(lowered(mean, z, deviation) == l);
        lemma_difference_error(mean, d);
    }
    let r = lowered(mean, z, deviation).value();
    difference_sign(mean, d);
    lemma_lowered(u, b, mean.value(), z.value() * deviation.value(), d.value(), r);
}

/// What the errors of a lowered rate come to: `m` is the mean, `x` what it is lowered by
/// exactly, times one, and `d` rounded, and `r` the result.
proof fn lemma_lowered(u: int, b: int, m: int, x: int, d: int, r: int)
    requires
        8 <= b,
        8 * b < u,
        0 <= m <= u,
        0 <= x,
        0 <= d,
        0 <= r <= m,
        2 * b * distance(d * u, x) <= x + b * u,
        d <= m ==> 2 * b * distance(r, m - d) <= m - d,
        d > m ==> r == 0,
    ensures
        m * u - x >= 0 ==> b * distance(r * u, m * u - x) <= 2 * (u * u),
        m * u - x <= 0 ==> b * (r * u) <= 2 * (u * u),
{
    let e = distance(d * u, x);
    assert(m * u <= u * u && 0 <= m * u && b * u <= u * u) by (nonlinear_arith)
        requires
            0 <= m <= u,
            8 * b < u,
            b > 0,
    ;
    if d > m {
        assert(d * u >= m * u) by (nonlinear_arith)
            requires
                d > m,
                u > 0,
        ;
        if m * u - x >= 0 {
            assert(m * u - x <= e);
            assert(b * (m * u - x) <= 2 * (u * u)) by (nonlinear_arith)
                requires
                    m * u - x <= e,
                    2 * b * e <= x + b * u,
                    x <= m * u,
                    m * u <= u * u,
                    b * u <= u * u,
                    b > 0,
            {
                assert(b * (m * u - x) <= b * e);
            }
            assert(r * u == 0) by (nonlinear_arith)
                requires
                    r == 0,
            ;
        } else {
            assert(b * (r * u) == 0) by (nonlinear_arith)
                requires
                    r == 0,
            ;
            assert(u * u >= 0) by (nonlinear_arith);
        }
    } else {
        let f = distance(r, m - d);
        assert(distance(r * u, (m - d) * u) == u * f && (m - d) * u == m * u - d * u) by (nonlinear_arith)
            requires
                f == (if r >= m - d {
                    r - (m - d)
                } else {
                    m - d - r
                }),
                distance(r * u, (m - d) * u) == (if r * u >= (m - d) * u {
                    r * u - (m - d) * u
                } else {
                    (m - d) * u - r * u
                }),
                u > 0,
        {
            assert(r * u - (m - d) * u == u * (r - (m - d)));
            assert((m - d) * u - r * u == u * (m - d - r));
        }
        assert(2 * b * (u * f) <= u * u) by (nonlinear_arith)
            requires
                2 * b * f <= m - d,
                m - d <= u,
                u > 0,
        {
            assert(2 * b * (u * f) == u * (2 * b * f));
            assert(u * (2 * b * f) <= u * u);
        }
        assert(d * u <= u * u) by (nonlinear_arith)
            requires
                0 <= d <= u,
        ;
        assert(x <= 2 * (u * u)) by (nonlinear_arith)
            requires
                2 * b * e <= x + b * u,
                x - d * u <= e,
                d * u <= u * u,
                b * u <= u * u,
                b >= 8,
                e >= 0,
                x >= 0,
        {
            assert(16 * e <= 2 * b * e);
        }
        assert(2 * b * e <= 3 * (u * u));
        if m * u - x >= 0 {
            assert(distance(r * u, m * u - x) <= u * f + e);
            assert(b * distance(r * u, m * u - x) <= b * (u * f) + b * e) by (nonlinear_arith)
                requires
                    distance(r * u, m * u - x) <= u * f + e,
                    b > 0,
            ;
            assert(2 * b * (u * f) == 2 * (b * (u * f)) && 2 * b * e == 2 * (b * e)) by (nonlinear_arith);
        } else {
            assert(r * u <= u * f + e);
            assert(b * (r * u) <= b * (u * f) + b * e) by (nonlinear_arith)
                requires
                    r * u <= u * f + e,
                    b > 0,
            ;
            assert(2 * b * (u * f) == 2 * (b * (u * f)) && 2 * b * e == 2 * (b * e)) by (nonlinear_arith);
        }
    }
}

/// The better of two scores comes first: none stands behind a lower one, and a score
/// that is no number stands behind all that are.
pub proof fn best_scores_come_first(profiles: Seq<TraderProfile>, i: int, j: int)
    requires
        0 <= i < j < ranking(profiles).len(),
    ensures
        !ranking(profiles)[i].score.below(ranking(profiles)[j].score),
        ranking(profiles)[i].score.not_a_number() ==> ranking(profiles)[j].score.not_a_number(),
{
    best_come_first(profiles, i, j);
}

/// A number over a whole number, with the opposite sign.
proof fn lemma_scaled(x: Double, c: nat)
    requires
        x.finite(),
        1 <= c < 0x20_0000_0000_0000,
    ensures
        ({
            let r = x.over(fraction(c, 1)).opposite();
            &&& r.finite()
            &&& 2 * BINADE * distance(c * r.value(), -x.value()) <= distance(x.value(), 0) + BINADE * c
        }),
{
    let q = x.over(fraction(c, 1));
    lemma_over_number(x, c);
    lemma_packed(q.magnitude());
    assert(c * (-q.value()) == -(c * q.value())) by (nonlinear_arith);
}

/// The exponents are the profit in thousands and the volume in fifty thousands, with
/// the opposite signs, up to rounding; a missing figure counts as zero.
pub proof fn exponents_are_in_thousands(pnl: Option<Double>, volume: Option<Double>, p: Double, v: Double)
    requires
        pnl matches Some(x) ==> x == p,
        pnl is None ==> p == fraction(0, 1),
        volume matches Some(x) ==> x == v,
        volume is None ==> v == fraction(0, 1),
        p.finite(),
        v.finite(),
    ensures
        ({
            let (e, f) = exponents(pnl, volume);
            &&& e.finite()
            &&& f.finite()
            &&& 2 * BINADE * distance(1000 * e.value(), -p.value()) <= distance(p.value(), 0) + BINADE * 1000
            &&& 2 * BINADE * distance(50_000 * f.value(), -v.value()) <= distance(v.value(), 0) + BINADE * 50_000
        }),
{
    lemma_scaled(p, 1000);
    lemma_scaled(v, 50_000);
}

/// A profile has the wins, the rates and the score of its assessment; what trades are
/// sized by is the posterior win rate less the configured number of standard
/// deviations, up to rounding, and nothing where that is more.
pub proof fn profile_lowers_the_posterior(
    profile: TraderProfile,
    assessment: Assessment,
    deviation: Double,
    config: Config,
)
    requires
        is_profile(profile, assessment, deviation, config),
        is_amount(assessment.posterior_win_rate),
        assessment.posterior_win_rate.value() <= unit(),
        is_amount(config.bayes_confidence_z),
        is_amount(deviation),
        config.bayes_confidence_z.times(deviation).finite(),
    ensures
        ({
            let mean = assessment.posterior_win_rate.value();
            let r = profile.conservative_win_rate.value();
            let left = mean * unit() - config.bayes_confidence_z.value() * deviation.value();
            &&& 0 <= r <= mean
            &&& left >= 0 ==> BINADE * distance(r * unit(), left) <= 2 * (unit() * unit())
            &&& left <= 0 ==> BINADE * (r * unit()) <= 2 * (unit() * unit())
        }),
        profile.win_rate == assessment.win_rate,
        profile.posterior_win_rate == assessment.posterior_win_rate,
        profile.wins == assessment.wins,
        profile.resolved_trade_count == assessment.resolved_trade_count,
        profile.score == assessment.score,
{
    win_rate_is_lowered(assessment.posterior_win_rate, config.bayes_confidence_z, deviation);
}

/// As many wallets are followed as allowed, or all where there are fewer: the best, with
/// the better before the others. One that is left out scores no higher than any that is
/// followed.
pub proof fn best_are_followed(profiles: Seq<TraderProfile>, max_whales: int, i: int, j: int)
    requires
        0 <= max_whales,
    ensures
        selected(profiles, max_whales).len() == if profiles.len() > max_whales {
            max_whales
        } else {
            profiles.len() as int
        },
        0 <= i < j < selected(profiles, max_whales).len() ==> !selected(profiles, max_whales)[i].score.below(
            selected(profiles, max_whales)[j].score,
        ),
        0 <= i < selected(profiles, max_whales).len() <= j < profiles.len() ==> !selected(
            profiles,
            max_whales,
        )[i].score.below(ranking(profiles)[j].score),
        profiles.len() <= max_whales ==> selected(profiles, max_whales).to_multiset() == profiles.to_multiset(),
{
    lemma_ranking_len(profiles);
    ranking_rearranges(profiles);
    if 0 <= i < j < profiles.len() {
        best_scores_come_first(profiles, i, j);
    }
}

} // verus!
