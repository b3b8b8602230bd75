//! What an assessment comes to, in exact numbers.

use super::scoring::{
    lemma_weights, logistic, logistic_is_bounded, profits, score_is_bounded, score_of,
};
use super::{is_assessment, Assessment};
use crate::config::Config;
use crate::double::accuracy::{
    distance, lemma_price, lemma_rounding_error, lemma_sum_error, quotient_is_monotone,
};
use crate::double::laws::{
    is_amount, lemma_number, lemma_one, lemma_order, lemma_packed, lemma_positive,
    lemma_product_sign, lemma_sum_sign, lemma_zero, ordinary, product_is_monotone, product_with_one,
    quotient_by_itself, sum_is_monotone, sum_with_zero,
};
use crate::double::rounding::{
    lemma_increasing, lemma_rounded_exact, lemma_rounded_monotone, rounded, steps, BINADE,
    UNIT_SHIFT,
};
use crate::double::{fraction, lemma_steps_zero, Double};
use crate::quantity::Quantity;
use crate::state::valuation::lemma_quotes;
use vstd::arithmetic::power2::{
    lemma2_to64, lemma2_to64_rest, lemma_pow2_adds, lemma_pow2_pos, pow2,
};
use vstd::prelude::*;

verus! {

/// The number of steps in one.
pub open spec fn unit() -> int {
    pow2(UNIT_SHIFT as nat) as int
}

/// The logistic curve, where its denominator is `p` exactly, `s` rounded, and its
/// result `q`.
proof fn lemma_curve(u: int, b: int, p: int, s: int, q: int)
    requires
        b >= 8,
        8 * b < u,
        u <= p,
        0 <= q <= u,
        0 <= s,
        2 * b * distance(s, p) <= p,
        2 * b * distance(q * s, u * u) <= u * u + b * s,
    ensures
        2 * b * distance(q * p, u * u) <= 3 * (u * p),
{
    let d = distance(s, p);
    let e = distance(q * s, u * u);
    assert(s <= 2 * p) by (nonlinear_arith)
        requires
            2 * b * d <= p,
            s - p <= d,
            b >= 8,
            d >= 0,
    ;
    assert(q * p - q * s <= q * d && q * s - q * p <= q * d) by (nonlinear_arith)
        requires
            p - s <= d,
            s - p <= d,
            q >= 0,
    ;
    let x = distance(q * p, u * u);
    assert(x <= q * d + e);
    assert(2 * b * x <= q * (2 * b * d) + 2 * b * e) by (nonlinear_arith)
        requires
            x <= q * d + e,
            b > 0,
    ;
    assert(q * (2 * b * d) <= u * p && u * u <= u * p && b * s <= u * p) by (nonlinear_arith)
        requires
            0 <= q <= u,
            2 * b * d <= p,
            u <= p,
            0 <= s <= 2 * p,
            8 * b < u,
            b > 0,
            2 * b * d >= 0,
    ;
}

/// A bound that is multiplied.
pub proof fn lemma_times(b: int, y: int, a: int, n: int)
    requires
        y >= 0,
        2 * b * a <= n,
    ensures
        2 * b * (y * a) <= y * n,
{
    assert(2 * b * (y * a) == y * (2 * b * a)) by (nonlinear_arith);
    assert(y * (2 * b * a) <= y * n) by (nonlinear_arith)
        requires
            y >= 0,
            2 * b * a <= n,
    ;
}

/// A sum that is multiplied.
pub proof fn lemma_sum_times(b: int, a: int, x: int, y: int)
    requires
        b >= 0,
        a <= x + y,
    ensures
        2 * b * a <= 2 * b * x + 2 * b * y,
{
    assert(2 * b * a <= 2 * b * (x + y)) by (nonlinear_arith)
        requires
            b >= 0,
            a <= x + y,
    ;
    assert(2 * b * (x + y) == 2 * b * x + 2 * b * y) by (nonlinear_arith);
}

/// A component times its weight: the component is `z / d` exactly and `q` rounded, the
/// weight `w` hundredths exactly and `c` rounded, and their product `t`.
proof fn lemma_component(u: int, b: int, d: int, z: int, q: int, c: int, t: int, w: int)
    requires
        b >= 8,
        u > 0,
        d > 0,
        0 <= w,
        0 <= q <= u,
        2 * b * distance(q * d, u * z) <= 3 * (u * d),
        2 * b * distance(100 * c, w * u) <= 100 * u,
        2 * b * distance(t * u, c * q) <= 2 * (u * u),
    ensures
        2 * b * distance(100 * (t * d), w * (u * z)) <= (3 * w + 300) * (u * d),
{
    let x = 100 * (t * d) - w * (u * z);
    let e1 = t * u - c * q;
    let e2 = 100 * c - w * u;
    let e3 = q * d - u * z;
    let (a1, a2, a3) = (distance(t * u, c * q), distance(100 * c, w * u), distance(q * d, u * z));
    let a = distance(100 * (t * d), w * (u * z));
    assert(100 * (d * e1) == 100 * (u * (t * d)) - 100 * (d * (c * q))) by (nonlinear_arith)
        requires
            e1 == t * u - c * q,
    ;
    assert(d * (q * e2) == 100 * (d * (c * q)) - w * (u * (q * d))) by (nonlinear_arith)
        requires
            e2 == 100 * c - w * u,
    ;
    assert(w * (u * e3) == w * (u * (q * d)) - w * (u * (u * z))) by (nonlinear_arith)
        requires
            e3 == q * d - u * z,
    ;
    assert(u * x == 100 * (u * (t * d)) - w * (u * (u * z))) by (nonlinear_arith)
        requires
            x == 100 * (t * d) - w * (u * z),
    ;
    assert(d * e1 <= d * a1 && -(d * e1) <= d * a1) by (nonlinear_arith)
        requires
            d > 0,
            -a1 <= e1 <= a1,
    ;
    assert(d * (q * e2) <= d * (q * a2) && -(d * (q * e2)) <= d * (q * a2)) by (nonlinear_arith)
        requires
            d > 0,
            q >= 0,
            -a2 <= e2 <= a2,
    {
        assert(q * e2 <= q * a2 && -(q * e2) <= q * a2);
    }
    assert(w * (u * e3) <= w * (u * a3) && -(w * (u * e3)) <= w * (u * a3)) by (nonlinear_arith)
        requires
            w >= 0,
            u > 0,
            -a3 <= e3 <= a3,
    {
        assert(u * e3 <= u * a3 && -(u * e3) <= u * a3);
    }
    assert(u * a == u * x || u * a == -(u * x)) by (nonlinear_arith)
        requires
            a == x || a == -x,
    ;
    assert(u * a <= 100 * (d * a1) + d * (q * a2) + w * (u * a3));
    assert(2 * b * (100 * (d * a1)) <= 200 * (d * (u * u))) by (nonlinear_arith)
        requires
            2 * b * a1 <= 2 * (u * u),
            d > 0,
    {
        assert(2 * b * (100 * (d * a1)) == 100 * (d * (2 * b * a1)));
    }
    assert(2 * b * (d * (q * a2)) <= 100 * (d * (u * u))) by (nonlinear_arith)
        requires
            2 * b * a2 <= 100 * u,
            d > 0,
            0 <= q <= u,
            a2 >= 0,
            b > 0,
    {
        assert(2 * b * (d * (q * a2)) == d * (q * (2 * b * a2)));
        assert(q * (2 * b * a2) <= u * (2 * b * a2)) by (nonlinear_arith)
            requires
                0 <= q <= u,
                2 * b * a2 >= 0,
        ;
        assert(u * (2 * b * a2) <= u * (100 * u));
    }
    assert(2 * b * (w * (u * a3)) <= 3 * w * (d * (u * u))) by (nonlinear_arith)
        requires
            2 * b * a3 <= 3 * (u * d),
            w >= 0,
            u > 0,
    {
        assert(2 * b * (w * (u * a3)) == w * (u * (2 * b * a3)));
        assert(u * (2 * b * a3) <= u * (3 * (u * d)));
    }
    let k = 3 * w + 300;
    assert(u * (2 * b * a) <= u * (k * (u * d))) by (nonlinear_arith)
        requires
            u * a <= 100 * (d * a1) + d * (q * a2) + w * (u * a3),
            2 * b * (100 * (d * a1)) <= 200 * (d * (u * u)),
            2 * b * (d * (q * a2)) <= 100 * (d * (u * u)),
            2 * b * (w * (u * a3)) <= 3 * w * (d * (u * u)),
            k == 3 * w + 300,
            b > 0,
    {
        assert(u * (2 * b * a) == 2 * b * (u * a));
        assert(u * (k * (u * d)) == k * (d * (u * u)));
        assert(2 * b * (u * a) <= 2 * b * (100 * (d * a1) + d * (q * a2) + w * (u * a3)));
        assert(k * (d * (u * u)) == 3 * w * (d * (u * u)) + 300 * (d * (u * u)));
    }
    assert(2 * b * a <= k * (u * d)) by (nonlinear_arith)
        requires
            u * (2 * b * a) <= u * (k * (u * d)),
            u > 0,
    ;
}

/// The components added up: `t1`, `t2` and `t3` are weighted, `s1` is the sum of the
/// first two, and `s` of all.
proof fn lemma_components(
    u: int,
    b: int,
    p: int,
    v: int,
    w: int,
    t1: int,
    t2: int,
    t3: int,
    s1: int,
    s: int,
)
    requires
        b >= 8,
        u > 0,
        p > 0,
        v > 0,
        0 <= t1 <= u,
        0 <= t2 <= u,
        0 <= t3 <= u,
        2 * b * distance(100 * (t1 * p), 40 * (u * u)) <= 420 * (u * p),
        2 * b * distance(100 * (t2 * u), 35 * (u * w)) <= 405 * (u * u),
        2 * b * distance(100 * (t3 * v), 25 * (u * u)) <= 375 * (u * v),
        2 * b * distance(s1, t1 + t2) <= distance(t1 + t2, 0),
        2 * b * distance(s, s1 + t3) <= distance(s1 + t3, 0),
    ensures
        b * distance(
            100 * (s * (p * v)),
            40 * (u * u * v) + 35 * (w * (p * v)) + 25 * (u * u * p),
        ) <= 900 * (u * (p * v)),
{
    let y = p * v;
    let e1 = 100 * (t1 * p) - 40 * (u * u);
    let e2 = 100 * t2 - 35 * w;
    let e3 = 100 * (t3 * v) - 25 * (u * u);
    let a1 = distance(100 * (t1 * p), 40 * (u * u));
    let a2 = distance(100 * t2, 35 * w);
    let a3 = distance(100 * (t3 * v), 25 * (u * u));
    let f1 = distance(s1, t1 + t2);
    let f2 = distance(s, s1 + t3);
    assert(y > 0) by (nonlinear_arith)
        requires
            y == p * v,
            p > 0,
            v > 0,
    ;
    assert(u * a2 == distance(100 * (t2 * u), 35 * (u * w))) by (nonlinear_arith)
        requires
            a2 == (if 100 * t2 >= 35 * w {
                100 * t2 - 35 * w
            } else {
                35 * w - 100 * t2
            }),
            distance(100 * (t2 * u), 35 * (u * w)) == (if 100 * (t2 * u) >= 35 * (u * w) {
                100 * (t2 * u) - 35 * (u * w)
            } else {
                35 * (u * w) - 100 * (t2 * u)
            }),
            u > 0,
    {
        assert(u * (100 * t2 - 35 * w) == 100 * (t2 * u) - 35 * (u * w));
        assert(u * (35 * w - 100 * t2) == 35 * (u * w) - 100 * (t2 * u));
        assert(100 * t2 >= 35 * w ==> u * (100 * t2 - 35 * w) >= 0);
        assert(100 * t2 < 35 * w ==> u * (35 * w - 100 * t2) > 0);
    }
    assert(2 * b * a2 <= 405 * u) by (nonlinear_arith)
        requires
            2 * b * (u * a2) <= 405 * (u * u),
            u > 0,
    {
        assert(2 * b * (u * a2) == u * (2 * b * a2));
        assert(405 * (u * u) == u * (405 * u));
    }
    assert(f1 <= u) by (nonlinear_arith)
        requires
            2 * b * f1 <= 2 * u,
            b >= 8,
            f1 >= 0,
    ;
    assert(2 * b * f1 <= 2 * u && 2 * b * f2 <= 4 * u);
    let x = 100 * (s * y) - (40 * (u * u * v) + 35 * (w * y) + 25 * (u * u * p));
    assert(x == 100 * (y * ((s - s1 - t3) + (s1 - t1 - t2))) + v * e1 + y * e2 + p * e3) by (nonlinear_arith)
        requires
            x == 100 * (s * y) - (40 * (u * u * v) + 35 * (w * y) + 25 * (u * u * p)),
            y == p * v,
            e1 == 100 * (t1 * p) - 40 * (u * u),
            e2 == 100 * t2 - 35 * w,
            e3 == 100 * (t3 * v) - 25 * (u * u),
    {
        assert(v * (100 * (t1 * p) - 40 * (u * u)) == 100 * (t1 * y) - 40 * (u * u * v));
        assert(p * (100 * (t3 * v) - 25 * (u * u)) == 100 * (t3 * y) - 25 * (u * u * p));
        assert(y * (100 * t2 - 35 * w) == 100 * (t2 * y) - 35 * (w * y));
        assert(y * ((s - s1 - t3) + (s1 - t1 - t2)) == s * y - t3 * y - t1 * y - t2 * y);
    }
    let f = f1 + f2;
    let g = (s - s1 - t3) + (s1 - t1 - t2);
    assert(y * g <= y * f && -(y * g) <= y * f && v * e1 <= v * a1 && -(v * e1) <= v * a1 && y * e2 <= y * a2
        && -(y * e2) <= y * a2 && p * e3 <= p * a3 && -(p * e3) <= p * a3) by (nonlinear_arith)
        requires
            y > 0,
            v > 0,
            p > 0,
            -f <= g <= f,
            -a1 <= e1 <= a1,
            -a2 <= e2 <= a2,
            -a3 <= e3 <= a3,
    ;
    let a = distance(100 * (s * y), 40 * (u * u * v) + 35 * (w * y) + 25 * (u * u * p));
    assert(a <= 100 * (y * f) + v * a1 + y * a2 + p * a3);
    let k = u * y;
    lemma_times(b, y, f1, 2 * u);
    lemma_times(b, y, f2, 4 * u);
    lemma_times(b, v, a1, 420 * (u * p));
    lemma_times(b, y, a2, 405 * u);
    lemma_times(b, p, a3, 375 * (u * v));
    assert(y * (2 * u) == 2 * k && y * (4 * u) == 4 * k && y * (405 * u) == 405 * k) by (nonlinear_arith)
        requires
            k == u * y,
    ;
    assert(v * (420 * (u * p)) == 420 * k && p * (375 * (u * v)) == 375 * k) by (nonlinear_arith)
        requires
            k == u * y,
            y == p * v,
    ;
    assert(y * f == y * f1 + y * f2) by (nonlinear_arith)
        requires
            f == f1 + f2,
    ;
    lemma_sum_times(b, a, 100 * (y * f1) + 100 * (y * f2) + v * a1, y * a2 + p * a3);
    lemma_sum_times(
        b,
        100 * (y * f1) + 100 * (y * f2) + v * a1,
        100 * (y * f1) + 100 * (y * f2),
        v * a1,
    );
    lemma_sum_times(b, y * a2 + p * a3, y * a2, p * a3);
    lemma_sum_times(b, 100 * (y * f1) + 100 * (y * f2), 100 * (y * f1), 100 * (y * f2));
    assert(2 * b * (100 * (y * f1)) == 100 * (2 * b * (y * f1))) by (nonlinear_arith);
    assert(2 * b * (100 * (y * f2)) == 100 * (2 * b * (y * f2))) by (nonlinear_arith);
    assert(2 * b * a == 2 * (b * a)) by (nonlinear_arith);
}

/// The logistic curve is accurate.
proof fn lemma_logistic(decay: Double)
    requires
        is_amount(decay),
        fraction(1, 1).plus(decay).finite(),
    ensures
        ({
            let q = logistic(decay);
            &&& is_amount(q)
            &&& q.value() <= unit()
            &&& 2 * BINADE * distance(q.value() * (unit() + decay.value()), unit() * unit()) <= 3 * (unit() * (
            unit() + decay.value()))
        }),
{
    let one = fraction(1, 1);
    let q = logistic(decay);
    let s = one.plus(decay);
    lemma_one();
    lemma_quotes();
    lemma_steps_zero();
    lemma_positive(decay);
    lemma_positive(fraction(0, 1));
    logistic_is_bounded(decay, decay);
    lemma_order(q, one);
    lemma_sum_sign(one, decay);
    sum_is_monotone(one, fraction(0, 1), one, decay);
    sum_with_zero(one);
    lemma_order(one, s);
    lemma_increasing(0, s.magnitude());
    lemma_sum_error(one, decay);
    let n = steps(one.magnitude()) * pow2(UNIT_SHIFT as nat);
    lemma_rounded_monotone(n, steps(s.magnitude()), n, steps(s.magnitude()));
    lemma_packed(rounded(n, steps(s.magnitude())));
    lemma_rounding_error(n, steps(s.magnitude()));
    lemma_curve(unit(), BINADE as int, unit() + decay.value(), s.value(), q.value());
}

/// A weight times a component is accurate.
proof fn lemma_weighted_component(w: nat, x: Double, d: int, z: int)
    requires
        w == 40 || w == 35 || w == 25,
        is_amount(x),
        x.value() <= unit(),
        d > 0,
        2 * BINADE * distance(x.value() * d, unit() * z) <= 3 * (unit() * d),
    ensures
        is_amount(fraction(w, 100).times(x)),
        fraction(w, 100).times(x).value() <= unit(),
        2 * BINADE * distance(100 * (fraction(w, 100).times(x).value() * d), w * (unit() * z)) <= (3 * w + 300)
            * (unit() * d),
{
    let c = fraction(w, 100);
    let one = fraction(1, 1);
    let t = c.times(x);
    let u = pow2(UNIT_SHIFT as nat);
    lemma_pow2_pos(UNIT_SHIFT as nat);
    lemma_weights();
    lemma_one();
    lemma_quotes();
    lemma_rounded_monotone(w * u, 100, w * u, 100);
    lemma_packed(rounded(w * u, 100));
    lemma_rounding_error(w * u, 100);
    assert(BINADE * 100 <= 13 * u) by (nonlinear_arith)
        requires
            8 * BINADE < u,
    ;
    assert(2 * BINADE * distance(100 * c.value(), w * unit()) <= 100 * u);
    lemma_price(w, 100);
    lemma_order(c, one);
    if x.magnitude() > one.magnitude() {
        lemma_increasing(one.magnitude(), x.magnitude());
    }
    lemma_order(x, one);
    lemma_product_sign(c, x);
    lemma_product_sign(c, one);
    product_is_monotone(c, x, one);
    product_with_one(c);
    lemma_order(t, c);
    let n = steps(c.magnitude()) * steps(x.magnitude());
    lemma_rounded_monotone(n, u, n, u);
    lemma_packed(rounded(n, u));
    lemma_rounding_error(n, u);
    assert(n + BINADE * u <= 2 * (u * u)) by (nonlinear_arith)
        requires
            n == c.value() * x.value(),
            0 <= c.value() <= u,
            0 <= x.value() <= u,
            8 * BINADE < u,
    ;
    lemma_component(unit(), BINADE as int, d, z, x.value(), c.value(), t.value(), w as int);
}

/// A score is 0.40 / (1 + d) + 0.35 w + 0.25 / (1 + e), where d and e are the
/// exponentials of profit and volume and w is the win rate, up to 9 in the last of 52
/// binary places.
pub proof fn score_is_the_weighted_sum(
    a: Assessment,
    results: Seq<Quantity>,
    pnl_decay: Double,
    volume_decay: Double,
    config: Config,
)
    requires
        is_assessment(a, results, pnl_decay, volume_decay, config),
        is_amount(pnl_decay),
        is_amount(volume_decay),
        fraction(1, 1).plus(pnl_decay).finite(),
        fraction(1, 1).plus(volume_decay).finite(),
    ensures
        ({
            let u = unit();
            let p = u + pnl_decay.value();
            let v = u + volume_decay.value();
            let w = a.win_rate.value();
            BINADE * distance(
                100 * (a.score.value() * (p * v)),
                40 * (u * u * v) + 35 * (w * (p * v)) + 25 * (u * u * p),
            ) <= 900 * (u * (p * v))
        }),
{
    let u = unit();
    let p = u + pnl_decay.value();
    let v = u + volume_decay.value();
    let win = a.win_rate;
    let (profit, volume) = (logistic(pnl_decay), logistic(volume_decay));
    lemma_one();
    lemma_quotes();
    lemma_steps_zero();
    lemma_logistic(pnl_decay);
    lemma_logistic(volume_decay);
    win_rate_is_the_share_of_wins(a, results, pnl_decay, volume_decay, config);
    lemma_zero();
    assert(2 * BINADE * distance(win.value() * u, u * win.value()) <= 3 * (u * u)) by (nonlinear_arith)
        requires
            u > 0,
            distance(win.value() * u, u * win.value()) == 0,
    ;
    lemma_weighted_component(40, profit, p, u);
    lemma_weighted_component(35, win, u, win.value());
    lemma_weighted_component(25, volume, v, u);
    let (t1, t2, t3) = (
        fraction(40, 100).times(profit),
        fraction(35, 100).times(win),
        fraction(25, 100).times(volume),
    );
    lemma_weights();
    lemma_sum_sign(t1, t2);
    lemma_sum_sign(t1.plus(t2), t3);
    score_is_bounded(pnl_decay, win, volume_decay);
    lemma_order(a.score, fraction(1, 1));
    lemma_sum_error(t1.plus(t2), t3);
    lemma_sum_error(t1, t2);
    lemma_components(
        u,
        BINADE as int,
        p,
        v,
        win.value(),
        t1.value(),
        t2.value(),
        t3.value(),
        t1.plus(t2).value(),
        a.score.value(),
    );
}

/// A win rate is the number of wins over the number of resolved trades, up to rounding;
/// it is zero without trades.
pub proof fn win_rate_is_the_share_of_wins(
    a: Assessment,
    results: Seq<Quantity>,
    pnl_decay: Double,
    volume_decay: Double,
    config: Config,
)
    requires
        is_assessment(a, results, pnl_decay, volume_decay, config),
    ensures
        is_amount(a.win_rate),
        a.win_rate.value() <= unit(),
        a.wins <= results.len(),
        results.len() == 0 ==> a.win_rate == fraction(0, 1),
        BINADE * distance(a.win_rate.value() * results.len(), a.wins * unit()) <= a.wins * unit(),
{
    let n = results.len();
    let wins = a.wins as nat;
    let u = pow2(UNIT_SHIFT as nat);
    lemma_wins(results);
    lemma_zero();
    lemma_one();
    lemma_quotes();
    lemma_steps_zero();
    lemma_number(n);
    lemma_number(wins);
    if n > 0 {
        let (x, y) = (fraction(wins, 1), fraction(n, 1));
        assert(n * u > 0 && wins * u <= n * u) by (nonlinear_arith)
            requires
                n > 0,
                u > 0,
                wins <= n,
        ;
        if y.magnitude() == 0 {
            assert(false);
        }
        quotient_is_monotone(x, y, y);
        quotient_by_itself(y);
        lemma_order(x.over(y), fraction(1, 1));
        lemma_increasing(0, y.magnitude());
        let m = steps(x.magnitude()) * u;
        let d = steps(y.magnitude());
        lemma_rounded_monotone(m, d, m, d);
        lemma_packed(rounded(m, d));
        lemma_rounding_error(m, d);
        let r = a.win_rate.value();
        let e = distance(r * n, wins * unit());
        let e0 = distance((r * d) as int, m as int);
        assert(e0 == u * e) by (nonlinear_arith)
            requires
                d == n * u,
                m == wins * u * u,
                u > 0,
                e == (if r * n >= wins * u {
                    r * n - wins * u
                } else {
                    wins * u - r * n
                }),
                e0 == (if r * d >= m {
                    r * d - m
                } else {
                    m - r * d
                }),
        {
            assert(r * (n * u) == u * (r * n));
            assert(wins * u * u == u * (wins * u));
            assert(u * (r * n) - u * (wins * u) == u * (r * n - wins * u));
            assert(u * (wins * u) - u * (r * n) == u * (wins * u - r * n));
        }
        if wins == 0 {
            assert(m == 0) by (nonlinear_arith)
                requires
                    m == wins * u * u,
                    wins == 0,
            ;
            lemma_rounded_exact(0, d, 0);
            assert(0 * d == 0) by (nonlinear_arith);
            assert(r == 0);
            assert(BINADE * distance(r * n, wins * unit()) <= wins * unit()) by (nonlinear_arith)
                requires
                    r == 0,
                    wins == 0,
                    distance(0, 0) == 0,
            {
                assert(r * n == 0 && wins * unit() == 0);
            }
        } else {
            lemma_room();
            assert(BINADE * d <= m) by (nonlinear_arith)
                requires
                    d == n * u,
                    m == wins * u * u,
                    wins >= 1,
                    n <= 0x7fff_ffff,
                    0x1_0000_0000 * BINADE <= u,
                    u > 0,
                    BINADE > 0,
            {
                assert(BINADE * (n * u) <= (BINADE * 0x1_0000_0000) * u);
                assert((BINADE * 0x1_0000_0000) * u <= u * u);
                assert(u * u <= wins * (u * u));
            }
            assert(BINADE * e <= wins * u) by (nonlinear_arith)
                requires
                    2 * BINADE * e0 <= m + BINADE * d,
                    BINADE * d <= m,
                    e0 == u * e,
                    m == wins * u * u,
                    u > 0,
            {
                assert(2 * BINADE * (u * e) == 2 * (u * (BINADE * e)));
                assert(wins * u * u == u * (wins * u));
            }
        }
    } else {
        assert(0 * n == 0 && wins * unit() == 0) by (nonlinear_arith)
            requires
                wins == 0,
        ;
        assert(BINADE * 0 == 0);
    }
}

/// One is many steps.
pub proof fn lemma_room()
    ensures
        0x1_0000_0000 * BINADE <= pow2(UNIT_SHIFT as nat),
{
    lemma2_to64();
    lemma2_to64_rest();
    lemma_pow2_adds(32, 52);
    lemma_pow2_adds(84, 990);
    lemma_pow2_pos(990);
    let p = pow2(990);
    assert((0x1_0000_0000 * BINADE) * p >= 0x1_0000_0000 * BINADE) by (nonlinear_arith)
        requires
            p >= 1,
            BINADE > 0,
    ;
}

/// There are at most as many wins as results.
pub proof fn lemma_wins(results: Seq<Quantity>)
    ensures
        profits(results) <= results.len(),
    decreases results.len(),
{
    if results.len() > 0 {
        lemma_wins(results.drop_last());
    }
}

/// A further result counts as a win exactly if it is a profit; breaking even is none.
pub proof fn profit_counts_as_win(results: Seq<Quantity>, result: Quantity)
    ensures
        profits(results.push(result)) == profits(results) + if result.mantissa > 0 {
            1int
        } else {
            0
        },
        profits(Seq::empty()) == 0,
{
    assert(results.push(result).drop_last() =~= results);
}

/// Profit weighs more than volume: of two assessments whose profit and volume are
/// exchanged, the one with the greater profit scores higher, where the two differ by
/// more than rounding. A greater profit has a smaller exponential.
pub proof fn profit_weighs_more_than_volume(
    a: Assessment,
    b: Assessment,
    results: Seq<Quantity>,
    low: Double,
    high: Double,
    config: Config,
)
    requires
        is_assessment(a, results, low, high, config),
        is_assessment(b, results, high, low, config),
        is_amount(low),
        is_amount(high),
        fraction(1, 1).plus(low).finite(),
        fraction(1, 1).plus(high).finite(),
        BINADE * (unit() * (high.value() - low.value())) > 120 * ((unit() + low.value()) * (unit()
            + high.value())),
    ensures
        b.score.below(a.score),
{
    let u = unit();
    let (p, v, w) = (u + low.value(), u + high.value(), a.win_rate.value());
    lemma_one();
    lemma_quotes();
    lemma_steps_zero();
    score_is_the_weighted_sum(a, results, low, high, config);
    score_is_the_weighted_sum(b, results, high, low, config);
    win_rate_is_the_share_of_wins(a, results, low, high, config);
    score_is_bounded(low, a.win_rate, high);
    score_is_bounded(high, a.win_rate, low);
    lemma_exchanged(u, BINADE as int, p, v, w, a.score.value(), b.score.value());
}

/// What exchanging two components changes.
proof fn lemma_exchanged(u: int, b: int, p: int, v: int, w: int, s: int, t: int)
    requires
        b > 0,
        u > 0,
        p > 0,
        v > 0,
        b * distance(100 * (s * (p * v)), 40 * (u * u * v) + 35 * (w * (p * v)) + 25 * (u * u * p)) <= 900 * (u
            * (p * v)),
        b * distance(100 * (t * (v * p)), 40 * (u * u * p) + 35 * (w * (v * p)) + 25 * (u * u * v)) <= 900 * (u
            * (v * p)),
        b * (u * (v - p)) > 120 * (p * v),
    ensures
        t < s,
{
    let y = p * v;
    assert(v * p == y) by (nonlinear_arith)
        requires
            y == p * v,
    ;
    let x1 = 40 * (u * u * v) + 35 * (w * y) + 25 * (u * u * p);
    let x2 = 40 * (u * u * p) + 35 * (w * y) + 25 * (u * u * v);
    let (d1, d2) = (distance(100 * (s * y), x1), distance(100 * (t * y), x2));
    assert(x1 - x2 == 15 * (u * (u * (v - p)))) by (nonlinear_arith)
        requires
            x1 == 40 * (u * u * v) + 35 * (w * y) + 25 * (u * u * p),
            x2 == 40 * (u * u * p) + 35 * (w * y) + 25 * (u * u * v),
    {
        assert(u * (u * (v - p)) == u * u * v - u * u * p);
    }
    assert(100 * (s * y) - 100 * (t * y) >= x1 - x2 - d1 - d2);
    assert(b * (x1 - x2) > 1800 * (u * y)) by (nonlinear_arith)
        requires
            x1 - x2 == 15 * (u * (u * (v - p))),
            b * (u * (v - p)) > 120 * y,
            u > 0,
    {
        assert(b * (15 * (u * (u * (v - p)))) == 15 * (u * (b * (u * (v - p)))));
        assert(u * (b * (u * (v - p))) > u * (120 * y));
    }
    assert(b * (x1 - x2 - d1 - d2) > 0) by (nonlinear_arith)
        requires
            b * (x1 - x2) > 1800 * (u * y),
            b * d1 <= 900 * (u * y),
            b * d2 <= 900 * (u * y),
    ;
    assert(x1 - x2 - d1 - d2 > 0) by (nonlinear_arith)
        requires
            b * (x1 - x2 - d1 - d2) > 0,
            b > 0,
    ;
    assert(y > 0) by (nonlinear_arith)
        requires
            y == p * v,
            p > 0,
            v > 0,
    ;
    assert(t < s) by (nonlinear_arith)
        requires
            100 * (s * y) - 100 * (t * y) > 0,
            y > 0,
    ;
}

/// A trader is scored exactly with at least the least number of resolved trades.
pub proof fn enough_trades_are_scored(
    pnl_decay: Double,
    win_rate: Double,
    volume_decay: Double,
    trades: int,
    min_trades: int,
)
    ensures
        score_of(pnl_decay, win_rate, volume_decay, trades, min_trades) is Some <==> trades >= min_trades,
        score_of(pnl_decay, win_rate, volume_decay, trades, min_trades) matches Some(score) ==> {
            ordinary(pnl_decay) && ordinary(volume_decay) && !win_rate.not_a_number() ==> fraction(0, 1).at_most(
                score,
            ) && score.at_most(fraction(1, 1))
        },
{
    if ordinary(pnl_decay) && ordinary(volume_decay) && !win_rate.not_a_number() {
        score_is_bounded(pnl_decay, win_rate, volume_decay);
    }
}

} // verus!
