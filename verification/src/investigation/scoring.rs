//! Scoring of traders: one comparable figure out of recent profit, win rate
//! and volume, by which the best are selected.
//!
//! All components lie between 0 and 1:
//! score = 0.40 · profit + 0.35 · win rate + 0.25 · volume, where profit and
//! volume go through a logistic curve, which dampens outliers.

use crate::clock::Timestamp;
use crate::double::accuracy::lemma_one_step;
use crate::double::laws::{
    lemma_fraction_is, lemma_one, lemma_order, lemma_packed, lemma_positive, lemma_product_sign,
    lemma_sum_sign, lemma_zero, ordinary, product_is_monotone, product_with_one, quotient_by_itself,
    quotient_is_antitone, sum_is_monotone, sum_with_zero,
};
use crate::double::rounding::{
    lemma_increasing, lemma_machine_powers, lemma_rounded_exact, lemma_rounded_monotone,
    lemma_steps_at, rounded, steps, BINADE, INFINITE, UNIT_SHIFT,
};
use crate::double::{fraction, lemma_steps_zero, Double};
use crate::order::{is_weak_order, rank, ranking, ranking_is_ordered, ranking_rearranges, Ranked};
use crate::quantity::Quantity;
use vstd::arithmetic::power2::{
    lemma2_to64_rest, lemma_pow2_adds, lemma_pow2_pos, lemma_pow2_strictly_increases,
    lemma_pow2_unfold, pow2,
};
use vstd::prelude::*;

verus! {

/// What is known of a trader.
#[derive(Debug)]
pub struct TraderProfile {
    /// Wallet address.
    pub address: String,
    /// Profit in USDC over the period of the leaderboard.
    pub period_pnl: Quantity,
    /// Share of the resolved trades that were profitable.
    pub win_rate: Double,
    /// Win rate with the prior taken into account.
    pub posterior_win_rate: Double,
    /// Lower confidence bound of the win rate.
    pub conservative_win_rate: Double,
    /// How many resolved trades were profitable.
    pub wins: usize,
    /// How many trades were resolved.
    pub resolved_trade_count: i32,
    /// Volume in USDC over the period of the leaderboard.
    pub volume: Quantity,
    /// Ranking score; higher is better.
    pub score: Double,
    /// Tokens that the trader holds.
    pub active_asset_ids: Vec<String>,
    /// When the profile was made.
    pub updated_at: Timestamp,
}

impl TraderProfile {
    /// A profile with the same contents.
    pub fn copy(&self) -> (r: TraderProfile)
        ensures
            r.address == self.address,
            r.active_asset_ids@ == self.active_asset_ids@,
            r == (TraderProfile { active_asset_ids: r.active_asset_ids, ..*self }),
    {
        let mut ids: Vec<String> = Vec::new();
        let mut i: usize = 0;
        while i < self.active_asset_ids.len()
            invariant
                i <= self.active_asset_ids.len(),
                ids@ == self.active_asset_ids@.take(i as int),
            decreases self.active_asset_ids.len() - i,
        {
            ids.push(self.active_asset_ids[i].clone());
            proof {
                assert(self.active_asset_ids@.take(i + 1) =~= self.active_asset_ids@.take(i as int).push(
                    self.active_asset_ids@[i as int],
                ));
            }
            i = i + 1;
        }
        proof {
            assert(self.active_asset_ids@.take(i as int) =~= self.active_asset_ids@);
        }
        TraderProfile {
            address: self.address.clone(),
            period_pnl: self.period_pnl,
            win_rate: self.win_rate,
            posterior_win_rate: self.posterior_win_rate,
            conservative_win_rate: self.conservative_win_rate,
            wins: self.wins,
            resolved_trade_count: self.resolved_trade_count,
            volume: self.volume,
            score: self.score,
            active_asset_ids: ids,
            updated_at: self.updated_at,
        }
    }
}

/// The logistic function of x, given e to the power of −x.
pub open spec fn logistic(decay: Double) -> Double {
    fraction(1, 1).over(fraction(1, 1).plus(decay))
}

/// The logistic function of x, given e to the power of −x.
pub fn sigmoid(decay: Double) -> (r: Double)
    ensures
        r == logistic(decay),
{
    let one = Double::whole(1);
    one.div(one.add(decay))
}

/// The number that an optional one stands for: zero if there is none.
pub open spec fn or_zero(x: Option<Double>) -> Double {
    match x {
        Some(v) => v,
        None => fraction(0, 1),
    }
}

/// What the exponential function is to be applied to for the score of a profit
/// and a volume.
pub open spec fn exponents(pnl_30d: Option<Double>, volume: Option<Double>) -> (Double, Double) {
    (
        or_zero(pnl_30d).over(fraction(1000, 1)).opposite(),
        or_zero(volume).over(fraction(50_000, 1)).opposite(),
    )
}

/// What the exponential function is to be applied to for the score of a profit
/// and a volume.
pub fn score_exponents(pnl_30d: Option<Double>, volume: Option<Double>) -> (r: (Double, Double))
    ensures
        r == exponents(pnl_30d, volume),
{
    let zero = Double::whole(0);
    let pnl = match pnl_30d {
        Some(v) => v,
        None => zero,
    };
    let vol = match volume {
        Some(v) => v,
        None => zero,
    };
    (pnl.div(Double::whole(1000)).neg(), vol.div(Double::whole(50_000)).neg())
}

/// The score of a trader, given the exponentials of profit and volume.
pub open spec fn composite(pnl_decay: Double, win_rate: Double, volume_decay: Double) -> Double {
    fraction(40, 100).times(logistic(pnl_decay)).plus(
        fraction(35, 100).times(win_rate.bounded(fraction(0, 1), fraction(1, 1))),
    ).plus(fraction(25, 100).times(logistic(volume_decay)))
}

/// The score of a trader, given the exponentials of profit and volume; none if
/// too few trades were resolved.
pub open spec fn score_of(
    pnl_decay: Double,
    win_rate: Double,
    volume_decay: Double,
    trades: int,
    min_trades: int,
) -> Option<Double> {
    if trades < min_trades {
        None
    } else {
        Some(composite(pnl_decay, win_rate, volume_decay))
    }
}

/// The score of a trader, given the exponentials of profit and volume; none if
/// too few trades were resolved.
pub fn compute_score(
    pnl_decay: Double,
    win_rate: Double,
    volume_decay: Double,
    resolved_trade_count: i32,
    min_trades: i32,
) -> (r: Option<Double>)
    ensures
        r == score_of(
            pnl_decay,
            win_rate,
            volume_decay,
            resolved_trade_count as int,
            min_trades as int,
        ),
{
    if resolved_trade_count < min_trades {
        return None;
    }
    let pnl_norm = sigmoid(pnl_decay);
    let vol_norm = sigmoid(volume_decay);
    let win = win_rate.clamp(Double::whole(0), Double::whole(1));
    Some(
        Double::ratio(40, 100).mul(pnl_norm).add(Double::ratio(35, 100).mul(win)).add(
            Double::ratio(25, 100).mul(vol_norm),
        ),
    )
}

/// Whether one score ranks before another: the greater first, and what is no
/// number last.
pub open spec fn better(a: Double, b: Double) -> bool {
    !a.not_a_number() && (b.not_a_number() || b.below(a))
}

impl Ranked for TraderProfile {
    open spec fn ranks_before(self, other: TraderProfile) -> bool {
        better(self.score, other.score)
    }

    fn outranks(&self, other: &TraderProfile) -> (r: bool) {
        !self.score.is_nan() && (other.score.is_nan() || other.score.lt(self.score))
    }
}

/// The profiles in the order of their scores, the best first, up to a number.
pub open spec fn selected(profiles: Seq<TraderProfile>, max_whales: int) -> Seq<TraderProfile> {
    if ranking(profiles).len() > max_whales {
        ranking(profiles).take(max_whales)
    } else {
        ranking(profiles)
    }
}

/// Brings profiles into the order of their scores, the best first, and keeps
/// the first `max_whales`. Equal scores keep their order.
pub fn rank_and_trim(profiles: &mut Vec<TraderProfile>, max_whales: usize)
    ensures
        final(profiles)@ == selected(old(profiles)@, max_whales as int),
{
    rank(profiles);
    let ghost ranked = profiles@;
    profiles.truncate(max_whales);
    proof {
        if ranked.len() > max_whales {
            assert(profiles@ =~= ranked.take(max_whales as int));
        } else {
            assert(profiles@ =~= ranked);
        }
    }
}

/// Ranked profiles are the same profiles, and none stands behind one with a worse
/// score: so no profile that is dropped is better than one that is kept.
pub proof fn best_come_first(profiles: Seq<TraderProfile>, i: int, j: int)
    requires
        0 <= i < j < ranking(profiles).len(),
    ensures
        !better(ranking(profiles)[j].score, ranking(profiles)[i].score),
        ranking(profiles).to_multiset() == profiles.to_multiset(),
{
    assert(is_weak_order::<TraderProfile>());
    ranking_is_ordered(profiles);
    ranking_rearranges(profiles);
    assert(!ranking(profiles)[j].ranks_before(ranking(profiles)[i]));
}

/// How many of the results are profits.
pub open spec fn profits(results: Seq<Quantity>) -> nat
    decreases results.len(),
{
    if results.len() == 0 {
        0
    } else {
        profits(results.drop_last()) + (if results.last().positive() {
            1nat
        } else {
            0nat
        })
    }
}

/// How many trades were profitable.
pub fn count_wins(results: &Vec<Quantity>) -> (r: usize)
    ensures
        r == profits(results@),
        r <= results@.len(),
{
    let mut wins: usize = 0;
    let mut i: usize = 0;
    proof {
        assert(results@.take(0) =~= Seq::<Quantity>::empty());
    }
    while i < results.len()
        invariant
            i <= results.len(),
            wins <= i,
            wins == profits(results@.take(i as int)),
        decreases results.len() - i,
    {
        proof {
            let next = results@.take(i + 1);
            assert(next.drop_last() =~= results@.take(i as int));
            assert(next.last() == results@[i as int]);
        }
        if results[i].is_positive() {
            wins = wins + 1;
        }
        i = i + 1;
    }
    proof {
        assert(results@.take(i as int) =~= results@);
    }
    wins
}

/// The share of wins; zero if there were no trades.
pub open spec fn share(wins: nat, trades: nat) -> Double {
    if trades > 0 {
        fraction(wins, 1).over(fraction(trades, 1))
    } else {
        fraction(0, 1)
    }
}

/// The share of wins; zero if there were no trades.
pub fn win_rate(wins: usize, trades: usize) -> (r: Double)
    ensures
        r == share(wins as nat, trades as nat),
{
    if trades > 0 {
        Double::whole(wins as u64).div(Double::whole(trades as u64))
    } else {
        Double::whole(0)
    }
}

/// The win rate with a prior of `alpha` wins and `beta` losses.
pub open spec fn posterior(wins: nat, trades: nat, alpha: Double, beta: Double) -> Double {
    fraction(wins, 1).plus(alpha).over(fraction(trades, 1).plus(alpha).plus(beta))
}

/// The win rate with a prior of `alpha` wins and `beta` losses.
pub fn posterior_win_rate(wins: usize, trades: usize, alpha: Double, beta: Double) -> (r: Double)
    ensures
        r == posterior(wins as nat, trades as nat, alpha, beta),
{
    Double::whole(wins as u64).add(alpha).div(Double::whole(trades as u64).add(alpha).add(beta))
}

/// The variance of the win rate around its mean.
pub open spec fn spread(mean: Double, trades: nat, alpha: Double, beta: Double) -> Double {
    mean.times(fraction(1, 1).minus(mean)).over(
        fraction(trades, 1).plus(alpha).plus(beta).plus(fraction(1, 1)),
    )
}

/// The variance of the win rate around its mean.
pub fn posterior_variance(mean: Double, trades: usize, alpha: Double, beta: Double) -> (r: Double)
    ensures
        r == spread(mean, trades as nat, alpha, beta),
{
    let one = Double::whole(1);
    mean.mul(one.sub(mean)).div(Double::whole(trades as u64).add(alpha).add(beta).add(one))
}

/// The win rate lowered by `z` standard deviations, and no further than zero.
pub open spec fn lowered(mean: Double, z: Double, deviation: Double) -> Double {
    mean.minus(z.times(deviation)).bounded(fraction(0, 1), fraction(1, 1))
}

/// The win rate lowered by `z` standard deviations, and no further than zero.
pub fn conservative_win_rate(mean: Double, z: Double, deviation: Double) -> (r: Double)
    ensures
        r == lowered(mean, z, deviation),
{
    mean.sub(z.mul(deviation)).clamp(Double::whole(0), Double::whole(1))
}

/// The logistic function of any number lies between 0 and 1, and falls as the
/// exponential grows.
pub proof fn logistic_is_bounded(small: Double, large: Double)
    requires
        ordinary(small),
        ordinary(large),
        small.at_most(large),
    ensures
        ordinary(logistic(small)),
        logistic(small).at_most(fraction(1, 1)),
        logistic(large).at_most(logistic(small)),
        ordinary(logistic(large)),
{
    let one = fraction(1, 1);
    lemma_one();
    lemma_pow2_pos(UNIT_SHIFT as nat);
    lemma_steps_zero();
    lemma_positive(one);
    assert(one.magnitude() > 0);
    let zero = fraction(0, 1);
    lemma_positive(zero);
    lemma_positive(small);
    sum_is_monotone(one, zero, one, small);
    sum_is_monotone(one, small, one, large);
    lemma_sum_sign(one, small);
    lemma_sum_sign(one, large);
    sum_with_zero(one);
    lemma_order(one, one.plus(small));
    lemma_order(one.plus(small), one.plus(large));
    quotient_is_antitone(one, one, one.plus(small));
    quotient_is_antitone(one, one.plus(small), one.plus(large));
    quotient_by_itself(one);
}

/// Where the exponential is neither lost in the sum nor makes it infinite, the
/// logistic function lies strictly between 0 and 1.
pub proof fn logistic_is_strictly_bounded(decay: Double)
    requires
        ordinary(decay),
    ensures
        fraction(1, 1).plus(decay).finite() ==> fraction(0, 1).below(logistic(decay)),
        fraction(1, 1).below(fraction(1, 1).plus(decay)) ==> logistic(decay).below(fraction(1, 1)),
{
    let one = fraction(1, 1);
    let sum = one.plus(decay);
    let u = pow2(UNIT_SHIFT as nat);
    let b = BINADE as nat;
    let g = pow2(1021);
    lemma_one();
    lemma_zero();
    lemma_steps_zero();
    lemma_sum_sign(one, decay);
    logistic_is_bounded(decay, decay);
    lemma_machine_powers();
    lemma_pow2_pos(1021);
    lemma_pow2_unfold(1022);
    lemma_pow2_adds(52, 1022);
    // One, and its two neighbours.
    lemma_steps_at(1022, b);
    lemma_steps_at(1022, b + 1);
    lemma_steps_at(1021, (2 * b - 1) as nat);
    let top = (1023 * BINADE) as nat;
    lemma_rounded_exact(1 * u, 1, top);
    lemma_packed(top);
    assert(one.magnitude() == top);
    if sum.finite() {
        // The sum is less than the square of one.
        lemma_steps_at(2046, b);
        lemma_pow2_adds(52, 2046);
        lemma_pow2_adds(1074, 1074);
        lemma_pow2_strictly_increases(2098, 2148);
        lemma_increasing(sum.magnitude(), INFINITE as nat);
        lemma_one_step();
        lemma_rounded_exact(1, 1, 1);
        sum_is_monotone(one, fraction(0, 1), one, decay);
        sum_with_zero(one);
        lemma_positive(decay);
        lemma_order(one, sum);
        lemma_increasing(0, sum.magnitude());
        let n = u * u;
        assert(1 * steps(sum.magnitude()) <= n * 1);
        lemma_rounded_monotone(1, 1, n, steps(sum.magnitude()));
        lemma_packed(rounded(n, steps(sum.magnitude())));
        lemma_positive(logistic(decay));
    }
    if one.below(sum) {
        lemma_order(one, sum);
        if sum.finite() {
            let s = steps(sum.magnitude());
            let pred = (top - 1) as nat;
            if sum.magnitude() > top + 1 {
                lemma_increasing(top + 1, sum.magnitude());
            }
            assert(s >= (b + 1) * (2 * g));
            let n = u * u;
            assert(n * 1 <= steps(pred) * s) by (nonlinear_arith)
                requires
                    n == u * u,
                    u == b * (2 * g),
                    steps(pred) == (2 * b - 1) * g,
                    s >= (b + 1) * (2 * g),
                    b >= 1,
                    g > 0,
            {
                assert(u * u == 4 * ((b * b) * (g * g)));
                assert(((2 * b - 1) * g) * s >= ((2 * b - 1) * g) * ((b + 1) * (2 * g)));
                assert(((2 * b - 1) * g) * ((b + 1) * (2 * g)) == 2 * (((2 * b - 1) * (b + 1)) * (g * g)));
                assert((2 * b - 1) * (b + 1) == 2 * (b * b) + b - 1);
                assert((2 * (b * b) + b - 1) * (g * g) >= (2 * (b * b)) * (g * g));
                assert((2 * (b * b)) * (g * g) == 2 * ((b * b) * (g * g)));
            }
            lemma_rounded_exact(steps(pred), 1, pred);
            lemma_rounded_monotone(n, s, steps(pred), 1);
            lemma_packed(rounded(n, s));
            lemma_order(logistic(decay), one);
        } else {
            lemma_packed(0);
            lemma_order(logistic(decay), one);
        }
    }
}

/// The weights of the components make up one.
pub proof fn lemma_weights()
    ensures
        ordinary(fraction(40, 100)),
        ordinary(fraction(35, 100)),
        ordinary(fraction(25, 100)),
        fraction(40, 100).finite(),
        fraction(35, 100).finite(),
        fraction(25, 100).finite(),
        fraction(40, 100).plus(fraction(35, 100)).plus(fraction(25, 100)) == fraction(1, 1),
        ordinary(fraction(40, 100).plus(fraction(35, 100))),
{
    let u = pow2(UNIT_SHIFT as nat);
    let p = pow2(1020);
    lemma2_to64_rest();
    lemma_pow2_adds(1020, 54);
    lemma_pow2_adds(1020, 52);
    lemma_pow2_adds(1020, 1);
    lemma_pow2_adds(1, 53);
    lemma_pow2_pos(1020);
    lemma_machine_powers();
    assert(pow2(54) == 0x40_0000_0000_0000);
    lemma_fraction_is(40, 100, 7205759403792794, 54);
    lemma_fraction_is(35, 100, 6305039478318694, 54);
    lemma_one();
    // a quarter is exact
    let quarter = (1020 * BINADE + BINADE) as nat;
    lemma_steps_at(1020, BINADE as nat);
    assert(25 * u == (BINADE * p) * 100) by (nonlinear_arith)
        requires
            u == p * 0x40_0000_0000_0000,
            BINADE == 0x10_0000_0000_0000,
    ;
    lemma_rounded_exact((25 * u) as nat, 100, quarter);
    lemma_packed(quarter);
    // two fifths and seven twentieths round to numbers that add up to three quarters
    let three = (1021 * BINADE + 6755399441055744) as nat;
    lemma_steps_at(1021, 6755399441055744);
    assert(7205759403792794 * p + 6305039478318694 * p == 6755399441055744 * (p * 2)) by (nonlinear_arith);
    let sum = fraction(40, 100).value() + fraction(35, 100).value();
    assert(sum == 6755399441055744 * pow2(1021));
    lemma_rounded_exact(sum as nat, 1, three);
    lemma_packed(three);
    lemma_steps_zero();
    let most = fraction(40, 100).plus(fraction(35, 100));
    assert(most.value() == sum);
    let all = most.value() + fraction(25, 100).value();
    assert(6755399441055744 * (p * 2) + BINADE * p == p * 0x40_0000_0000_0000) by (nonlinear_arith)
        requires
            BINADE == 0x10_0000_0000_0000,
    ;
    assert(all == u);
    let one = fraction(1, 1).magnitude();
    lemma_rounded_exact(u, 1, one);
    lemma_packed(one);
    assert(1 * u == u);
}

/// A score lies between 0 and 1.
pub proof fn score_is_bounded(pnl_decay: Double, win_rate: Double, volume_decay: Double)
    requires
        ordinary(pnl_decay),
        ordinary(volume_decay),
        !win_rate.not_a_number(),
    ensures
        fraction(0, 1).at_most(composite(pnl_decay, win_rate, volume_decay)),
        composite(pnl_decay, win_rate, volume_decay).at_most(fraction(1, 1)),
{
    let one = fraction(1, 1);
    let zero = fraction(0, 1);
    let win = win_rate.bounded(zero, one);
    lemma_one();
    lemma_positive(zero);
    lemma_positive(one);
    lemma_positive(win_rate);
    lemma_win_is_share(win_rate);
    logistic_is_bounded(pnl_decay, pnl_decay);
    logistic_is_bounded(volume_decay, volume_decay);
    lemma_positive(logistic(pnl_decay));
    lemma_positive(logistic(volume_decay));
    lemma_weights();
    lemma_positive(fraction(35, 100));
    lemma_order(logistic(pnl_decay), one);
    lemma_order(logistic(volume_decay), one);
    lemma_weighted(fraction(40, 100), logistic(pnl_decay));
    lemma_weighted(fraction(35, 100), win);
    lemma_weighted(fraction(25, 100), logistic(volume_decay));
    let a = fraction(40, 100).times(logistic(pnl_decay));
    let b = fraction(35, 100).times(win);
    let c = fraction(25, 100).times(logistic(volume_decay));
    lemma_product_sign(fraction(40, 100), logistic(pnl_decay));
    lemma_product_sign(fraction(25, 100), logistic(volume_decay));
    lemma_any_zero(a, b);
    let b = if b.negative() {
        zero
    } else {
        b
    };
    sum_is_monotone(a, b, fraction(40, 100), fraction(35, 100));
    lemma_sum_sign(a, b);
    sum_is_monotone(a.plus(b), c, fraction(40, 100).plus(fraction(35, 100)), fraction(25, 100));
    lemma_sum_sign(a.plus(b), c);
    lemma_positive(a.plus(b).plus(c));
}

/// A trader who is not behind in profit, win rate or volume does not score
/// lower. A greater profit or volume has a smaller exponential.
pub proof fn score_is_monotone(
    pnl_decay: Double,
    win_rate: Double,
    volume_decay: Double,
    better_pnl_decay: Double,
    better_win_rate: Double,
    better_volume_decay: Double,
)
    requires
        ordinary(pnl_decay),
        ordinary(volume_decay),
        ordinary(better_pnl_decay),
        ordinary(better_volume_decay),
        better_pnl_decay.at_most(pnl_decay),
        better_volume_decay.at_most(volume_decay),
        win_rate.at_most(better_win_rate),
    ensures
        composite(pnl_decay, win_rate, volume_decay).at_most(
            composite(better_pnl_decay, better_win_rate, better_volume_decay),
        ),
{
    let one = fraction(1, 1);
    let zero = fraction(0, 1);
    let (w1, w2, w3) = (fraction(40, 100), fraction(35, 100), fraction(25, 100));
    lemma_weights();
    lemma_one();
    lemma_pow2_pos(UNIT_SHIFT as nat);
    lemma_positive(zero);
    lemma_positive(one);
    lemma_win_is_share(win_rate);
    lemma_win_is_share(better_win_rate);
    logistic_is_bounded(better_pnl_decay, pnl_decay);
    logistic_is_bounded(better_volume_decay, volume_decay);
    let (p, q) = (logistic(pnl_decay), logistic(better_pnl_decay));
    let (v, x) = (logistic(volume_decay), logistic(better_volume_decay));
    lemma_order(p, q);
    lemma_order(q, one);
    lemma_order(v, x);
    lemma_order(x, one);
    lemma_product_sign(w1, p);
    lemma_product_sign(w1, q);
    lemma_product_sign(w3, v);
    lemma_product_sign(w3, x);
    product_is_monotone(w1, p, q);
    product_is_monotone(w3, v, x);
    let m = win_rate.bounded(zero, one);
    let n = better_win_rate.bounded(zero, one);
    assert(m.at_most(n));
    lemma_weighted(w2, m);
    lemma_weighted(w2, n);
    let b = w2.times(m);
    let c = w2.times(n);
    lemma_any_zero(w1.times(p), b);
    lemma_any_zero(w1.times(q), c);
    lemma_positive(m);
    lemma_positive(n);
    lemma_positive(b);
    lemma_positive(c);
    let b0 = if b.negative() {
        zero
    } else {
        b
    };
    let c0 = if c.negative() {
        zero
    } else {
        c
    };
    assert(b0.at_most(c0)) by {
        lemma_steps_zero();
        assert(zero.at_most(c0));
        if m.negative() {
            assert(m.magnitude() == 0);
            assert(steps(w2.magnitude()) * 0 == 0) by (nonlinear_arith);
            lemma_rounded_exact(0, pow2(UNIT_SHIFT as nat), 0);
            lemma_packed(0);
            assert(b0.magnitude() == 0);
        } else if !n.negative() {
            lemma_order(m, n);
            lemma_order(n, one);
            lemma_product_sign(w2, m);
            lemma_product_sign(w2, n);
            product_is_monotone(w2, m, n);
        } else {
            if m.magnitude() > 0 {
                lemma_increasing(0, m.magnitude());
            }
            assert(m.magnitude() == 0);
            assert(steps(w2.magnitude()) * 0 == 0) by (nonlinear_arith);
            lemma_rounded_exact(0, pow2(UNIT_SHIFT as nat), 0);
            lemma_packed(0);
        }
    }
    sum_is_monotone(w1.times(p), b0, w1.times(q), c0);
    lemma_sum_sign(w1.times(p), b0);
    lemma_sum_sign(w1.times(q), c0);
    sum_is_monotone(w1.times(p).plus(b0), w3.times(v), w1.times(q).plus(c0), w3.times(x));
}

/// A zero of either sign adds nothing.
proof fn lemma_any_zero(a: Double, b: Double)
    requires
        ordinary(a),
        !b.not_a_number(),
    ensures
        b.magnitude() == 0 ==> a.plus(b) == a.plus(fraction(0, 1)),
{
    lemma_positive(b);
    lemma_steps_zero();
}

/// A win rate moved between 0 and 1 is there.
proof fn lemma_win_is_share(win_rate: Double)
    requires
        !win_rate.not_a_number(),
    ensures
        ({
            let win = win_rate.bounded(fraction(0, 1), fraction(1, 1));
            &&& !win.not_a_number()
            &&& fraction(0, 1).at_most(win)
            &&& win.at_most(fraction(1, 1))
        }),
{
    lemma_one();
    lemma_pow2_pos(UNIT_SHIFT as nat);
    lemma_positive(fraction(0, 1));
    lemma_positive(fraction(1, 1));
}

/// A share of a weight is at most the weight.
proof fn lemma_weighted(weight: Double, x: Double)
    requires
        ordinary(weight),
        weight.finite(),
        !x.not_a_number(),
        fraction(0, 1).at_most(x),
        x.at_most(fraction(1, 1)),
    ensures
        ordinary(weight.times(x)) || weight.times(x).magnitude() == 0,
        fraction(0, 1).at_most(weight.times(x)),
        weight.times(x).at_most(weight),
{
    lemma_one();
    lemma_positive(x);
    lemma_positive(weight.times(x));
    if x.negative() {
        lemma_steps_zero();
        lemma_pow2_pos(UNIT_SHIFT as nat);
        assert(steps(weight.magnitude()) * 0 == 0) by (nonlinear_arith);
        lemma_rounded_exact(0, pow2(UNIT_SHIFT as nat), 0);
        lemma_packed(0);
        lemma_positive(weight);
    } else {
        lemma_order(x, fraction(1, 1));
        lemma_product_sign(weight, x);
        lemma_product_sign(weight, fraction(1, 1));
        product_is_monotone(weight, x, fraction(1, 1));
        product_with_one(weight);
    }
}

} // verus!
