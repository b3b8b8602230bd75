//! Position sizing by the Kelly criterion for binary outcome tokens.
//!
//! A token bought at price *p* pays 1 if the outcome resolves in its favour:
//! a stake of 1 wins (1 − p)/p or is lost. With the net odds b = (1 − p)/p and
//! the estimated chance *q* of winning, the growth-optimal share of the
//! bankroll is f* = (b·q − (1 − q))/b. The position is a fixed share of f*,
//! bounded by a hard cap.

use crate::double::accuracy::{
    difference_is_not_greater, lemma_difference, lemma_negative_quotient, lemma_positive_difference,
    lemma_quotient_by_share, quotient_is_monotone,
};
use crate::double::laws::{
    lemma_one, lemma_order, lemma_packed, lemma_positive, lemma_product_sign, lemma_zero, ordinary,
    product_commutes, product_is_monotone, product_with_one, quotient_by_itself,
};
use crate::double::rounding::{
    lemma_increasing, lemma_rounded_exact, lemma_rounded_monotone, rounded, steps, INFINITE,
    UNIT_SHIFT,
};
use crate::double::{fraction, lemma_steps_zero, packed, Double};
use vstd::arithmetic::power2::{lemma_pow2_pos, pow2};
use vstd::prelude::*;

verus! {

/// Result of a Kelly criterion calculation.
#[derive(Clone, Copy, Debug)]
pub struct KellyResult {
    /// Kelly fraction before any safety adjustment.
    pub raw_fraction: Double,
    /// Fraction after the fractional multiplier and the hard cap.
    pub adjusted_fraction: Double,
    /// Recommended position size in USDC.
    pub position_size_usdc: Double,
}

/// The net odds at a price.
pub open spec fn net_odds(price: Double) -> Double {
    fraction(1, 1).minus(price).over(price)
}

/// The growth-optimal fraction of the bankroll at the given price and
/// estimated chance of winning.
pub open spec fn full_kelly(price: Double, win_rate: Double) -> Double {
    net_odds(price).times(win_rate).minus(fraction(1, 1).minus(win_rate)).over(net_odds(price))
}

/// Whether the arguments are outside what the criterion is defined for.
pub open spec fn out_of_domain(
    price: Double,
    win_rate: Double,
    bankroll: Double,
    multiplier: Double,
    cap: Double,
) -> bool {
    ||| !(fraction(0, 1).below(price) && price.below(fraction(1, 1)))
    ||| !(fraction(0, 1).at_most(win_rate) && win_rate.at_most(fraction(1, 1)))
    ||| bankroll.at_most(fraction(0, 1))
    ||| !fraction(0, 1).below(multiplier)
    ||| cap.at_most(fraction(0, 1))
}

/// The recommended position: none outside the domain or without an edge.
pub open spec fn kelly_position(
    price: Double,
    win_rate: Double,
    bankroll: Double,
    multiplier: Double,
    cap: Double,
) -> Option<KellyResult> {
    let raw = full_kelly(price, win_rate);
    let adjusted = raw.times(multiplier).lesser_of(cap);
    if out_of_domain(price, win_rate, bankroll, multiplier, cap) || raw.at_most(fraction(0, 1)) {
        None
    } else {
        Some(
            KellyResult {
                raw_fraction: raw,
                adjusted_fraction: adjusted,
                position_size_usdc: bankroll.times(adjusted),
            },
        )
    }
}

/// Computes the position for an outcome token at `market_price`, given the
/// estimated chance of winning, the bankroll, the fractional multiplier and the
/// hard cap as a fraction of the bankroll. Gives nothing where the price does
/// not lie between 0 and 1, the win rate is no probability, the multiplier is not
/// positive, the bankroll or the cap is zero or less, or there is no edge. Where the
/// odds are too great for a number, the raw fraction is none, and the cap decides.
pub fn kelly(
    market_price: Double,
    whale_win_rate: Double,
    bankroll_usdc: Double,
    kelly_fraction: Double,
    max_position_fraction: Double,
) -> (r: Option<KellyResult>)
    ensures
        r == kelly_position(
            market_price,
            whale_win_rate,
            bankroll_usdc,
            kelly_fraction,
            max_position_fraction,
        ),
{
    let zero = Double::whole(0);
    let one = Double::whole(1);
    if !(zero.lt(market_price) && market_price.lt(one)) {
        return None;
    }
    if !(zero.le(whale_win_rate) && whale_win_rate.le(one)) {
        return None;
    }
    if bankroll_usdc.le(zero) || !zero.lt(kelly_fraction) || max_position_fraction.le(zero) {
        return None;
    }
    let odds = one.sub(market_price).div(market_price);
    let lose = one.sub(whale_win_rate);
    let raw_fraction = odds.mul(whale_win_rate).sub(lose).div(odds);
    if raw_fraction.le(zero) {
        return None;
    }
    let adjusted_fraction = raw_fraction.mul(kelly_fraction).min(max_position_fraction);
    let position_size_usdc = bankroll_usdc.mul(adjusted_fraction);
    Some(KellyResult { raw_fraction, adjusted_fraction, position_size_usdc })
}

/// A recommended fraction is never negative and never above the cap, if that is a
/// number.
pub proof fn kelly_respects_cap(
    price: Double,
    win_rate: Double,
    bankroll: Double,
    multiplier: Double,
    cap: Double,
)
    requires
        !cap.not_a_number(),
    ensures
        kelly_position(price, win_rate, bankroll, multiplier, cap) matches Some(k) ==> {
            &&& fraction(0, 1).at_most(k.adjusted_fraction)
            &&& k.adjusted_fraction.at_most(cap)
        },
{
    let raw = full_kelly(price, win_rate);
    lemma_positive(raw);
    lemma_positive(multiplier);
    lemma_positive(cap);
    let product = raw.times(multiplier);
    lemma_positive(product);
    if kelly_position(price, win_rate, bankroll, multiplier, cap) is Some && !raw.not_a_number()
        && !product.not_a_number() {
        lemma_above_zero(raw);
        lemma_above_zero(multiplier);
        lemma_product_sign(raw, multiplier);
    }
}

/// A number that is not at most zero has no minus sign.
proof fn lemma_above_zero(x: Double)
    requires
        !x.not_a_number(),
        !x.at_most(fraction(0, 1)),
    ensures
        ordinary(x),
        x.magnitude() > 0,
{
    lemma_positive(x);
}

/// A recommended position is never negative and never more than the cap's
/// share of the bankroll; with a cap of at most one, never more than the
/// bankroll itself.
pub proof fn kelly_position_is_bounded(
    price: Double,
    win_rate: Double,
    bankroll: Double,
    multiplier: Double,
    cap: Double,
)
    requires
        bankroll.finite(),
        !cap.not_a_number(),
    ensures
        kelly_position(price, win_rate, bankroll, multiplier, cap) matches Some(k) ==> {
            &&& fraction(0, 1).at_most(k.position_size_usdc)
            &&& k.position_size_usdc.at_most(bankroll.times(cap))
            &&& cap.at_most(fraction(1, 1)) ==> k.position_size_usdc.at_most(bankroll)
        },
{
    if let Some(k) = kelly_position(price, win_rate, bankroll, multiplier, cap) {
        kelly_respects_cap(price, win_rate, bankroll, multiplier, cap);
        lemma_above_zero(bankroll);
        lemma_above_zero(cap);
        let adjusted = k.adjusted_fraction;
        let raw = full_kelly(price, win_rate);
        lemma_positive(adjusted);
        if !raw.not_a_number() && !raw.times(multiplier).not_a_number() {
            lemma_above_zero(raw);
            lemma_above_zero(multiplier);
            lemma_product_sign(raw, multiplier);
        }
        assert(ordinary(adjusted));
        lemma_product_sign(bankroll, adjusted);
        lemma_product_sign(bankroll, cap);
        product_is_monotone(bankroll, adjusted, cap);
        lemma_positive(bankroll.times(adjusted));
        if cap.at_most(fraction(1, 1)) {
            lemma_one();
            lemma_order(adjusted, cap);
            lemma_order(cap, fraction(1, 1));
            lemma_order(adjusted, fraction(1, 1));
            product_with_one(bankroll);
            product_is_monotone(bankroll, adjusted, fraction(1, 1));
        }
    }
}

/// Where the odds are finite, the raw fraction is a number.
pub proof fn lemma_raw(price: Double, win_rate: Double)
    requires
        fraction(0, 1).below(price),
        price.below(fraction(1, 1)),
        fraction(0, 1).at_most(win_rate),
        win_rate.at_most(fraction(1, 1)),
        net_odds(price).finite(),
    ensures
        full_kelly(price, win_rate).at_most(fraction(0, 1)) || fraction(0, 1).below(
            full_kelly(price, win_rate),
        ),
{
    let one = fraction(1, 1);
    let rest = one.minus(price);
    let odds = net_odds(price);
    let lose = one.minus(win_rate);
    let won = odds.times(win_rate);
    let edge = won.minus(lose);
    lemma_one();
    lemma_zero();
    lemma_positive(price);
    lemma_order(price, one);
    lemma_positive_difference(one, price);
    lemma_order(rest, one);
    lemma_quotient_by_share(rest, price);
    lemma_lose(win_rate);
    lemma_positive(win_rate);
    lemma_pow2_pos(UNIT_SHIFT as nat);
    if win_rate.magnitude() == 0 {
        lemma_steps_zero();
        assert(steps(odds.magnitude()) * 0 == 0 && 0 * pow2(UNIT_SHIFT as nat) == 0) by (nonlinear_arith);
        lemma_rounded_exact(0, pow2(UNIT_SHIFT as nat), 0);
        lemma_packed(0);
    } else {
        lemma_order(win_rate, one);
        lemma_product_sign(odds, win_rate);
        product_with_one(odds);
        product_is_monotone(odds, win_rate, one);
        lemma_order(won, odds);
    }
    lemma_difference(won, lose);
    let n = steps(edge.magnitude()) * pow2(UNIT_SHIFT as nat);
    lemma_steps_zero();
    lemma_increasing(0, odds.magnitude());
    lemma_rounded_monotone(n, steps(odds.magnitude()), n, steps(odds.magnitude()));
    lemma_packed(rounded(n, steps(odds.magnitude())));
    lemma_packed(INFINITE as nat);
}

/// An adjusted fraction is a number, unless neither the raw fraction nor the cap
/// is one.
pub proof fn lemma_adjusted(
    price: Double,
    win_rate: Double,
    bankroll: Double,
    multiplier: Double,
    cap: Double,
)
    requires
        !cap.not_a_number() || net_odds(price).finite(),
        kelly_position(price, win_rate, bankroll, multiplier, cap) is Some,
    ensures
        ordinary(kelly_position(price, win_rate, bankroll, multiplier, cap)->0.adjusted_fraction),
{
    let raw = full_kelly(price, win_rate);
    lemma_positive(multiplier);
    if net_odds(price).finite() {
        lemma_raw(price, win_rate);
    }
    if !cap.not_a_number() {
        lemma_above_zero(cap);
    }
    if !raw.not_a_number() {
        lemma_above_zero(raw);
        lemma_product_sign(raw, multiplier);
    }
}

/// A greater bankroll never means a smaller position.
pub proof fn kelly_grows_with_bankroll(
    price: Double,
    win_rate: Double,
    small: Double,
    large: Double,
    multiplier: Double,
    cap: Double,
)
    requires
        small.at_most(large),
        large.finite(),
        !cap.not_a_number() || net_odds(price).finite(),
    ensures
        kelly_position(price, win_rate, small, multiplier, cap) matches Some(a) ==> {
            kelly_position(price, win_rate, large, multiplier, cap) matches Some(b)
                && a.position_size_usdc.at_most(b.position_size_usdc)
        },
{
    if let Some(k) = kelly_position(price, win_rate, small, multiplier, cap) {
        let adjusted = k.adjusted_fraction;
        lemma_adjusted(price, win_rate, small, multiplier, cap);
        lemma_above_zero(small);
        lemma_positive(small);
        lemma_positive(large);
        lemma_order(small, large);
        product_commutes(small, adjusted);
        product_commutes(large, adjusted);
        lemma_product_sign(adjusted, small);
        lemma_product_sign(adjusted, large);
        product_is_monotone(adjusted, small, large);
    }
}

/// Where there is an edge, the odds and what they are made of are finite numbers
/// without a minus sign.
pub proof fn lemma_edge(price: Double, win_rate: Double)
    requires
        fraction(0, 1).below(price),
        price.below(fraction(1, 1)),
        fraction(0, 1).at_most(win_rate),
        win_rate.at_most(fraction(1, 1)),
        fraction(0, 1).below(full_kelly(price, win_rate)),
    ensures
        ordinary(price),
        price.finite(),
        price.magnitude() > 0,
        ordinary(win_rate),
        win_rate.finite(),
        ordinary(fraction(1, 1).minus(price)),
        fraction(1, 1).minus(price).magnitude() > 0,
        ordinary(net_odds(price)),
        net_odds(price).finite(),
        net_odds(price).magnitude() > 0,
        fraction(1, 1).minus(price).at_most(net_odds(price)),
        ordinary(fraction(1, 1).minus(win_rate)),
        ordinary(net_odds(price).times(win_rate)),
        net_odds(price).times(win_rate).at_most(net_odds(price)),
        ordinary(net_odds(price).times(win_rate).minus(fraction(1, 1).minus(win_rate))),
        net_odds(price).times(win_rate).minus(fraction(1, 1).minus(win_rate)).magnitude() > 0,
        net_odds(price).times(win_rate).minus(fraction(1, 1).minus(win_rate)).at_most(net_odds(price)),
        net_odds(price).times(win_rate).minus(fraction(1, 1).minus(win_rate)).finite(),
{
    let one = fraction(1, 1);
    let raw = full_kelly(price, win_rate);
    let rest = one.minus(price);
    let odds = net_odds(price);
    let lose = one.minus(win_rate);
    let won = odds.times(win_rate);
    let edge = won.minus(lose);
    lemma_one();
    lemma_positive(price);
    lemma_positive(win_rate);
    lemma_positive(raw);
    lemma_order(price, one);
    lemma_positive_difference(one, price);
    lemma_order(rest, one);
    lemma_quotient_by_share(rest, price);
    lemma_lose(win_rate);
    lemma_zero();
    lemma_packed(0);
    lemma_packed(lose.magnitude());
    if win_rate.negative() {
        lemma_pow2_pos(UNIT_SHIFT as nat);
        lemma_steps_zero();
        if odds.finite() {
            let n = steps(odds.magnitude()) * steps(0);
            assert(n == 0) by (nonlinear_arith)
                requires
                    n == steps(odds.magnitude()) * steps(0),
                    steps(0) == 0,
            ;
            lemma_rounded_exact(0, pow2(UNIT_SHIFT as nat), 0);
            assert(won == packed(true, 0));
            lemma_increasing(0, lose.magnitude());
            lemma_difference(won, lose);
            lemma_negative_quotient(edge, odds);
        }
    } else if odds.finite() {
        lemma_order(win_rate, one);
        lemma_product_sign(odds, win_rate);
        product_with_one(odds);
        product_is_monotone(odds, win_rate, one);
        lemma_order(won, odds);
        difference_is_not_greater(won, lose);
        lemma_difference(won, lose);
        if edge.negative() {
            lemma_negative_quotient(edge, odds);
        }
        if edge.magnitude() == 0 {
            lemma_steps_zero();
            lemma_increasing(0, odds.magnitude());
            lemma_rounded_exact(0, steps(odds.magnitude()), 0);
            assert(0 * pow2(UNIT_SHIFT as nat) == 0) by (nonlinear_arith);
            lemma_packed(0);
        }
        assert(ordinary(edge));
        lemma_order(edge, won);
        lemma_order(edge, odds);
    }
}

/// The chance of losing is a number without a minus sign.
pub proof fn lemma_lose(win_rate: Double)
    requires
        fraction(0, 1).at_most(win_rate),
        win_rate.at_most(fraction(1, 1)),
    ensures
        ordinary(fraction(1, 1).minus(win_rate)),
        fraction(1, 1).minus(win_rate).finite(),
        win_rate.finite(),
        win_rate.magnitude() == 0 ==> fraction(1, 1).minus(win_rate).magnitude() > 0,
        fraction(1, 1).minus(win_rate).magnitude() == rounded(
            (pow2(UNIT_SHIFT as nat) - win_rate.value()) as nat,
            1,
        ),
{
    let one = fraction(1, 1);
    let rest = one.value() - win_rate.value();
    lemma_one();
    lemma_positive(win_rate);
    lemma_steps_zero();
    lemma_packed(win_rate.magnitude());
    lemma_packed(0);
    lemma_rounded_exact(0, 1, 0);
    lemma_rounded_exact(steps(one.magnitude()), 1, one.magnitude());
    lemma_rounded_monotone(rest as nat, 1, steps(one.magnitude()), 1);
    lemma_packed(rounded(rest as nat, 1));
    if !win_rate.negative() {
        lemma_order(win_rate, one);
    }
    if win_rate.magnitude() == 0 {
        assert(rest == one.value());
        lemma_pow2_pos(UNIT_SHIFT as nat);
        if one.magnitude() == 0 {
            assert(steps(0) == 0);
        }
    }
}

/// A recommended fraction before any adjustment is a share of the bankroll: more
/// than nothing and at most all of it. The adjusted one is more than nothing too,
/// unless the multiplier is so small that the product vanishes.
pub proof fn kelly_fraction_is_a_share(
    price: Double,
    win_rate: Double,
    bankroll: Double,
    multiplier: Double,
    cap: Double,
)
    requires
        net_odds(price).finite(),
    ensures
        kelly_position(price, win_rate, bankroll, multiplier, cap) matches Some(k) ==> {
            &&& fraction(0, 1).below(k.raw_fraction)
            &&& k.raw_fraction.at_most(fraction(1, 1))
            &&& fraction(0, 1).below(k.raw_fraction.times(multiplier)) ==> fraction(0, 1).below(
                k.adjusted_fraction,
            )
        },
{
    if let Some(k) = kelly_position(price, win_rate, bankroll, multiplier, cap) {
        let odds = net_odds(price);
        let edge = odds.times(win_rate).minus(fraction(1, 1).minus(win_rate));
        lemma_raw(price, win_rate);
        lemma_edge(price, win_rate);
        lemma_positive(cap);
        quotient_is_monotone(edge, odds, odds);
        quotient_by_itself(odds);
    }
}

/// The fractions do not depend on the bankroll: with any other bankroll the
/// position is the same share of it.
pub proof fn kelly_fractions_ignore_bankroll(
    price: Double,
    win_rate: Double,
    bankroll: Double,
    other: Double,
    multiplier: Double,
    cap: Double,
)
    requires
        !other.at_most(fraction(0, 1)),
    ensures
        kelly_position(price, win_rate, bankroll, multiplier, cap) matches Some(a) ==> {
            kelly_position(price, win_rate, other, multiplier, cap) == Some(
                KellyResult { position_size_usdc: other.times(a.adjusted_fraction), ..a },
            )
        },
{
}

} // verus!
