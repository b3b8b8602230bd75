//! When a trade must be copied, and when it must not.

use crate::config::Config;
use crate::double::accuracy::{
    distance, lemma_positive_difference, lemma_price, lemma_quotient_by_share,
};
use crate::double::laws::{
    lemma_number, lemma_one, lemma_order, lemma_packed, lemma_positive, lemma_product_sign,
    lemma_zero, ordinary,
};
use crate::double::rounding::{BINADE, INFINITE, UNIT_SHIFT};
use crate::double::{fraction, Double};
use crate::trading::accuracy::{
    clear_edge_is_found, kelly_fraction_is_accurate, no_edge_is_worth_nothing, unit,
};
use crate::trading::decision::{verdict, CopyPlan, Situation, SkipReason, TradeSide, Verdict};
use crate::trading::kelly::{kelly_position, net_odds, KellyResult};
use vstd::arithmetic::power2::{lemma_pow2_pos, pow2};
use vstd::prelude::*;

verus! {

/// Some small numbers in their order.
proof fn lemma_small_fractions()
    ensures
        fraction(0, 1).below(fraction(1, 1)),
        fraction(1, 100).at_most(fraction(1, 1)),
        fraction(1, 1).below(fraction(5, 1)),
{
    let u = pow2(UNIT_SHIFT as nat);
    lemma_pow2_pos(UNIT_SHIFT as nat);
    lemma_number(0);
    lemma_number(1);
    lemma_number(5);
    lemma_price(1, 100);
    assert(0 * u < 1 * u < 5 * u) by (nonlinear_arith)
        requires
            u > 0,
    ;
}

/// A trade at a price between 0 and 1 on a known side, with enough cash, a win rate
/// that is a probability, an edge over the price of its outcome that is more than the
/// costs and the least edge, a position of at least one by the Kelly criterion, and at
/// least one left of both limits of its market, is copied. It buys the outcome that it
/// bets on (YES at the price, or NO at one minus it) for the least of the position and
/// of what is left of the two limits, the second only where it would be passed.
pub proof fn worthwhile_trade_is_copied(s: Situation, config: Config, price: Double, k: KellyResult)
    requires
        s.price == Some(price),
        fraction(0, 1).below(price),
        price.below(fraction(1, 1)),
        s.side == TradeSide::Buy || s.side == TradeSide::Sell,
        fraction(5, 1).at_most(s.balance),
        fraction(0, 1).at_most(s.win_rate),
        s.win_rate.at_most(fraction(1, 1)),
        ({
            let bet = if s.side == TradeSide::Buy {
                price
            } else {
                fraction(1, 1).minus(price)
            };
            let costs = config.estimated_fee_bps.plus(config.estimated_slippage_bps).plus(
                config.adverse_selection_bps,
            ).over(fraction(10_000, 1));
            &&& config.min_net_edge_bps.over(fraction(10_000, 1)).below(s.win_rate.minus(bet).minus(costs))
            &&& kelly_position(
                bet,
                s.win_rate,
                s.balance,
                config.kelly_fraction,
                config.max_position_fraction,
            ) == Some(k)
        }),
        fraction(1, 1).at_most(k.position_size_usdc),
        fraction(1, 1).at_most(config.bankroll_usdc.times(fraction(3, 10)).minus(s.exposure)),
        fraction(1, 1).at_most(config.max_notional_per_market_usdc.minus(s.notional)),
    ensures
        verdict(s, config) is Copy,
        ({
            let plan = verdict(s, config)->Copy_0;
            let bet = if s.side == TradeSide::Buy {
                price
            } else {
                fraction(1, 1).minus(price)
            };
            let position = k.position_size_usdc;
            let left = config.bankroll_usdc.times(fraction(3, 10)).minus(s.exposure);
            let most = config.max_notional_per_market_usdc;
            &&& plan.side == s.side
            &&& plan.market_price == price
            &&& plan.effective_price == bet
            &&& plan.kelly_fraction == k.adjusted_fraction
            &&& plan.exposure_before == s.exposure
            &&& plan.shares == plan.size_usdc.over(bet)
            &&& fraction(1, 1).at_most(plan.size_usdc)
            &&& plan.size_usdc.at_most(position)
            &&& plan.size_usdc.at_most(left)
            &&& plan.size_usdc == position || plan.size_usdc == left || plan.size_usdc == most.minus(
                s.notional,
            )
            &&& !most.below(s.notional.plus(plan.size_usdc)) || plan.size_usdc.at_most(
                most.minus(s.notional),
            )
            &&& plan.size_usdc == position || plan.size_usdc == left || most.below(s.notional.plus(position))
                || most.below(s.notional.plus(left))
        }),
{
    let one = fraction(1, 1);
    let zero = fraction(0, 1);
    lemma_small_fractions();
    lemma_zero();
    lemma_one();
    let bet = if s.side == TradeSide::Buy {
        price
    } else {
        one.minus(price)
    };
    let position = k.position_size_usdc;
    let left = config.bankroll_usdc.times(fraction(3, 10)).minus(s.exposure);
    let rest = config.max_notional_per_market_usdc.minus(s.notional);
    lemma_positive(price);
    lemma_order(price, one);
    lemma_positive_difference(one, price);
    assert(ordinary(bet) && bet.magnitude() > 0 && bet.at_most(one));
    lemma_positive(position);
    lemma_positive(left);
    lemma_positive(rest);
    lemma_order(one, position);
    lemma_order(one, left);
    lemma_order(one, rest);
    lemma_order(zero, one);
    lemma_larger(position, bet);
    lemma_larger(left, bet);
    lemma_larger(rest, bet);
}

/// What one buys of an outcome at its price is at least as much as is paid.
proof fn lemma_larger(size: Double, bet: Double)
    requires
        fraction(1, 1).at_most(size),
        ordinary(bet),
        bet.magnitude() > 0,
        bet.at_most(fraction(1, 1)),
    ensures
        ordinary(size),
        ordinary(size.over(bet)),
        fraction(1, 1).at_most(size.over(bet)),
        size.over(bet).greater_of(fraction(0, 1)) == size.over(bet),
{
    lemma_small_fractions();
    lemma_zero();
    lemma_one();
    lemma_positive(size);
    lemma_order(fraction(1, 1), size);
    lemma_order(bet, fraction(1, 1));
    if size.finite() {
        lemma_quotient_by_share(size, bet);
        lemma_order(size, size.over(bet));
        lemma_order(fraction(1, 1), size.over(bet));
    } else {
        lemma_packed(INFINITE as nat);
        lemma_order(fraction(1, 1), size.over(bet));
    }
    lemma_positive(size.over(bet));
}

/// A trade that is not copied is refused for a reason that holds: the price is not
/// between 0 and 1, there is too little cash, the win rate is no probability, the edge
/// over the price of the outcome is not more than the costs and the least edge, the
/// Kelly criterion gives no position or one below one, less than one is left of a limit
/// of the market, or the side is not known.
pub proof fn refused_trade_has_its_reason(s: Situation, config: Config)
    ensures
        ({
            let one = fraction(1, 1);
            let price = s.price->0;
            let bet = if s.side == TradeSide::Sell {
                one.minus(price)
            } else {
                price
            };
            let costs = config.estimated_fee_bps.plus(config.estimated_slippage_bps).plus(
                config.adverse_selection_bps,
            ).over(fraction(10_000, 1));
            let k = kelly_position(
                bet,
                s.win_rate,
                s.balance,
                config.kelly_fraction,
                config.max_position_fraction,
            );
            let too_small = k is Some && !one.at_most(k->0.position_size_usdc);
            let no_share_left = !one.at_most(
                config.bankroll_usdc.times(fraction(3, 10)).minus(s.exposure),
            );
            let nothing_left = !one.at_most(config.max_notional_per_market_usdc.minus(s.notional));
            match verdict(s, config) {
                Verdict::Copy(_) => true,
                Verdict::Stop(reason) => reason == SkipReason::BalanceBelowMinimum && s.balance.below(
                    fraction(5, 1),
                ),
                Verdict::Skip(reason) => match reason {
                    SkipReason::InvalidMarketPrice => s.price is None || !fraction(0, 1).below(price)
                        || !price.below(one),
                    SkipReason::InvalidConservativeWinRate => !fraction(0, 1).at_most(s.win_rate)
                        || !s.win_rate.at_most(one),
                    SkipReason::NetEdgeBelowThreshold => s.win_rate.minus(bet).minus(costs).at_most(
                        config.min_net_edge_bps.over(fraction(10_000, 1)),
                    ),
                    SkipReason::KellyNoEdge => k is None,
                    SkipReason::PositionBelowMinimum => too_small || no_share_left || nothing_left,
                    SkipReason::MarketConcentrationLimit => no_share_left,
                    SkipReason::MaxNotionalPerMarketReached => nothing_left,
                    SkipReason::UnknownTradeSide => s.side == TradeSide::Unknown,
                    SkipReason::SharesBelowMinimum => too_small || no_share_left || nothing_left,
                    _ => false,
                },
            }
        }),
{
    let one = fraction(1, 1);
    let zero = fraction(0, 1);
    lemma_small_fractions();
    lemma_zero();
    lemma_one();
    lemma_positive(zero);
    if let Some(price) = s.price {
        let bet = if s.side == TradeSide::Sell {
            one.minus(price)
        } else {
            price
        };
        if zero.below(price) && price.below(one) {
            lemma_positive(price);
            lemma_order(price, one);
            lemma_positive_difference(one, price);
            let k = kelly_position(
                bet,
                s.win_rate,
                s.balance,
                config.kelly_fraction,
                config.max_position_fraction,
            );
            let position = k->0.position_size_usdc;
            let left = config.bankroll_usdc.times(fraction(3, 10)).minus(s.exposure);
            let rest = config.max_notional_per_market_usdc.minus(s.notional);
            if one.at_most(position) && one.at_most(left) && one.at_most(rest) {
                lemma_larger(position, bet);
                lemma_larger(left, bet);
                lemma_larger(rest, bet);
            }
        }
    }
}

/// Selling YES is judged as buying NO at one minus the price is: with the same
/// reason if it is refused, and for as much money and as many shares if it is copied.
pub proof fn sale_is_judged_as_a_purchase_of_the_other_outcome(sale: Situation, config: Config, price: Double)
    requires
        sale.side == TradeSide::Sell,
        sale.price == Some(price),
        fraction(0, 1).below(price),
        price.below(fraction(1, 1)),
        fraction(1, 1).minus(price).below(fraction(1, 1)),
    ensures
        ({
            let purchase = Situation {
                side: TradeSide::Buy,
                price: Some(fraction(1, 1).minus(price)),
                ..sale
            };
            match verdict(purchase, config) {
                Verdict::Skip(reason) => verdict(sale, config) == Verdict::Skip(reason),
                Verdict::Stop(reason) => verdict(sale, config) == Verdict::Stop(reason),
                Verdict::Copy(plan) => verdict(sale, config) == Verdict::Copy(
                    CopyPlan { side: TradeSide::Sell, market_price: price, ..plan },
                ),
            }
        }),
{
    lemma_one();
    lemma_positive(price);
    lemma_order(price, fraction(1, 1));
    lemma_positive_difference(fraction(1, 1), price);
    lemma_positive(fraction(1, 1).minus(price));
}

/// A clear edge is bet on: where the exact fraction (win rate less price, over one less
/// price) is at least 2^-49 and the odds are finite, there is a position. Its raw
/// fraction is the exact one within 2^-50; the adjusted one is the raw one times the
/// multiplier, or the cap where that is less; and the position is that share of the
/// bankroll.
pub proof fn clear_edge_is_bet_on(
    price: Double,
    win_rate: Double,
    bankroll: Double,
    multiplier: Double,
    cap: Double,
)
    requires
        fraction(0, 1).below(price),
        price.below(fraction(1, 1)),
        fraction(0, 1).at_most(win_rate),
        win_rate.at_most(fraction(1, 1)),
        fraction(0, 1).below(bankroll),
        fraction(0, 1).below(multiplier),
        fraction(0, 1).below(cap),
        fraction(1, 1).minus(price).over(price).finite(),
        BINADE * (win_rate.value() - price.value()) >= 8 * (unit() - price.value()),
    ensures
        kelly_position(price, win_rate, bankroll, multiplier, cap) is Some,
        ({
            let k = kelly_position(price, win_rate, bankroll, multiplier, cap)->0;
            let product = k.raw_fraction.times(multiplier);
            &&& BINADE * distance(
                k.raw_fraction.value() * (unit() - price.value()),
                (win_rate.value() - price.value()) * unit(),
            ) <= 4 * (unit() * (unit() - price.value()))
            &&& !product.not_a_number()
            &&& k.adjusted_fraction == if cap.below(product) {
                cap
            } else {
                product
            }
            &&& k.position_size_usdc == bankroll.times(k.adjusted_fraction)
        }),
{
    clear_edge_is_found(price, win_rate);
    kelly_fraction_is_accurate(price, win_rate);
    let raw = kelly_position(price, win_rate, bankroll, multiplier, cap)->0.raw_fraction;
    lemma_positive(bankroll);
    lemma_positive(multiplier);
    lemma_positive(cap);
    lemma_positive(raw);
    lemma_zero();
    lemma_product_sign(raw, multiplier);
}

/// A position is recommended only for a price between 0 and 1 and a win rate that is a
/// probability, with a bankroll, a multiplier and a cap above zero, and where the win
/// rate is above the price but for 2^-50. Bankroll and cap count as above zero where
/// they are no numbers.
pub proof fn position_needs_an_edge(
    price: Double,
    win_rate: Double,
    bankroll: Double,
    multiplier: Double,
    cap: Double,
)
    requires
        kelly_position(price, win_rate, bankroll, multiplier, cap) is Some,
    ensures
        fraction(0, 1).below(price),
        price.below(fraction(1, 1)),
        fraction(0, 1).at_most(win_rate),
        win_rate.at_most(fraction(1, 1)),
        bankroll.not_a_number() || fraction(0, 1).below(bankroll),
        fraction(0, 1).below(multiplier),
        cap.not_a_number() || fraction(0, 1).below(cap),
        fraction(1, 1).minus(price).over(price).finite() ==> BINADE * (price.value() - win_rate.value()) < 4
            * (unit() - price.value()),
{
    lemma_positive(bankroll);
    lemma_positive(cap);
    if net_odds(price).finite() {
        if win_rate.at_most(price) {
            no_edge_is_worth_nothing(price, win_rate, bankroll, multiplier, cap);
        } else {
            lemma_one();
            let (p, w, u) = (price.value(), win_rate.value(), unit());
            assert(BINADE * (p - w) < 0) by (nonlinear_arith)
                requires
                    p < w,
                    BINADE > 0,
            ;
        }
    }
}

/// A trade is copied only at a price between 0 and 1, on a known side, with cash that is
/// not below five, with a win rate that is a probability and an edge over the price of
/// its outcome that is not within the costs and the least edge, and for a size of at
/// least one that the Kelly criterion and both limits of the market allow.
pub proof fn copied_trade_meets_every_condition(s: Situation, config: Config)
    requires
        verdict(s, config) is Copy,
    ensures
        ({
            let plan = verdict(s, config)->Copy_0;
            let one = fraction(1, 1);
            let bet = if s.side == TradeSide::Sell {
                one.minus(plan.market_price)
            } else {
                plan.market_price
            };
            let costs = config.estimated_fee_bps.plus(config.estimated_slippage_bps).plus(
                config.adverse_selection_bps,
            ).over(fraction(10_000, 1));
            let k = kelly_position(
                bet,
                s.win_rate,
                s.balance,
                config.kelly_fraction,
                config.max_position_fraction,
            );
            let share = config.bankroll_usdc.times(fraction(3, 10)).minus(s.exposure);
            let most = config.max_notional_per_market_usdc;
            &&& s.price == Some(plan.market_price)
            &&& fraction(0, 1).below(plan.market_price)
            &&& plan.market_price.below(one)
            &&& s.side == TradeSide::Buy || s.side == TradeSide::Sell
            &&& plan.side == s.side
            &&& !s.balance.below(fraction(5, 1))
            &&& fraction(0, 1).at_most(s.win_rate)
            &&& s.win_rate.at_most(one)
            &&& !s.win_rate.minus(bet).minus(costs).at_most(config.min_net_edge_bps.over(fraction(10_000, 1)))
            &&& plan.effective_price == bet
            &&& k matches Some(kelly) && plan.kelly_fraction == kelly.adjusted_fraction
                && !kelly.position_size_usdc.below(one) && !kelly.position_size_usdc.below(plan.size_usdc)
            &&& !plan.size_usdc.below(one)
            &&& !share.below(plan.size_usdc)
            &&& most.below(s.notional.plus(plan.size_usdc)) ==> !most.minus(s.notional).below(plan.size_usdc)
            &&& plan.exposure_before == s.exposure
        }),
{
    lemma_small_fractions();
    lemma_zero();
    lemma_one();
}

} // verus!
