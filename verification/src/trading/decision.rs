//! Whether, and how large, a trade is copied.

use crate::config::{within, Config};
use crate::double::accuracy::{
    difference_is_not_greater, lemma_difference, lemma_one_step, lemma_quotient_by_share,
    refilled_is_within_limit,
};
use crate::double::laws::{
    lemma_fraction, lemma_one, lemma_order, lemma_packed, lemma_positive, lemma_product_sign,
    lemma_sum_sign, ordinary,
};
use crate::double::rounding::{
    lemma_increasing, lemma_rounded_exact, lemma_rounded_monotone, rounded, UNIT_SHIFT,
};
use crate::double::{fraction, lemma_steps_zero, Double};
use crate::trading::kelly::{kelly, kelly_position, kelly_position_is_bounded, KellyResult};
use vstd::arithmetic::power2::{lemma_pow2_pos, pow2};
use vstd::prelude::*;

verus! {

/// Side of a trade on the YES token.
#[derive(Clone, Copy, Debug, PartialEq, Eq, Structural)]
pub enum TradeSide {
    Buy,
    Sell,
    Unknown,
}

/// Why a signal was skipped.
#[derive(Clone, Copy, Debug, PartialEq, Eq, Structural)]
pub enum SkipReason {
    BalanceBelowMinimum,
    DailyLossLimitReached,
    MaxConsecutiveLossesReached,
    StaleWhaleProfile,
    InvalidWhaleAddress,
    DataApiError,
    PrimedHistoricalBackfill,
    InvalidMarketPrice,
    InvalidConservativeWinRate,
    NetEdgeBelowThreshold,
    KellyNoEdge,
    PositionBelowMinimum,
    MarketConcentrationLimit,
    MaxNotionalPerMarketReached,
    UnknownTradeSide,
    SharesBelowMinimum,
    MissingLiveAuth,
    InvalidAssetId,
    LiveQuoteFetchFailed,
    InvalidLiveQuote,
    PriceDriftTooLarge,
    ProtectedPriceConversionFailed,
    PositionAmountConversionFailed,
    InvalidPositionAmount,
    SellSharesBelowMinimum,
    ShareAmountConversionFailed,
    InvalidShareAmount,
    OrderBuildFailed,
    OrderSignFailed,
    OrderPostFailed,
}

/// The text under which a reason is counted.
pub open spec fn reason_text(reason: SkipReason) -> Seq<char> {
    match reason {
        SkipReason::BalanceBelowMinimum => "balance_below_minimum"@,
        SkipReason::DailyLossLimitReached => "daily_loss_limit_reached"@,
        SkipReason::MaxConsecutiveLossesReached => "max_consecutive_losses_reached"@,
        SkipReason::StaleWhaleProfile => "stale_whale_profile"@,
        SkipReason::InvalidWhaleAddress => "invalid_whale_address"@,
        SkipReason::DataApiError => "data_api_error"@,
        SkipReason::PrimedHistoricalBackfill => "primed_historical_backfill"@,
        SkipReason::InvalidMarketPrice => "invalid_market_price"@,
        SkipReason::InvalidConservativeWinRate => "invalid_conservative_win_rate"@,
        SkipReason::NetEdgeBelowThreshold => "net_edge_below_threshold"@,
        SkipReason::KellyNoEdge => "kelly_no_edge"@,
        SkipReason::PositionBelowMinimum => "position_below_minimum"@,
        SkipReason::MarketConcentrationLimit => "market_concentration_limit"@,
        SkipReason::MaxNotionalPerMarketReached => "max_notional_per_market_reached"@,
        SkipReason::UnknownTradeSide => "unknown_trade_side"@,
        SkipReason::SharesBelowMinimum => "shares_below_minimum"@,
        SkipReason::MissingLiveAuth => "missing_live_auth"@,
        SkipReason::InvalidAssetId => "invalid_asset_id"@,
        SkipReason::LiveQuoteFetchFailed => "live_quote_fetch_failed"@,
        SkipReason::InvalidLiveQuote => "invalid_live_quote"@,
        SkipReason::PriceDriftTooLarge => "price_drift_too_large"@,
        SkipReason::ProtectedPriceConversionFailed => "protected_price_conversion_failed"@,
        SkipReason::PositionAmountConversionFailed => "position_amount_conversion_failed"@,
        SkipReason::InvalidPositionAmount => "invalid_position_amount"@,
        SkipReason::SellSharesBelowMinimum => "sell_shares_below_minimum"@,
        SkipReason::ShareAmountConversionFailed => "share_amount_conversion_failed"@,
        SkipReason::InvalidShareAmount => "invalid_share_amount"@,
        SkipReason::OrderBuildFailed => "order_build_failed"@,
        SkipReason::OrderSignFailed => "order_sign_failed"@,
        SkipReason::OrderPostFailed => "order_post_failed"@,
    }
}

impl SkipReason {
    /// The text under which the reason is counted.
    pub fn text(&self) -> (r: &'static str)
        ensures
            r@ == reason_text(*self),
    {
        match self {
            SkipReason::BalanceBelowMinimum => "balance_below_minimum",
            SkipReason::DailyLossLimitReached => "daily_loss_limit_reached",
            SkipReason::MaxConsecutiveLossesReached => "max_consecutive_losses_reached",
            SkipReason::StaleWhaleProfile => "stale_whale_profile",
            SkipReason::InvalidWhaleAddress => "invalid_whale_address",
            SkipReason::DataApiError => "data_api_error",
            SkipReason::PrimedHistoricalBackfill => "primed_historical_backfill",
            SkipReason::InvalidMarketPrice => "invalid_market_price",
            SkipReason::InvalidConservativeWinRate => "invalid_conservative_win_rate",
            SkipReason::NetEdgeBelowThreshold => "net_edge_below_threshold",
            SkipReason::KellyNoEdge => "kelly_no_edge",
            SkipReason::PositionBelowMinimum => "position_below_minimum",
            SkipReason::MarketConcentrationLimit => "market_concentration_limit",
            SkipReason::MaxNotionalPerMarketReached => "max_notional_per_market_reached",
            SkipReason::UnknownTradeSide => "unknown_trade_side",
            SkipReason::SharesBelowMinimum => "shares_below_minimum",
            SkipReason::MissingLiveAuth => "missing_live_auth",
            SkipReason::InvalidAssetId => "invalid_asset_id",
            SkipReason::LiveQuoteFetchFailed => "live_quote_fetch_failed",
            SkipReason::InvalidLiveQuote => "invalid_live_quote",
            SkipReason::PriceDriftTooLarge => "price_drift_too_large",
            SkipReason::ProtectedPriceConversionFailed => "protected_price_conversion_failed",
            SkipReason::PositionAmountConversionFailed => "position_amount_conversion_failed",
            SkipReason::InvalidPositionAmount => "invalid_position_amount",
            SkipReason::SellSharesBelowMinimum => "sell_shares_below_minimum",
            SkipReason::ShareAmountConversionFailed => "share_amount_conversion_failed",
            SkipReason::InvalidShareAmount => "invalid_share_amount",
            SkipReason::OrderBuildFailed => "order_build_failed",
            SkipReason::OrderSignFailed => "order_sign_failed",
            SkipReason::OrderPostFailed => "order_post_failed",
        }
    }
}

/// Basis points as a fraction.
pub open spec fn of_bps(bps: Double) -> Double {
    bps.over(fraction(10_000, 1))
}

/// Basis points as a fraction.
pub fn bps_to_fraction(bps: Double) -> (r: Double)
    ensures
        r == of_bps(bps),
{
    bps.div(Double::whole(10_000))
}

/// Whether a price lies strictly between 0 and 1.
pub open spec fn tradable(price: Double) -> bool {
    fraction(0, 1).below(price) && price.below(fraction(1, 1))
}

/// Whether a price lies strictly between 0 and 1.
pub fn is_tradable(price: Double) -> (r: bool)
    ensures
        r == tradable(price),
{
    Double::whole(0).lt(price) && price.lt(Double::whole(1))
}

/// What is known when a trade is to be judged.
#[derive(Clone, Copy, Debug)]
pub struct Situation {
    /// YES price of the trade, if it is a number.
    pub price: Option<Double>,
    /// Side of the trade.
    pub side: TradeSide,
    /// Lower confidence bound of the trader's win rate.
    pub win_rate: Double,
    /// Free cash.
    pub balance: Double,
    /// What was put into the market lately.
    pub exposure: Double,
    /// What was paid for the position in the market.
    pub notional: Double,
}

/// A trade that is to be made.
#[derive(Clone, Copy, Debug)]
pub struct CopyPlan {
    /// Side of the trade that is copied.
    pub side: TradeSide,
    /// Its YES price.
    pub market_price: Double,
    /// Price of the outcome that is bet on.
    pub effective_price: Double,
    /// USDC to use.
    pub size_usdc: Double,
    /// Shares to acquire.
    pub shares: Double,
    /// Kelly fraction of the position.
    pub kelly_fraction: Double,
    /// What had been put into the market lately.
    pub exposure_before: Double,
}

/// What is to be done about a trade.
#[derive(Clone, Copy, Debug)]
pub enum Verdict {
    /// Skip it.
    Skip(SkipReason),
    /// Skip it, and stop looking for trades.
    Stop(SkipReason),
    /// Make it.
    Copy(CopyPlan),
}

/// The price of the outcome that a trade bets on: selling YES bets on NO.
pub open spec fn effective_price(side: TradeSide, price: Double) -> Double {
    if side == TradeSide::Sell {
        fraction(1, 1).minus(price)
    } else {
        price
    }
}

/// The outcome that a trade bets on.
pub open spec fn outcome_of(side: TradeSide) -> Seq<char> {
    if side == TradeSide::Sell {
        "NO"@
    } else {
        "YES"@
    }
}

/// The name of a side; empty for an unknown one.
pub open spec fn side_name(side: TradeSide) -> Seq<char> {
    match side {
        TradeSide::Buy => "Buy"@,
        TradeSide::Sell => "Sell"@,
        TradeSide::Unknown => ""@,
    }
}

impl TradeSide {
    /// The outcome that a trade of this side bets on.
    pub fn outcome(&self) -> (r: &'static str)
        ensures
            r@ == outcome_of(*self),
    {
        match self {
            TradeSide::Sell => "NO",
            _ => "YES",
        }
    }

    /// The name of the side.
    pub fn name(&self) -> (r: &'static str)
        ensures
            r@ == side_name(*self),
    {
        match self {
            TradeSide::Buy => "Buy",
            TradeSide::Sell => "Sell",
            TradeSide::Unknown => "",
        }
    }
}

/// The edge that is left of a win rate over a price after the estimated costs.
pub open spec fn net_edge(win_rate: Double, price: Double, config: Config) -> Double {
    win_rate.minus(price).minus(
        of_bps(
            config.estimated_fee_bps.plus(config.estimated_slippage_bps).plus(config.adverse_selection_bps),
        ),
    )
}

/// The most that may be put into one market: three tenths of the bankroll.
pub open spec fn concentration_limit(config: Config) -> Double {
    config.bankroll_usdc.times(fraction(3, 10))
}

/// What is left up to a limit, and at least zero.
pub open spec fn room(limit: Double, used: Double) -> Double {
    limit.minus(used).greater_of(fraction(0, 1))
}

/// Whether a limit is passed and what is left up to it is too little to trade.
pub open spec fn exhausted(limit: Double, used: Double, size: Double) -> bool {
    limit.below(used.plus(size)) && room(limit, used).below(fraction(1, 1))
}

/// A position cut to what is left of the share of the bankroll that one market
/// may take.
pub open spec fn concentrated(position: Double, exposure: Double, config: Config) -> Double {
    position.lesser_of(concentration_limit(config).minus(exposure)).greater_of(fraction(0, 1))
}

/// A position cut to what is left of the absolute limit of one market.
pub open spec fn capped(size: Double, notional: Double, config: Config) -> Double {
    if config.max_notional_per_market_usdc.below(notional.plus(size)) {
        size.lesser_of(room(config.max_notional_per_market_usdc, notional))
    } else {
        size
    }
}

/// The size of the trade, given the position that the Kelly criterion
/// recommends.
pub open spec fn final_size(position: Double, s: Situation, config: Config) -> Double {
    capped(concentrated(position, s.exposure, config), s.notional, config)
}

/// What is to be done about a trade whose edge justifies a position.
pub open spec fn sized_verdict(k: KellyResult, price: Double, s: Situation, config: Config) -> Verdict {
    let one = fraction(1, 1);
    let position = k.position_size_usdc;
    let effective = effective_price(s.side, price);
    let size = final_size(position, s, config);
    let shares = size.over(effective).greater_of(fraction(0, 1));
    if position.below(one) {
        Verdict::Skip(SkipReason::PositionBelowMinimum)
    } else if exhausted(concentration_limit(config), s.exposure, position) {
        Verdict::Skip(SkipReason::MarketConcentrationLimit)
    } else if exhausted(
        config.max_notional_per_market_usdc,
        s.notional,
        concentrated(position, s.exposure, config),
    ) {
        Verdict::Skip(SkipReason::MaxNotionalPerMarketReached)
    } else if size.below(one) {
        Verdict::Skip(SkipReason::PositionBelowMinimum)
    } else if s.side == TradeSide::Unknown {
        Verdict::Skip(SkipReason::UnknownTradeSide)
    } else if shares.below(fraction(1, 100)) {
        Verdict::Skip(SkipReason::SharesBelowMinimum)
    } else {
        Verdict::Copy(
            CopyPlan {
                side: s.side,
                market_price: price,
                effective_price: effective,
                size_usdc: size,
                shares,
                kelly_fraction: k.adjusted_fraction,
                exposure_before: s.exposure,
            },
        )
    }
}

/// What is to be done about a trade.
pub open spec fn verdict(s: Situation, config: Config) -> Verdict {
    match s.price {
        Some(price) if tradable(price) => {
            let effective = effective_price(s.side, price);
            if s.balance.below(fraction(5, 1)) {
                Verdict::Stop(SkipReason::BalanceBelowMinimum)
            } else if !within(s.win_rate, 0, 1) {
                Verdict::Skip(SkipReason::InvalidConservativeWinRate)
            } else if net_edge(s.win_rate, effective, config).at_most(of_bps(config.min_net_edge_bps)) {
                Verdict::Skip(SkipReason::NetEdgeBelowThreshold)
            } else {
                match kelly_position(
                    effective,
                    s.win_rate,
                    s.balance,
                    config.kelly_fraction,
                    config.max_position_fraction,
                ) {
                    Some(k) => sized_verdict(k, price, s, config),
                    None => Verdict::Skip(SkipReason::KellyNoEdge),
                }
            }
        },
        _ => Verdict::Skip(SkipReason::InvalidMarketPrice),
    }
}

/// Whether a limit is passed and what is left up to it is too little to trade.
fn is_exhausted(limit: Double, used: Double, size: Double) -> (r: bool)
    ensures
        r == exhausted(limit, used, size),
{
    limit.lt(used.add(size)) && limit.sub(used).max(Double::whole(0)).lt(Double::whole(1))
}

/// Decides what is to be done about a trade whose edge justifies a position.
fn size_trade(k: &KellyResult, price: Double, s: &Situation, config: &Config) -> (r: Verdict)
    ensures
        r == sized_verdict(*k, price, *s, *config),
{
    let zero = Double::whole(0);
    let one = Double::whole(1);
    let position = k.position_size_usdc;
    if position.lt(one) {
        return Verdict::Skip(SkipReason::PositionBelowMinimum);
    }
    let max_market = config.bankroll_usdc.mul(Double::ratio(3, 10));
    if is_exhausted(max_market, s.exposure, position) {
        return Verdict::Skip(SkipReason::MarketConcentrationLimit);
    }
    let mut size = position.min(max_market.sub(s.exposure)).max(zero);
    let max_notional = config.max_notional_per_market_usdc;
    if is_exhausted(max_notional, s.notional, size) {
        return Verdict::Skip(SkipReason::MaxNotionalPerMarketReached);
    }
    if max_notional.lt(s.notional.add(size)) {
        size = size.min(max_notional.sub(s.notional).max(zero));
    }
    if size.lt(one) {
        return Verdict::Skip(SkipReason::PositionBelowMinimum);
    }
    let effective = match s.side {
        TradeSide::Sell => one.sub(price),
        TradeSide::Buy => price,
        TradeSide::Unknown => {
            return Verdict::Skip(SkipReason::UnknownTradeSide);
        },
    };
    let shares = size.div(effective).max(zero);
    if shares.lt(Double::ratio(1, 100)) {
        return Verdict::Skip(SkipReason::SharesBelowMinimum);
    }
    Verdict::Copy(
        CopyPlan {
            side: s.side,
            market_price: price,
            effective_price: effective,
            size_usdc: size,
            shares,
            kelly_fraction: k.adjusted_fraction,
            exposure_before: s.exposure,
        },
    )
}

/// Decides what is to be done about a trade: whether its price, the balance, the
/// win rate and the net edge justify copying it, how large the position is by
/// the Kelly criterion, and what the limits of the market leave of it.
pub fn evaluate(s: &Situation, config: &Config) -> (r: Verdict)
    ensures
        r == verdict(*s, *config),
{
    let price = match s.price {
        Some(p) => p,
        None => {
            return Verdict::Skip(SkipReason::InvalidMarketPrice);
        },
    };
    if !is_tradable(price) {
        return Verdict::Skip(SkipReason::InvalidMarketPrice);
    }
    let one = Double::whole(1);
    let effective = match s.side {
        TradeSide::Sell => one.sub(price),
        _ => price,
    };
    if s.balance.lt(Double::whole(5)) {
        return Verdict::Stop(SkipReason::BalanceBelowMinimum);
    }
    if !(Double::whole(0).le(s.win_rate) && s.win_rate.le(one)) {
        return Verdict::Skip(SkipReason::InvalidConservativeWinRate);
    }
    let cost = bps_to_fraction(
        config.estimated_fee_bps.add(config.estimated_slippage_bps).add(config.adverse_selection_bps),
    );
    let edge = s.win_rate.sub(effective).sub(cost);
    if edge.le(bps_to_fraction(config.min_net_edge_bps)) {
        return Verdict::Skip(SkipReason::NetEdgeBelowThreshold);
    }
    match kelly(
        effective,
        s.win_rate,
        s.balance,
        config.kelly_fraction,
        config.max_position_fraction,
    ) {
        Some(k) => size_trade(&k, price, s, config),
        None => Verdict::Skip(SkipReason::KellyNoEdge),
    }
}

/// A trade that is made has a proper price, side and win rate, an edge above
/// the least one, and a size of at least one USDC and a hundredth of a share.
pub proof fn copied_trade_is_worthwhile(s: Situation, config: Config)
    ensures
        verdict(s, config) matches Verdict::Copy(plan) ==> {
            &&& s.price == Some(plan.market_price)
            &&& tradable(plan.market_price)
            &&& plan.side == s.side
            &&& s.side != TradeSide::Unknown
            &&& plan.effective_price == effective_price(s.side, plan.market_price)
            &&& within(s.win_rate, 0, 1)
            &&& !s.balance.below(fraction(5, 1))
            &&& !net_edge(s.win_rate, plan.effective_price, config).at_most(
                of_bps(config.min_net_edge_bps),
            )
            &&& fraction(1, 1).at_most(plan.size_usdc)
            &&& fraction(1, 100).at_most(plan.shares)
        },
{
    if let Verdict::Copy(plan) = verdict(s, config) {
        lemma_number(concentration_limit(config).minus(s.exposure));
        lemma_one();
        lemma_fraction(1, 100);
        lemma_positive(fraction(0, 1));
    }
}

/// The greater of a number and zero is a number.
proof fn lemma_number(x: Double)
    ensures
        !x.greater_of(fraction(0, 1)).not_a_number(),
{
    lemma_positive(fraction(0, 1));
}

/// A trade that is made is never larger than the Kelly criterion recommends, nor
/// than what is left of the market's share of the bankroll, nor, where the
/// absolute limit of the market would be passed, than what is left of that.
pub proof fn copied_trade_is_within_limits(s: Situation, config: Config, k: KellyResult)
    requires
        verdict(s, config) is Copy,
        kelly_position(
            effective_price(s.side, s.price->0),
            s.win_rate,
            s.balance,
            config.kelly_fraction,
            config.max_position_fraction,
        ) == Some(k),
        !k.position_size_usdc.not_a_number(),
        !concentration_limit(config).minus(s.exposure).not_a_number(),
    ensures
        verdict(s, config) matches Verdict::Copy(plan) ==> {
            &&& plan.size_usdc.at_most(k.position_size_usdc)
            &&& plan.size_usdc.at_most(concentration_limit(config).minus(s.exposure))
            &&& !config.max_notional_per_market_usdc.below(s.notional.plus(plan.size_usdc))
                || plan.size_usdc.at_most(room(config.max_notional_per_market_usdc, s.notional))
        },
{
    let left = concentration_limit(config).minus(s.exposure);
    let first = concentrated(k.position_size_usdc, s.exposure, config);
    lemma_one();
    lemma_pow2_pos(UNIT_SHIFT as nat);
    lemma_steps_zero();
    lemma_positive(fraction(0, 1));
    lemma_positive(fraction(1, 1));
    lemma_number(config.max_notional_per_market_usdc.minus(s.notional));
    if let Verdict::Copy(plan) = verdict(s, config) {
        assert(fraction(0, 1).below(fraction(1, 1)));
        assert(!first.not_a_number());
        assert(plan.size_usdc.at_most(first));
        assert(!first.below(fraction(1, 1)));
        assert(first == k.position_size_usdc.lesser_of(left));
    }
}

/// A trade that is made never uses more than the allowed share of the balance,
/// nor more than the balance.
pub proof fn copied_trade_is_affordable(s: Situation, config: Config)
    requires
        verdict(s, config) is Copy,
        s.balance.finite(),
        within(config.max_position_fraction, 0, 1),
        within(config.kelly_fraction, 0, 1),
        !concentration_limit(config).minus(s.exposure).not_a_number(),
    ensures
        verdict(s, config) matches Verdict::Copy(plan) ==> {
            &&& plan.size_usdc.at_most(s.balance.times(config.max_position_fraction))
            &&& plan.size_usdc.at_most(s.balance)
        },
{
    let effective = effective_price(s.side, s.price->0);
    let k = kelly_position(
        effective,
        s.win_rate,
        s.balance,
        config.kelly_fraction,
        config.max_position_fraction,
    )->0;
    kelly_position_is_bounded(
        effective,
        s.win_rate,
        s.balance,
        config.kelly_fraction,
        config.max_position_fraction,
    );
    copied_trade_is_within_limits(s, config, k);
}

/// After a trade that is made, what was put into its market lately and what was
/// paid there pass neither limit, but for at most one last place that rounding
/// may add; and its shares are what its size buys.
pub proof fn copied_trade_keeps_limits(s: Situation, config: Config)
    requires
        verdict(s, config) is Copy,
        s.balance.finite(),
        fraction(0, 1).at_most(s.exposure),
        s.exposure.finite(),
        fraction(0, 1).at_most(s.notional),
        s.notional.finite(),
        concentration_limit(config).finite(),
        fraction(0, 1).below(config.bankroll_usdc),
        fraction(0, 1).below(config.max_notional_per_market_usdc),
        config.max_notional_per_market_usdc.finite(),
        !config.max_position_fraction.not_a_number(),
    ensures
        verdict(s, config) matches Verdict::Copy(plan) ==> {
            &&& s.exposure.plus(plan.size_usdc).magnitude() <= concentration_limit(config).magnitude() + 1
            &&& s.notional.plus(plan.size_usdc).magnitude()
                <= config.max_notional_per_market_usdc.magnitude() + 1
            &&& !s.exposure.plus(plan.size_usdc).negative()
            &&& !s.notional.plus(plan.size_usdc).negative()
            &&& plan.shares == plan.size_usdc.over(plan.effective_price)
        },
{
    if let Verdict::Copy(plan) = verdict(s, config) {
        let effective = effective_price(s.side, s.price->0);
        let k = kelly_position(
            effective,
            s.win_rate,
            s.balance,
            config.kelly_fraction,
            config.max_position_fraction,
        )->0;
        let limit = concentration_limit(config);
        let most = config.max_notional_per_market_usdc;
        kelly_position_is_bounded(
            effective,
            s.win_rate,
            s.balance,
            config.kelly_fraction,
            config.max_position_fraction,
        );
        lemma_positive(config.bankroll_usdc);
        lemma_positive(most);
        lemma_positive(s.exposure);
        lemma_positive(s.notional);
        lemma_fraction(3, 10);
        lemma_three_tenths();
        lemma_product_sign(config.bankroll_usdc, fraction(3, 10));
        copied_trade_is_worthwhile(s, config);
        lemma_one();
        lemma_positive(plan.size_usdc);
        lemma_positive(fraction(1, 1));
        lemma_steps_zero();
        lemma_pow2_pos(UNIT_SHIFT as nat);
        // Negative zeros count as zero.
        lemma_plain(s.exposure);
        lemma_plain(s.notional);
        lemma_same_sum(s.exposure, plan.size_usdc);
        lemma_same_sum(s.notional, plan.size_usdc);
        lemma_same_difference(limit, s.exposure);
        lemma_same_difference(most, s.notional);
        lemma_difference(limit, s.exposure);
        lemma_difference(most, s.notional);
        copied_trade_is_within_limits(s, config, k);
        refilled_is_within_limit(limit, s.exposure.unsigned(), plan.size_usdc);
        lemma_difference(limit, s.exposure.unsigned());
        lemma_positive(limit.minus(s.exposure));
        difference_is_not_greater(limit, s.exposure.unsigned());
        lemma_order(plan.size_usdc, limit);
        lemma_positive(effective);
        lemma_quotient_by_share(plan.size_usdc, effective);
        lemma_positive(plan.size_usdc.over(effective));
        let notional = s.notional.unsigned();
        lemma_sum_sign(notional, plan.size_usdc);
        if most.below(s.notional.plus(plan.size_usdc)) {
            let left = most.minus(s.notional);
            lemma_positive(room(most, s.notional));
            if !plan.size_usdc.at_most(left) {
                assert(room(most, s.notional) == fraction(0, 1));
            }
            refilled_is_within_limit(most, notional, plan.size_usdc);
        } else {
            lemma_order(notional.plus(plan.size_usdc), most);
        }
    }
}

/// Three tenths is a positive number.
proof fn lemma_three_tenths()
    ensures
        fraction(0, 1).below(fraction(3, 10)),
        fraction(3, 10).finite(),
{
    lemma_fraction(3, 10);
    lemma_fraction(1, 1);
    lemma_one();
    lemma_positive(fraction(3, 10));
    lemma_one_step();
    lemma_rounded_exact(1, 1, 1);
    let u = pow2(UNIT_SHIFT as nat);
    lemma_room();
    lemma_rounded_monotone(1, 1, (3 * u) as nat, 10);
    lemma_rounded_monotone((3 * u) as nat, 10, (1 * u) as nat, 1);
    lemma_packed(rounded((3 * u) as nat, 10));
    lemma_packed(rounded((1 * u) as nat, 1));
}

/// One is many steps.
proof fn lemma_room()
    ensures
        pow2(UNIT_SHIFT as nat) >= 16,
{
    vstd::arithmetic::power2::lemma2_to64();
    vstd::arithmetic::power2::lemma_pow2_strictly_increases(4, 1074);
}

/// A number that is not below zero stands for the same as without its sign.
proof fn lemma_plain(x: Double)
    requires
        fraction(0, 1).at_most(x),
    ensures
        ordinary(x.unsigned()),
        x.unsigned().value() == x.value(),
        x.unsigned().magnitude() == x.magnitude(),
{
    lemma_positive(x);
    lemma_steps_zero();
    lemma_packed(x.magnitude());
}

/// The sign of a zero does not matter to a sum with a positive number.
proof fn lemma_same_sum(x: Double, y: Double)
    requires
        fraction(0, 1).at_most(x),
        x.finite(),
        fraction(0, 1).below(y),
    ensures
        x.plus(y) == x.unsigned().plus(y),
{
    lemma_plain(x);
    lemma_positive(y);
    lemma_steps_zero();
    lemma_increasing(0, y.magnitude());
}

/// The sign of a zero does not matter to what is left of a number without a
/// minus sign.
proof fn lemma_same_difference(x: Double, y: Double)
    requires
        ordinary(x),
        x.finite(),
        fraction(0, 1).at_most(y),
        y.finite(),
    ensures
        x.minus(y) == x.minus(y.unsigned()),
{
    lemma_plain(y);
    lemma_steps_zero();
    lemma_packed(y.magnitude());
    assert(y.opposite().value() == y.unsigned().opposite().value());
}

} // verus!
