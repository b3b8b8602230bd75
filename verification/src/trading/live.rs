//! Placement of a live order, step by step.
//!
//! Each step asks for one thing from outside (a quote, a conversion, an order to
//! be built, signed or posted) and is told what came of it.

use crate::config::Config;
use crate::double::laws::lemma_fraction;
use crate::double::{fraction, Double};
use crate::quantity::Quantity;
use crate::trading::decision::{
    bps_to_fraction, is_tradable, of_bps, tradable, CopyPlan, SkipReason, TradeSide,
};
use vstd::prelude::*;

verus! {

/// What is being waited for.
#[derive(Clone, Copy, Debug, PartialEq, Eq, Structural)]
pub enum Stage {
    /// Whether there are credentials, and whether the token is known.
    Prepare,
    /// The present quote.
    Quote,
    /// The protective price as a decimal.
    Price,
    /// The amount as a decimal.
    Amount,
    /// Whether the amount is acceptable.
    Check,
    /// The order.
    Build,
    /// Its signature.
    Sign,
    /// Its placement.
    Post,
    /// Nothing more.
    Over,
}

/// What came of the last step.
#[derive(Clone, Copy, Debug)]
pub enum Event {
    /// Whether there are credentials, and whether the token is known.
    Prepared { authenticated: bool, token_known: bool },
    /// The quote, if it could be fetched; its price, if it is a number.
    Quoted(Option<Option<Double>>),
    /// The number as a decimal, if it has one.
    Converted(Option<Quantity>),
    /// The order was posted and answered; whether the reply says that it was
    /// accepted.
    Posted { accepted: bool },
    /// The step succeeded.
    Succeeded,
    /// The step failed.
    Failed,
}

/// What is to be done next.
#[derive(Clone, Copy, Debug)]
pub enum Action {
    /// Fetch the present quote.
    FetchQuote,
    /// Make the protective price a decimal.
    ConvertPrice(Double),
    /// Make the amount a decimal.
    ConvertAmount(Double),
    /// Make it an amount of USDC.
    AcceptUsdc(Quantity),
    /// Make it an amount of shares.
    AcceptShares(Quantity),
    /// Build the order.
    BuildOrder,
    /// Sign it.
    SignOrder,
    /// Post it.
    PostOrder,
    /// Record the trade.
    RecordTrade,
    /// Give up for a reason.
    GiveUp(SkipReason),
    /// Nothing: the order was placed or given up before, or the event does not
    /// belong to the step.
    Nothing,
}

/// How far a quote is from a price, in basis points of the price.
pub open spec fn drift_bps(quote: Double, price: Double) -> Double {
    quote.minus(price).unsigned().over(price).times(fraction(10_000, 1))
}

/// The worst price at which an order may be filled.
pub open spec fn protected_price(side: TradeSide, quote: Double, config: Config) -> Double {
    let slip = of_bps(config.max_order_slippage_bps);
    if side == TradeSide::Buy {
        quote.times(fraction(1, 1).plus(slip)).lesser_of(fraction(9999, 10_000))
    } else {
        quote.times(fraction(1, 1).minus(slip)).greater_of(fraction(1, 10_000))
    }
}

/// How many shares a sale of the given size is.
pub open spec fn shares_to_sell(plan: CopyPlan) -> Double {
    plan.size_usdc.over(plan.market_price).greater_of(fraction(0, 1))
}

/// What follows from a quote.
pub open spec fn after_quote(plan: CopyPlan, config: Config, quote: Option<Option<Double>>) -> (Stage, Action) {
    match quote {
        None => (Stage::Over, Action::GiveUp(SkipReason::LiveQuoteFetchFailed)),
        Some(price) => match price {
            Some(q) if tradable(q) => if config.max_copy_price_drift_bps.below(
                drift_bps(q, plan.market_price),
            ) {
                (Stage::Over, Action::GiveUp(SkipReason::PriceDriftTooLarge))
            } else {
                (Stage::Price, Action::ConvertPrice(protected_price(plan.side, q, config)))
            },
            _ => (Stage::Over, Action::GiveUp(SkipReason::InvalidLiveQuote)),
        },
    }
}

/// What follows from an event.
pub open spec fn live_step(plan: CopyPlan, config: Config, stage: Stage, event: Event) -> (Stage, Action) {
    let buying = plan.side == TradeSide::Buy;
    match (stage, event) {
        (Stage::Prepare, Event::Prepared { authenticated, token_known }) => if !authenticated {
            (Stage::Over, Action::GiveUp(SkipReason::MissingLiveAuth))
        } else if !token_known {
            (Stage::Over, Action::GiveUp(SkipReason::InvalidAssetId))
        } else if plan.side == TradeSide::Unknown {
            (Stage::Over, Action::GiveUp(SkipReason::UnknownTradeSide))
        } else {
            (Stage::Quote, Action::FetchQuote)
        },
        (Stage::Quote, Event::Quoted(quote)) => after_quote(plan, config, quote),
        (Stage::Price, Event::Converted(None)) => (
            Stage::Over,
            Action::GiveUp(SkipReason::ProtectedPriceConversionFailed),
        ),
        (Stage::Price, Event::Converted(Some(_))) => if buying {
            (Stage::Amount, Action::ConvertAmount(plan.size_usdc))
        } else if shares_to_sell(plan).below(fraction(1, 100)) {
            (Stage::Over, Action::GiveUp(SkipReason::SellSharesBelowMinimum))
        } else {
            (Stage::Amount, Action::ConvertAmount(shares_to_sell(plan)))
        },
        (Stage::Amount, Event::Converted(None)) => (
            Stage::Over,
            Action::GiveUp(
                if buying {
                    SkipReason::PositionAmountConversionFailed
                } else {
                    SkipReason::ShareAmountConversionFailed
                },
            ),
        ),
        (Stage::Amount, Event::Converted(Some(amount))) => (
            Stage::Check,
            if buying {
                Action::AcceptUsdc(amount)
            } else {
                Action::AcceptShares(amount.cut(2))
            },
        ),
        (Stage::Check, Event::Succeeded) => (Stage::Build, Action::BuildOrder),
        (Stage::Check, Event::Failed) => (
            Stage::Over,
            Action::GiveUp(
                if buying {
                    SkipReason::InvalidPositionAmount
                } else {
                    SkipReason::InvalidShareAmount
                },
            ),
        ),
        (Stage::Build, Event::Succeeded) => (Stage::Sign, Action::SignOrder),
        (Stage::Build, Event::Failed) => (Stage::Over, Action::GiveUp(SkipReason::OrderBuildFailed)),
        (Stage::Sign, Event::Succeeded) => (Stage::Post, Action::PostOrder),
        (Stage::Sign, Event::Failed) => (Stage::Over, Action::GiveUp(SkipReason::OrderSignFailed)),
        (Stage::Post, Event::Posted { accepted }) => (
            Stage::Over,
            if accepted {
                Action::RecordTrade
            } else {
                Action::GiveUp(SkipReason::OrderPostFailed)
            },
        ),
        (Stage::Post, Event::Failed) => (Stage::Over, Action::GiveUp(SkipReason::OrderPostFailed)),
        _ => (stage, Action::Nothing),
    }
}

/// An order that is being placed.
#[derive(Clone, Copy, Debug)]
pub struct LiveOrder {
    pub plan: CopyPlan,
    pub stage: Stage,
}

impl LiveOrder {
    /// Begins to place the order of a plan.
    pub fn new(plan: CopyPlan) -> (r: LiveOrder)
        ensures
            r.plan == plan,
            r.stage == Stage::Prepare,
    {
        LiveOrder { plan, stage: Stage::Prepare }
    }

    /// Decides what follows from a quote.
    fn on_quote(&self, config: &Config, quote: Option<Option<Double>>) -> (r: (Stage, Action))
        ensures
            r == after_quote(self.plan, *config, quote),
    {
        let price = match quote {
            None => {
                return (Stage::Over, Action::GiveUp(SkipReason::LiveQuoteFetchFailed));
            },
            Some(p) => p,
        };
        let q = match price {
            None => {
                return (Stage::Over, Action::GiveUp(SkipReason::InvalidLiveQuote));
            },
            Some(q) => q,
        };
        if !is_tradable(q) {
            return (Stage::Over, Action::GiveUp(SkipReason::InvalidLiveQuote));
        }
        let drift = q.sub(self.plan.market_price).abs().div(self.plan.market_price).mul(
            Double::whole(10_000),
        );
        if config.max_copy_price_drift_bps.lt(drift) {
            return (Stage::Over, Action::GiveUp(SkipReason::PriceDriftTooLarge));
        }
        let one = Double::whole(1);
        let slip = bps_to_fraction(config.max_order_slippage_bps);
        let protective = match self.plan.side {
            TradeSide::Buy => q.mul(one.add(slip)).min(Double::ratio(9999, 10_000)),
            _ => q.mul(one.sub(slip)).max(Double::ratio(1, 10_000)),
        };
        (Stage::Price, Action::ConvertPrice(protective))
    }

    /// Takes an event and decides what is to be done next.
    pub fn step(&mut self, config: &Config, event: Event) -> (r: Action)
        requires
            event matches Event::Converted(Some(q)) ==> q.mantissa > i128::MIN,
        ensures
            (final(self).stage, r) == live_step(old(self).plan, *config, old(self).stage, event),
            final(self).plan == old(self).plan,
    {
        let buying = match self.plan.side {
            TradeSide::Buy => true,
            _ => false,
        };
        let unknown = match self.plan.side {
            TradeSide::Unknown => true,
            _ => false,
        };
        let (stage, action) = match (self.stage, event) {
            (Stage::Prepare, Event::Prepared { authenticated, token_known }) => if !authenticated {
                (Stage::Over, Action::GiveUp(SkipReason::MissingLiveAuth))
            } else if !token_known {
                (Stage::Over, Action::GiveUp(SkipReason::InvalidAssetId))
            } else if unknown {
                (Stage::Over, Action::GiveUp(SkipReason::UnknownTradeSide))
            } else {
                (Stage::Quote, Action::FetchQuote)
            },
            (Stage::Quote, Event::Quoted(quote)) => self.on_quote(config, quote),
            (Stage::Price, Event::Converted(None)) => (
                Stage::Over,
                Action::GiveUp(SkipReason::ProtectedPriceConversionFailed),
            ),
            (Stage::Price, Event::Converted(Some(_))) => if buying {
                (Stage::Amount, Action::ConvertAmount(self.plan.size_usdc))
            } else {
                let shares = self.plan.size_usdc.div(self.plan.market_price).max(Double::whole(0));
                if shares.lt(Double::ratio(1, 100)) {
                    (Stage::Over, Action::GiveUp(SkipReason::SellSharesBelowMinimum))
                } else {
                    (Stage::Amount, Action::ConvertAmount(shares))
                }
            },
            (Stage::Amount, Event::Converted(None)) => (
                Stage::Over,
                Action::GiveUp(
                    if buying {
                        SkipReason::PositionAmountConversionFailed
                    } else {
                        SkipReason::ShareAmountConversionFailed
                    },
                ),
            ),
            (Stage::Amount, Event::Converted(Some(amount))) => (
                Stage::Check,
                if buying {
                    Action::AcceptUsdc(amount)
                } else {
                    Action::AcceptShares(amount.truncated(2))
                },
            ),
            (Stage::Check, Event::Succeeded) => (Stage::Build, Action::BuildOrder),
            (Stage::Check, Event::Failed) => (
                Stage::Over,
                Action::GiveUp(
                    if buying {
                        SkipReason::InvalidPositionAmount
                    } else {
                        SkipReason::InvalidShareAmount
                    },
                ),
            ),
            (Stage::Build, Event::Succeeded) => (Stage::Sign, Action::SignOrder),
            (Stage::Build, Event::Failed) => (
                Stage::Over,
                Action::GiveUp(SkipReason::OrderBuildFailed),
            ),
            (Stage::Sign, Event::Succeeded) => (Stage::Post, Action::PostOrder),
            (Stage::Sign, Event::Failed) => (
                Stage::Over,
                Action::GiveUp(SkipReason::OrderSignFailed),
            ),
            (Stage::Post, Event::Posted { accepted }) => (
                Stage::Over,
                if accepted {
                    Action::RecordTrade
                } else {
                    Action::GiveUp(SkipReason::OrderPostFailed)
                },
            ),
            (Stage::Post, Event::Failed) => (
                Stage::Over,
                Action::GiveUp(SkipReason::OrderPostFailed),
            ),
            (s, _) => (s, Action::Nothing),
        };
        self.stage = stage;
        action
    }
}

/// The stage after a run of events from the beginning.
pub open spec fn stage_after(plan: CopyPlan, config: Config, events: Seq<Event>) -> Stage
    decreases events.len(),
{
    if events.len() == 0 {
        Stage::Prepare
    } else {
        live_step(plan, config, stage_after(plan, config, events.drop_last()), events.last()).0
    }
}

/// Whether a run of events holds a quote close enough to the price.
pub open spec fn quoted_within_drift(plan: CopyPlan, config: Config, events: Seq<Event>) -> bool {
    exists|i: int|
        0 <= i < events.len() && (#[trigger] events[i] matches Event::Quoted(Some(Some(q))) && tradable(q)
            && !config.max_copy_price_drift_bps.below(drift_bps(q, plan.market_price)))
}

/// Whether a stage lies behind the quote.
pub open spec fn behind_quote(stage: Stage) -> bool {
    stage == Stage::Price || stage == Stage::Amount || stage == Stage::Check || stage == Stage::Build
        || stage == Stage::Sign || stage == Stage::Post
}

/// Behind the quote, a quote close enough to the price was seen.
pub proof fn lemma_quote_was_seen(plan: CopyPlan, config: Config, events: Seq<Event>)
    requires
        behind_quote(stage_after(plan, config, events)),
    ensures
        quoted_within_drift(plan, config, events),
    decreases events.len(),
{
    if events.len() > 0 {
        let shorter = events.drop_last();
        let before = stage_after(plan, config, shorter);
        if behind_quote(before) {
            lemma_quote_was_seen(plan, config, shorter);
            let i = choose|i: int|
                0 <= i < shorter.len() && (#[trigger] shorter[i] matches Event::Quoted(Some(Some(q)))
                    && tradable(q) && !config.max_copy_price_drift_bps.below(
                    drift_bps(q, plan.market_price),
                ));
            assert(events[i] == shorter[i]);
        } else {
            assert(before == Stage::Quote);
            assert(events[events.len() - 1] == events.last());
        }
    }
}

/// A live trade is recorded only when its order was posted and accepted, and only
/// after a quote that had not drifted too far from the copied price.
pub proof fn recorded_only_when_posted(plan: CopyPlan, config: Config, events: Seq<Event>)
    requires
        events.len() > 0,
        live_step(plan, config, stage_after(plan, config, events.drop_last()), events.last()).1 is RecordTrade,
    ensures
        stage_after(plan, config, events.drop_last()) == Stage::Post,
        events.last() == (Event::Posted { accepted: true }),
        quoted_within_drift(plan, config, events),
{
    let shorter = events.drop_last();
    lemma_quote_was_seen(plan, config, shorter);
    let i = choose|i: int|
        0 <= i < shorter.len() && (#[trigger] shorter[i] matches Event::Quoted(Some(Some(q))) && tradable(q)
            && !config.max_copy_price_drift_bps.below(drift_bps(q, plan.market_price)));
    assert(events[i] == shorter[i]);
}

/// Once an order is placed or given up, nothing follows.
pub proof fn over_is_over(plan: CopyPlan, config: Config, event: Event)
    ensures
        live_step(plan, config, Stage::Over, event) == (Stage::Over, Action::Nothing),
{
}

/// A protective price stays within the range that a token can be quoted at.
pub proof fn protected_price_is_quotable(side: TradeSide, quote: Double, config: Config)
    ensures
        side == TradeSide::Buy ==> protected_price(side, quote, config).at_most(fraction(9999, 10_000)),
        side != TradeSide::Buy ==> fraction(1, 10_000).at_most(protected_price(side, quote, config)),
{
    lemma_fraction(9999, 10_000);
    lemma_fraction(1, 10_000);
}

} // verus!
