//! What an order is placed for: how much of it, at what price, and in which steps.

use crate::config::Config;
use crate::double::accuracy::{
    distance, lemma_price, lemma_quotient_by_share, lemma_rounding_error, product_undoes_quotient,
};
use crate::double::laws::{
    is_amount, lemma_fraction, lemma_one, lemma_order, lemma_positive, lemma_zero, ordinary,
};
use crate::double::rounding::{lemma_increasing, steps, BINADE, UNIT_SHIFT};
use crate::double::{fraction, lemma_steps_zero, Double};
use crate::quantity::{cutting_moves_toward_zero, Quantity};
use crate::state::valuation::lemma_quotes;
use crate::trading::accuracy::unit;
use crate::trading::decision::{CopyPlan, SkipReason, TradeSide};
use crate::trading::live::{live_step, Action, Event, Stage};
use vstd::arithmetic::power::pow;
use vstd::arithmetic::power2::pow2;
use vstd::prelude::*;

verus! {

/// A purchase is for the size of the plan in USDC, whatever its prices are.
pub proof fn purchase_is_for_the_size(plan: CopyPlan, config: Config, price: Quantity)
    requires
        plan.side == TradeSide::Buy,
    ensures
        live_step(plan, config, Stage::Price, Event::Converted(Some(price))) == (
            Stage::Amount,
            Action::ConvertAmount(plan.size_usdc),
        ),
{
}

/// A sale of at least one USDC is of as many shares as are worth its size at the price
/// of the copied trade: the shares times that price are the size, up to the last place.
pub proof fn sale_is_worth_the_size(plan: CopyPlan, config: Config, price: Quantity)
    requires
        plan.side == TradeSide::Sell,
        is_amount(plan.size_usdc),
        fraction(1, 1).at_most(plan.size_usdc),
        fraction(0, 1).below(plan.market_price),
        plan.market_price.at_most(fraction(1, 1)),
        plan.size_usdc.over(plan.market_price).finite(),
    ensures
        live_step(plan, config, Stage::Price, Event::Converted(Some(price))).0 == Stage::Amount,
        live_step(plan, config, Stage::Price, Event::Converted(Some(price))).1 matches Action::ConvertAmount(
            shares,
        ) && {
            let worth = plan.market_price.times(shares);
            &&& is_amount(shares)
            &&& ordinary(worth)
            &&& plan.size_usdc.magnitude() - 1 <= worth.magnitude() <= plan.size_usdc.magnitude() + 1
            &&& BINADE * distance(
                shares.value() * plan.market_price.value(),
                plan.size_usdc.value() * unit(),
            ) <= plan.size_usdc.value() * unit()
        },
{
    let shares = plan.size_usdc.over(plan.market_price);
    let (p, s) = (plan.market_price, plan.size_usdc);
    lemma_zero();
    lemma_one();
    lemma_price(1, 1);
    lemma_price(1, 100);
    lemma_positive(p);
    lemma_order(p, fraction(1, 1));
    lemma_order(fraction(1, 1), s);
    lemma_quotient_by_share(s, p);
    lemma_order(s, shares);
    lemma_order(fraction(1, 100), fraction(1, 1));
    lemma_order(fraction(1, 100), shares);
    lemma_positive(shares);
    product_undoes_quotient(s, p);
    let n = steps(s.magnitude()) * pow2(UNIT_SHIFT as nat);
    let d = steps(p.magnitude());
    lemma_steps_zero();
    lemma_increasing(0, p.magnitude());
    lemma_rounding_error(n, d);
    let u = unit();
    lemma_quotes();
    assert(BINADE * d <= n && n == s.value() * u) by (nonlinear_arith)
        requires
            n == s.value() * u,
            d <= u,
            u > 0,
            8 * BINADE < u,
            s.value() >= u,
    ;
    lemma_halved(BINADE as int, distance((steps(shares.magnitude()) * d) as int, n as int), n as int);
}

/// Half of twice a number.
proof fn lemma_halved(b: int, e: int, n: int)
    requires
        2 * b * e <= n + n,
    ensures
        b * e <= n,
{
    assert(2 * b * e == 2 * (b * e)) by (nonlinear_arith);
}

/// An order is placed step by step: it is prepared, a quote near enough to the copied
/// price is fetched, the protective price and the amount are made decimals, the amount
/// is accepted (of shares, cut to hundredths), and the order is built, signed and
/// posted. When it was accepted the trade is recorded.
pub proof fn order_is_placed_step_by_step(
    plan: CopyPlan,
    config: Config,
    quote: Double,
    amount: Quantity,
)
    requires
        plan.side != TradeSide::Unknown,
        fraction(0, 1).below(quote),
        quote.below(fraction(1, 1)),
        quote.minus(plan.market_price).unsigned().over(plan.market_price).times(fraction(10_000, 1)).at_most(
            config.max_copy_price_drift_bps,
        ),
        amount.mantissa > i128::MIN,
    ensures
        live_step(
            plan,
            config,
            Stage::Prepare,
            Event::Prepared { authenticated: true, token_known: true },
        ) == (Stage::Quote, Action::FetchQuote),
        live_step(plan, config, Stage::Quote, Event::Quoted(Some(Some(quote)))).0 == Stage::Price,
        live_step(plan, config, Stage::Quote, Event::Quoted(Some(Some(quote)))).1 is ConvertPrice,
        live_step(plan, config, Stage::Amount, Event::Converted(Some(amount))).0 == Stage::Check,
        plan.side == TradeSide::Buy ==> live_step(
            plan,
            config,
            Stage::Amount,
            Event::Converted(Some(amount)),
        ).1 == Action::AcceptUsdc(amount),
        plan.side == TradeSide::Sell ==> (live_step(
            plan,
            config,
            Stage::Amount,
            Event::Converted(Some(amount)),
        ).1 matches Action::AcceptShares(shares) && is_cut_to_hundredths(amount, shares)),
        live_step(plan, config, Stage::Check, Event::Succeeded) == (Stage::Build, Action::BuildOrder),
        live_step(plan, config, Stage::Build, Event::Succeeded) == (Stage::Sign, Action::SignOrder),
        live_step(plan, config, Stage::Sign, Event::Succeeded) == (Stage::Post, Action::PostOrder),
        live_step(plan, config, Stage::Post, Event::Posted { accepted: true }) == (
            Stage::Over,
            Action::RecordTrade,
        ),
{
    if amount.scale > 2 {
        cutting_moves_toward_zero(amount, 2);
    }
}

/// Whether of a quantity only whole hundredths are left, and less than one is gone.
pub open spec fn is_cut_to_hundredths(q: Quantity, cut: Quantity) -> bool {
    if q.scale <= 2 {
        cut == q
    } else {
        let step = pow(10, (q.scale - 2) as nat);
        &&& cut.scale == 2
        &&& q.mantissa >= 0 ==> cut.mantissa * step <= q.mantissa < (cut.mantissa + 1) * step
        &&& q.mantissa < 0 ==> (cut.mantissa - 1) * step < q.mantissa <= cut.mantissa * step
    }
}

/// An order is given up for a reason that holds, and is then over.
pub proof fn order_is_given_up_for_its_reason(plan: CopyPlan, config: Config, stage: Stage, event: Event)
    ensures
        live_step(plan, config, stage, event).1 matches Action::GiveUp(reason) ==> {
            &&& live_step(plan, config, stage, event).0 == Stage::Over
            &&& match reason {
                SkipReason::MissingLiveAuth => event matches Event::Prepared { authenticated, .. }
                    && !authenticated,
                SkipReason::InvalidAssetId => event matches Event::Prepared { authenticated, token_known }
                    && authenticated && !token_known,
                SkipReason::UnknownTradeSide => plan.side == TradeSide::Unknown && event is Prepared,
                SkipReason::LiveQuoteFetchFailed => event == Event::Quoted(None),
                SkipReason::InvalidLiveQuote => event matches Event::Quoted(Some(quote)) && !(quote matches Some(
                    q,
                ) && fraction(0, 1).below(q) && q.below(fraction(1, 1))),
                SkipReason::PriceDriftTooLarge => event matches Event::Quoted(Some(Some(q)))
                    && config.max_copy_price_drift_bps.below(
                    q.minus(plan.market_price).unsigned().over(plan.market_price).times(fraction(10_000, 1)),
                ),
                SkipReason::ProtectedPriceConversionFailed => stage == Stage::Price && event
                    == Event::Converted(None),
                SkipReason::SellSharesBelowMinimum => plan.side != TradeSide::Buy && !fraction(1, 100).at_most(
                    plan.size_usdc.over(plan.market_price),
                ),
                SkipReason::PositionAmountConversionFailed => plan.side == TradeSide::Buy && stage
                    == Stage::Amount && event == Event::Converted(None),
                SkipReason::ShareAmountConversionFailed => plan.side != TradeSide::Buy && stage
                    == Stage::Amount && event == Event::Converted(None),
                SkipReason::InvalidPositionAmount => plan.side == TradeSide::Buy && stage == Stage::Check
                    && event is Failed,
                SkipReason::InvalidShareAmount => plan.side != TradeSide::Buy && stage == Stage::Check
                    && event is Failed,
                SkipReason::OrderBuildFailed => stage == Stage::Build && event is Failed,
                SkipReason::OrderSignFailed => stage == Stage::Sign && event is Failed,
                SkipReason::OrderPostFailed => stage == Stage::Post && (event is Failed || event
                    == (Event::Posted { accepted: false })),
                _ => false,
            }
        },
{
    lemma_fraction(1, 100);
    lemma_zero();
}

/// Whatever fails ends the order, under its own reason: credentials that are missing, a
/// token or a side that is not known, a quote that cannot be had or is no price, a
/// price or an amount without a decimal, a sale of less than a hundredth of a share, an
/// amount that is refused, and an order that is not built, signed, posted or accepted.
pub proof fn failed_step_ends_the_order(
    plan: CopyPlan,
    config: Config,
    known: bool,
    quote: Double,
    price: Quantity,
)
    ensures
        live_step(plan, config, Stage::Prepare, Event::Prepared { authenticated: false, token_known: known }) == (
            Stage::Over,
            Action::GiveUp(SkipReason::MissingLiveAuth),
        ),
        live_step(plan, config, Stage::Prepare, Event::Prepared { authenticated: true, token_known: false }) == (
            Stage::Over,
            Action::GiveUp(SkipReason::InvalidAssetId),
        ),
        plan.side == TradeSide::Unknown ==> live_step(
            plan,
            config,
            Stage::Prepare,
            Event::Prepared { authenticated: true, token_known: true },
        ) == (Stage::Over, Action::GiveUp(SkipReason::UnknownTradeSide)),
        live_step(plan, config, Stage::Quote, Event::Quoted(None)) == (
            Stage::Over,
            Action::GiveUp(SkipReason::LiveQuoteFetchFailed),
        ),
        live_step(plan, config, Stage::Quote, Event::Quoted(Some(None))) == (
            Stage::Over,
            Action::GiveUp(SkipReason::InvalidLiveQuote),
        ),
        !(fraction(0, 1).below(quote) && quote.below(fraction(1, 1))) ==> live_step(
            plan,
            config,
            Stage::Quote,
            Event::Quoted(Some(Some(quote))),
        ) == (Stage::Over, Action::GiveUp(SkipReason::InvalidLiveQuote)),
        live_step(plan, config, Stage::Price, Event::Converted(None)) == (
            Stage::Over,
            Action::GiveUp(SkipReason::ProtectedPriceConversionFailed),
        ),
        plan.side != TradeSide::Buy && plan.size_usdc.over(plan.market_price).below(fraction(1, 100)) ==> live_step(
            plan,
            config,
            Stage::Price,
            Event::Converted(Some(price)),
        ) == (Stage::Over, Action::GiveUp(SkipReason::SellSharesBelowMinimum)),
        live_step(plan, config, Stage::Amount, Event::Converted(None)) == (
            Stage::Over,
            Action::GiveUp(
                if plan.side == TradeSide::Buy {
                    SkipReason::PositionAmountConversionFailed
                } else {
                    SkipReason::ShareAmountConversionFailed
                },
            ),
        ),
        live_step(plan, config, Stage::Check, Event::Failed) == (
            Stage::Over,
            Action::GiveUp(
                if plan.side == TradeSide::Buy {
                    SkipReason::InvalidPositionAmount
                } else {
                    SkipReason::InvalidShareAmount
                },
            ),
        ),
        live_step(plan, config, Stage::Build, Event::Failed) == (
            Stage::Over,
            Action::GiveUp(SkipReason::OrderBuildFailed),
        ),
        live_step(plan, config, Stage::Sign, Event::Failed) == (
            Stage::Over,
            Action::GiveUp(SkipReason::OrderSignFailed),
        ),
        live_step(plan, config, Stage::Post, Event::Failed) == (
            Stage::Over,
            Action::GiveUp(SkipReason::OrderPostFailed),
        ),
        live_step(plan, config, Stage::Post, Event::Posted { accepted: false }) == (
            Stage::Over,
            Action::GiveUp(SkipReason::OrderPostFailed),
        ),
{
    lemma_zero();
    lemma_price(1, 100);
    lemma_positive(fraction(1, 100));
}

/// An event that does not belong to the step leaves the order where it is.
pub proof fn stray_event_changes_nothing(plan: CopyPlan, config: Config, stage: Stage, event: Event)
    requires
        event is Prepared ==> stage != Stage::Prepare,
        event is Quoted ==> stage != Stage::Quote,
        event is Converted ==> stage != Stage::Price && stage != Stage::Amount,
        event is Posted ==> stage != Stage::Post,
        event is Succeeded ==> stage != Stage::Check && stage != Stage::Build && stage != Stage::Sign,
        event is Failed ==> stage != Stage::Check && stage != Stage::Build && stage != Stage::Sign && stage
            != Stage::Post,
    ensures
        live_step(plan, config, stage, event) == (stage, Action::Nothing),
{
}

} // verus!
