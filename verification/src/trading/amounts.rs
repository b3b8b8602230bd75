//! That recorded trades keep amounts in order, and with them the limits of markets.

use crate::clock::Timestamp;
use crate::config::{sound, within, Config};
use crate::double::accuracy::{difference_is_not_greater, lemma_difference, lemma_half, lemma_price};
use crate::double::laws::{
    difference_sign, is_amount, lemma_fraction, lemma_one, lemma_order, lemma_packed,
    lemma_positive, lemma_sum_sign, lemma_zero, ordinary, sum_is_monotone, sum_with_zero,
};
use crate::double::rounding::{
    lemma_increasing, lemma_machine_powers, lemma_rounded_exact, lemma_rounded_monotone,
    lemma_steps_at, rounded, steps, BINADE, INFINITE, UNIT_SHIFT,
};
use crate::double::{fraction, lemma_steps_zero, Double};
use crate::state::model::{
    after_sync, after_trade, date_of, fresh, grown, held, notional, reconciled, AccountReport,
    Books,
};
use crate::state::MarketPosition;
use crate::table::{
    filter_then_lookup, keys, lemma_filter_keeps_keys_distinct, put_keeps_keys_distinct,
    put_then_lookup,
};
use crate::trading::cycle::{
    cycle_step, is_justified, recorded_trade_was_called_for, CycleEvent, Look, Phase,
};
use crate::trading::decision::{
    concentration_limit, copied_trade_is_affordable, copied_trade_is_worthwhile,
    copied_trade_keeps_limits, net_edge, of_bps, verdict, Situation,
};
use crate::trading::runtime::{exposure_of, lasting, MarketExposure, Memory, WhaleTrade};
use crate::trading::{after_copy, copied, having_seen, paid_in, situation};
use vstd::arithmetic::power2::{lemma2_to64, lemma_pow2_pos, lemma_pow2_strictly_increases, pow2};
use vstd::prelude::*;

verus! {

/// Whether what was paid for both sides of a position, and for both together, are
/// amounts.
pub open spec fn is_paid(pos: MarketPosition) -> bool {
    is_amount(pos.yes_cost_usdc) && is_amount(pos.no_cost_usdc) && is_amount(notional(pos))
}

/// Whether the balance is finite, and what was paid in every market and put into it
/// lately are amounts.
#[verifier::opaque]
pub open spec fn amounts_in_order(books: Books, memory: Memory) -> bool {
    &&& books.balance.finite()
    &&& keys(memory.exposure).no_duplicates()
    &&& forall|market: Seq<char>| is_amount(#[trigger] exposure_of(memory, market))
    &&& forall|market: Seq<char>| is_paid(#[trigger] held(books.positions, market))
}

/// Whether settings lie within their bounds, and the bankroll and the limit of a
/// market are not so great that sums reach the end of the numbers.
pub open spec fn is_bounded(config: Config) -> bool {
    &&& sound(config)
    &&& config.bankroll_usdc.finite()
    &&& config.max_notional_per_market_usdc.magnitude() + BINADE + 1 < INFINITE
}

/// The share of a finite bankroll that one market may take is far from infinite.
proof fn lemma_limit(config: Config)
    requires
        is_bounded(config),
    ensures
        ordinary(concentration_limit(config)),
        concentration_limit(config).magnitude() + 1 < INFINITE,
{
    let bankroll = config.bankroll_usdc;
    let share = fraction(3, 10);
    let u = pow2(UNIT_SHIFT as nat);
    let top = (INFINITE - 1) as nat;
    let (s, t) = (steps(bankroll.magnitude()), steps(share.magnitude()));
    lemma_positive(bankroll);
    lemma_pow2_pos(UNIT_SHIFT as nat);
    lemma_fraction(3, 10);
    lemma_fraction(1, 2);
    lemma_one();
    // Three tenths are at most a half.
    let half = (fraction(1, 1).magnitude() - BINADE) as nat;
    lemma2_to64();
    lemma_pow2_strictly_increases(53, UNIT_SHIFT as nat);
    if fraction(1, 1).magnitude() < 2 * BINADE {
        lemma_machine_powers();
        lemma_steps_at(0, 2 * BINADE as nat);
        lemma_increasing(fraction(1, 1).magnitude(), 2 * BINADE as nat);
    }
    lemma_half(fraction(1, 1).magnitude());
    assert((3 * u) * 1 <= steps(half) * 10) by {
        assert(u == 2 * steps(half));
    }
    lemma_rounded_exact(steps(half), 1, half);
    lemma_rounded_monotone((3 * u) as nat, 10, steps(half), 1);
    lemma_packed(rounded((3 * u) as nat, 10));
    if share.magnitude() < half {
        lemma_increasing(share.magnitude(), half);
    }
    assert(2 * t <= u);
    if bankroll.magnitude() < top {
        lemma_increasing(bankroll.magnitude(), top);
    }
    lemma_half(top);
    let low = (top - BINADE) as nat;
    assert((s * t) * 1 <= steps(low) * u) by (nonlinear_arith)
        requires
            s <= 2 * steps(low),
            2 * t <= u,
    {
        assert(s * t <= (2 * steps(low)) * t);
        assert((2 * steps(low)) * t == steps(low) * (2 * t));
        assert(steps(low) * (2 * t) <= steps(low) * u);
    }
    lemma_rounded_exact(steps(low), 1, low);
    lemma_rounded_monotone(s * t, u, steps(low), 1);
    lemma_packed(rounded(s * t, u));
}

/// The sum of two amounts that are no greater than half of all numbers is an amount.
proof fn lemma_sum(a: Double, b: Double, m: nat)
    requires
        ordinary(a),
        ordinary(b),
        a.magnitude() <= m,
        b.magnitude() <= m,
        BINADE <= m,
        m + BINADE < INFINITE,
    ensures
        is_amount(a.plus(b)),
{
    lemma_sum_sign(a, b);
    if a.magnitude() < m {
        lemma_increasing(a.magnitude(), m);
    }
    if b.magnitude() < m {
        lemma_increasing(b.magnitude(), m);
    }
    let top = (m + BINADE) as nat;
    let sum = (a.value() + b.value()) as nat;
    lemma_half(top);
    lemma_rounded_exact(steps(top), 1, top);
    lemma_rounded_monotone(sum, 1, steps(top), 1);
    lemma_packed(rounded(sum, 1));
    lemma_packed(0);
}

/// What is known of a trade that is to be made where amounts are in order.
proof fn lemma_copy(s: Situation, config: Config)
    requires
        is_bounded(config),
        verdict(s, config) is Copy,
        s.balance.finite(),
        is_amount(s.exposure),
        is_amount(s.notional),
    ensures
        ({
            let plan = verdict(s, config)->Copy_0;
            &&& is_amount(plan.size_usdc)
            &&& fraction(1, 1).at_most(plan.size_usdc)
            &&& plan.size_usdc.at_most(s.balance.times(config.max_position_fraction))
            &&& plan.size_usdc.at_most(s.balance)
            &&& ordinary(s.balance)
            &&& plan.exposure_before == s.exposure
            &&& is_amount(s.exposure.plus(plan.size_usdc))
            &&& s.exposure.plus(plan.size_usdc).magnitude() <= concentration_limit(config).magnitude() + 1
            &&& is_amount(s.notional.plus(plan.size_usdc))
            &&& s.notional.plus(plan.size_usdc).magnitude()
                <= config.max_notional_per_market_usdc.magnitude() + 1
            &&& plan.shares == plan.size_usdc.over(plan.effective_price)
        }),
{
    let plan = verdict(s, config)->Copy_0;
    lemma_limit(config);
    lemma_zero();
    lemma_steps_zero();
    lemma_positive(s.exposure);
    lemma_positive(s.notional);
    lemma_positive(config.max_notional_per_market_usdc);
    copied_trade_is_worthwhile(s, config);
    copied_trade_keeps_limits(s, config);
    lemma_one();
    lemma_positive(plan.size_usdc);
    lemma_positive(fraction(1, 1));
    lemma_difference(concentration_limit(config), s.exposure);
    copied_trade_is_affordable(s, config);
    lemma_positive(s.balance);
    lemma_order(plan.size_usdc, s.balance);
    lemma_sum_sign(s.exposure, plan.size_usdc);
    lemma_sum_sign(s.notional, plan.size_usdc);
}

/// What was paid for a position stays in order when it grows within the limit.
proof fn lemma_grown(pos: MarketPosition, outcome: Seq<char>, shares: Double, size: Double, m: nat)
    requires
        is_paid(pos),
        is_amount(size),
        is_amount(notional(pos).plus(size)),
        notional(pos).plus(size).magnitude() <= m,
        BINADE <= m,
        m + BINADE < INFINITE,
    ensures
        is_paid(grown(pos, outcome, shares, size)),
{
    let (yes, no) = (pos.yes_cost_usdc, pos.no_cost_usdc);
    let zero = fraction(0, 1);
    let all = notional(pos);
    lemma_zero();
    lemma_steps_zero();
    sum_with_zero(yes);
    sum_with_zero(no);
    sum_with_zero(all);
    lemma_positive(yes);
    lemma_positive(no);
    lemma_positive(size);
    lemma_order(yes, yes);
    lemma_order(no, no);
    lemma_order(size, size);
    lemma_order(all, all);
    sum_is_monotone(yes, zero, yes, no);
    sum_is_monotone(zero, no, yes, no);
    sum_is_monotone(yes, size, all, size);
    sum_is_monotone(no, size, all, size);
    sum_is_monotone(all, zero, all, size);
    lemma_sum_sign(yes, size);
    lemma_sum_sign(no, size);
    lemma_order(yes.plus(size), all.plus(size));
    lemma_order(no.plus(size), all.plus(size));
    lemma_order(all, all.plus(size));
    lemma_order(yes, all);
    lemma_order(no, all);
    lemma_sum(yes.plus(size), no, m);
    lemma_sum(yes, no.plus(size), m);
}

/// Recording a trade that is to be made keeps amounts in order.
proof fn lemma_recorded(
    books: Books,
    memory: Memory,
    kept: Memory,
    wallet: Seq<char>,
    s: Situation,
    trade: WhaleTrade,
    config: Config,
    simulated: bool,
    at: Timestamp,
)
    requires
        is_bounded(config),
        amounts_in_order(books, memory),
        kept.exposure == memory.exposure,
        verdict(s, config) is Copy,
        s.balance == books.balance,
        s.exposure == exposure_of(memory, trade.condition_id@),
        s.notional == paid_in(books, trade.condition_id@),
    ensures
        ({
            let plan = verdict(s, config)->Copy_0;
            amounts_in_order(
                after_trade(books, copied(wallet, trade, plan, simulated, at), date_of(at)),
                after_copy(kept, trade, plan, at),
            )
        }),
{
    reveal(amounts_in_order);
    let plan = verdict(s, config)->Copy_0;
    let market = trade.condition_id@;
    let record = copied(wallet, trade, plan, simulated, at);
    let after = after_trade(books, record, date_of(at));
    let remembered = after_copy(kept, trade, plan, at);
    let pos = held(books.positions, market);
    lemma_zero();
    sum_with_zero(fraction(0, 1));
    assert(is_paid(pos));
    assert(s.notional == notional(pos));
    lemma_copy(s, config);
    let m = (config.max_notional_per_market_usdc.magnitude() + 1) as nat;
    // A trade is at least one, so the limit is no small number.
    lemma_one();
    sum_with_zero(plan.size_usdc);
    sum_with_zero(notional(pos));
    lemma_positive(notional(pos));
    lemma_order(plan.size_usdc, plan.size_usdc);
    sum_is_monotone(fraction(0, 1), plan.size_usdc, notional(pos), plan.size_usdc);
    lemma_order(plan.size_usdc, notional(pos).plus(plan.size_usdc));
    lemma_order(fraction(1, 1), plan.size_usdc);
    lemma_price(1, 1);
    lemma_grown(pos, record.outcome, plan.shares, plan.size_usdc, m);
    let bigger = grown(pos, record.outcome, plan.shares, plan.size_usdc);
    difference_is_not_greater(s.balance, plan.size_usdc);
    assert(after.balance.finite()) by {
        let left = s.balance.minus(plan.size_usdc);
        lemma_positive(left);
        lemma_order(plan.size_usdc, s.balance);
        difference_sign(s.balance, plan.size_usdc);
        if !left.negative() {
            lemma_order(left, s.balance);
        }
    }
    let entry = MarketExposure {
        amount_usdc: plan.exposure_before.plus(plan.size_usdc),
        updated_at: at,
    };
    put_keeps_keys_distinct(kept.exposure, market, entry);
    assert forall|other: Seq<char>| is_amount(#[trigger] exposure_of(remembered, other)) by {
        put_then_lookup(kept.exposure, market, entry, other);
        assert(is_amount(exposure_of(memory, other)));
    }
    assert forall|other: Seq<char>| is_paid(#[trigger] held(after.positions, other)) by {
        put_then_lookup(books.positions, market, bigger, other);
        assert(is_paid(held(books.positions, other)));
    }
}

/// New books and an empty memory are in order.
pub proof fn amounts_begin_in_order(dry_run: bool, balance: Double, started_at: Timestamp, memory: Memory)
    requires
        balance.finite(),
        memory.exposure.len() == 0,
    ensures
        amounts_in_order(fresh(dry_run, balance, started_at), memory),
{
    reveal(amounts_in_order);
    lemma_zero();
    sum_with_zero(fraction(0, 1));
}

/// A synchronisation keeps amounts in order if what the account reports is.
pub proof fn synchronised_amounts_are_in_order(
    books: Books,
    memory: Memory,
    report: AccountReport,
    today: Seq<char>,
)
    requires
        amounts_in_order(books, memory),
        reconciled(books, report).balance.finite(),
        forall|market: Seq<char>| is_paid(#[trigger] held(report.positions, market)),
    ensures
        amounts_in_order(after_sync(books, report, today), memory),
{
    reveal(amounts_in_order);
    assert(after_sync(books, report, today).positions == report.positions);
}

/// Where no trade is recorded, amounts stay as they are, but for those that are
/// forgotten.
proof fn lemma_unrecorded(books: Books, memory: Memory, after: Books, kept: Memory, at: Timestamp)
    requires
        amounts_in_order(books, memory),
        after.balance == books.balance,
        after.positions == books.positions,
        kept.exposure == memory.exposure || kept.exposure == memory.exposure.filter(
            |e: (Seq<char>, MarketExposure)| lasting(e.1, at),
        ),
    ensures
        amounts_in_order(after, kept),
{
    reveal(amounts_in_order);
    let fresh_enough = |e: (Seq<char>, MarketExposure)| lasting(e.1, at);
    lemma_filter_keeps_keys_distinct(memory.exposure, fresh_enough);
    lemma_zero();
    assert forall|market: Seq<char>| is_amount(#[trigger] exposure_of(kept, market)) by {
        assert(is_amount(exposure_of(memory, market)));
        filter_then_lookup(memory.exposure, fresh_enough, market);
    }
}

/// Every step of a look keeps amounts in order: what was paid in every market and put
/// into it lately stay finite and without a minus sign.
#[verifier::spinoff_prover]
#[verifier::rlimit(60)]
pub proof fn amounts_stay_in_order(
    look: Look,
    books: Books,
    memory: Memory,
    config: Config,
    event: CycleEvent,
    at: Timestamp,
)
    requires
        is_bounded(config),
        is_justified(look, books, memory, config),
        amounts_in_order(books, memory),
    ensures
        amounts_in_order(
            cycle_step(look, books, memory, config, event, at).1,
            cycle_step(look, books, memory, config, event, at).2,
        ),
{
    let (_, after, kept, _) = cycle_step(look, books, memory, config, event, at);
    let whale = look.whales[look.index];
    if after.trade_count > books.trade_count {
        match (look.phase, event) {
            (Phase::Judging, CycleEvent::Go) => {
                let trade = look.unseen.last();
                let s = situation(books, memory, whale, trade);
                let seen = having_seen(memory, whale.address@, trade);
                lemma_recorded(books, memory, seen, whale.address@, s, trade, config, true, at);
            },
            _ => {
                let trade = look.current->0;
                let s = situation(books, memory, whale, trade);
                lemma_recorded(books, memory, memory, whale.address@, s, trade, config, false, at);
            },
        }
    } else {
        lemma_unrecorded(books, memory, after, kept, at);
    }
}

/// Every trade that a look records, with the balance, what was put into its market
/// lately and what was paid there just before it, has these properties: the balance
/// is at least five; the size is at least one, and at most the allowed share of the
/// balance; with it, neither limit of the market is passed but for one last place of
/// rounding; the edge is above the least one; and the shares are what the size buys.
#[verifier::spinoff_prover]
#[verifier::rlimit(60)]
pub proof fn recorded_trade_keeps_limits(
    look: Look,
    books: Books,
    memory: Memory,
    config: Config,
    event: CycleEvent,
    at: Timestamp,
) -> (win_rate: Double)
    requires
        is_bounded(config),
        is_justified(look, books, memory, config),
        amounts_in_order(books, memory),
        cycle_step(look, books, memory, config, event, at).1.trade_count > books.trade_count,
    ensures
        win_rate == look.whales[look.index].conservative_win_rate,
        within(win_rate, 0, 1),
        ({
            let trade = cycle_step(look, books, memory, config, event, at).1.recent_trades[0];
            let exposure = exposure_of(memory, trade.market);
            let paid = paid_in(books, trade.market);
            &&& fraction(5, 1).at_most(books.balance)
            &&& fraction(1, 1).at_most(trade.size_usdc)
            &&& trade.size_usdc.at_most(books.balance.times(config.max_position_fraction))
            &&& is_amount(exposure.plus(trade.size_usdc))
            &&& exposure.plus(trade.size_usdc).magnitude() <= concentration_limit(config).magnitude() + 1
            &&& is_amount(paid.plus(trade.size_usdc))
            &&& paid.plus(trade.size_usdc).magnitude()
                <= config.max_notional_per_market_usdc.magnitude() + 1
            &&& !net_edge(win_rate, trade.effective_price, config).at_most(of_bps(config.min_net_edge_bps))
            &&& trade.shares == trade.size_usdc.over(trade.effective_price)
        }),
{
    reveal(amounts_in_order);
    let (whale, source, plan) = recorded_trade_was_called_for(look, books, memory, config, event, at);
    let s = situation(books, memory, whale, source);
    assert(is_amount(exposure_of(memory, source.condition_id@)));
    lemma_zero();
    sum_with_zero(fraction(0, 1));
    assert(is_paid(held(books.positions, source.condition_id@)));
    lemma_copy(s, config);
    copied_trade_is_worthwhile(s, config);
    lemma_fraction(5, 1);
    whale.conservative_win_rate
}

} // verus!
