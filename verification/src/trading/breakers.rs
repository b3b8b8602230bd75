//! When the account's state forbids every trade.

use crate::config::Config;
use crate::double::accuracy::lemma_difference;
use crate::double::laws::{lemma_number, lemma_packed, lemma_positive, lemma_zero};
use crate::double::rounding::{
    lemma_increasing, lemma_rounded_exact, lemma_rounded_monotone, rounded, steps,
};
use crate::double::{fraction, lemma_steps_zero, Double};
use crate::state::model::Books;
use crate::trading::cycle_block;
use crate::trading::decision::SkipReason;
use vstd::prelude::*;

verus! {

/// Rounding keeps a difference from falling below a number that it reaches.
pub proof fn lemma_reached(a: Double, b: Double, limit: Double)
    requires
        a.finite(),
        b.finite(),
        limit.finite(),
        fraction(0, 1).below(limit),
        limit.value() <= a.value() - b.value(),
    ensures
        limit.at_most(a.minus(b)),
{
    let gap = a.value() - b.value();
    lemma_zero();
    lemma_positive(limit);
    lemma_steps_zero();
    lemma_increasing(0, limit.magnitude());
    lemma_packed(b.magnitude());
    lemma_rounded_exact(steps(limit.magnitude()), 1, limit.magnitude());
    lemma_rounded_monotone(steps(limit.magnitude()), 1, gap as nat, 1);
    lemma_packed(rounded(gap as nat, 1));
    if limit.magnitude() < rounded(gap as nat, 1) {
        lemma_increasing(limit.magnitude(), rounded(gap as nat, 1));
    }
}

/// Trading goes on exactly while the cash is at least five, the loss since the start
/// of the day is below the limit, and there were fewer losses in a row than allowed.
/// Each of the three stops it by itself, whatever the other two are.
pub proof fn trading_goes_on_within_limits(books: Books, config: Config)
    requires
        books.balance.finite(),
        books.day_start_equity.finite(),
        books.equity.finite(),
        config.daily_loss_limit_usdc.finite(),
        fraction(0, 1).below(config.daily_loss_limit_usdc),
    ensures
        cycle_block(books, config) is None <==> {
            &&& fraction(5, 1).at_most(books.balance)
            &&& books.day_start_equity.minus(books.equity).below(config.daily_loss_limit_usdc)
            &&& books.loss_streak < config.max_consecutive_losses
        },
        books.day_start_equity.value() - books.equity.value() >= config.daily_loss_limit_usdc.value()
            ==> cycle_block(books, config) is Some,
{
    lemma_zero();
    lemma_number(5);
    lemma_difference(books.day_start_equity, books.equity);
    lemma_positive(config.daily_loss_limit_usdc);
    if books.day_start_equity.value() - books.equity.value() >= config.daily_loss_limit_usdc.value() {
        lemma_reached(books.day_start_equity, books.equity, config.daily_loss_limit_usdc);
    }
}

/// Trading is stopped for a reason that holds, and for the first of them: too little
/// cash, then the loss of the day, then the losses in a row.
pub proof fn trading_stops_for_its_reason(books: Books, config: Config)
    ensures
        match cycle_block(books, config) {
            Some(SkipReason::BalanceBelowMinimum) => books.balance.below(fraction(5, 1)),
            Some(SkipReason::DailyLossLimitReached) => {
                &&& !books.balance.below(fraction(5, 1))
                &&& config.daily_loss_limit_usdc.at_most(books.day_start_equity.minus(books.equity))
                    || config.daily_loss_limit_usdc.at_most(fraction(0, 1))
            },
            Some(SkipReason::MaxConsecutiveLossesReached) => {
                &&& !books.balance.below(fraction(5, 1))
                &&& !config.daily_loss_limit_usdc.at_most(books.day_start_equity.minus(books.equity))
                &&& books.loss_streak >= config.max_consecutive_losses
            },
            Some(_) => false,
            None => true,
        },
{
    lemma_zero();
}

/// A greater loss, less cash or one more loss in a row never lets trading go on that
/// was stopped.
pub proof fn worse_books_stay_stopped(books: Books, worse: Books, config: Config)
    requires
        worse.balance.at_most(books.balance),
        books.day_start_equity.minus(books.equity).at_most(worse.day_start_equity.minus(worse.equity)),
        worse.loss_streak >= books.loss_streak,
        cycle_block(books, config) is Some,
    ensures
        cycle_block(worse, config) is Some,
{
    lemma_zero();
}

} // verus!
