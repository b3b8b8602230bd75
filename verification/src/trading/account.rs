//! Reconciliation with what a live account reports.

use crate::clock::{utc_date, Timestamp};
use crate::double::{fraction, Double};
use crate::investigation::scoring::or_zero;
use crate::state::model::{after_sync, date_of, grown, held, quotable, AccountReport};
use crate::state::{clamp_price, BotState, MarketPosition};
use crate::table::{put, Table};
use crate::text::{alike, same_ignoring_case};
use vstd::prelude::*;

verus! {

/// An open position of an account. Figures that are no numbers are missing.
#[derive(Debug)]
pub struct OpenPosition {
    /// Condition ID of the market.
    pub market: String,
    /// Outcome of the token that is held.
    pub outcome: String,
    pub size: Option<Double>,
    pub avg_price: Option<Double>,
    pub cur_price: Option<Double>,
    pub cash_pnl: Option<Double>,
}

/// Whether a position is on the YES side.
pub open spec fn on_yes_side(p: OpenPosition) -> bool {
    alike(p.outcome@, "yes"@)
}

/// How many shares a position holds, and at least none.
pub open spec fn shares_held(p: OpenPosition) -> Double {
    or_zero(p.size).greater_of(fraction(0, 1))
}

/// The price at which a position was acquired.
pub open spec fn average_price(p: OpenPosition) -> Double {
    quotable(or_zero(p.avg_price))
}

/// The present price of a position: the reported one, or else the one at which
/// it was acquired.
pub open spec fn present_price(p: OpenPosition) -> Double {
    quotable(
        match p.cur_price {
            Some(c) => c,
            None => average_price(p),
        },
    )
}

/// What an account reports, with a further open position added.
pub open spec fn with_position(report: AccountReport, p: OpenPosition) -> AccountReport {
    let shares = shares_held(p);
    let yes = on_yes_side(p);
    if shares.at_most(fraction(0, 1)) {
        report
    } else {
        AccountReport {
            positions: put(
                report.positions,
                p.market@,
                grown(
                    held(report.positions, p.market@),
                    if yes {
                        "YES"@
                    } else {
                        "NO"@
                    },
                    shares,
                    shares.times(average_price(p)),
                ),
            ),
            yes_prices: put(
                report.yes_prices,
                p.market@,
                if yes {
                    present_price(p)
                } else {
                    quotable(fraction(1, 1).minus(present_price(p)))
                },
            ),
            mark_value: report.mark_value.plus(shares.times(present_price(p))),
            unrealized_pnl: report.unrealized_pnl.plus(or_zero(p.cash_pnl)),
            ..report
        }
    }
}

/// What an account reports by its open positions.
pub open spec fn open_report(positions: Seq<OpenPosition>) -> AccountReport
    decreases positions.len(),
{
    if positions.len() == 0 {
        AccountReport {
            positions: Seq::empty(),
            yes_prices: Seq::empty(),
            mark_value: fraction(0, 1),
            unrealized_pnl: fraction(0, 1),
            realized_pnl: fraction(0, 1),
        }
    } else {
        with_position(open_report(positions.drop_last()), positions.last())
    }
}

/// The profit of all closed positions, added up in their order.
pub open spec fn realized_total(results: Seq<Option<Double>>) -> Double
    decreases results.len(),
{
    if results.len() == 0 {
        fraction(0, 1)
    } else {
        realized_total(results.drop_last()).plus(or_zero(results.last()))
    }
}

/// What an account reports by its open and closed positions.
pub open spec fn account_report(open: Seq<OpenPosition>, closed: Seq<Option<Double>>) -> AccountReport {
    AccountReport { realized_pnl: realized_total(closed), ..open_report(open) }
}

/// The number that an optional one stands for.
fn number(x: Option<Double>) -> (r: Double)
    ensures
        r == or_zero(x),
{
    match x {
        Some(v) => v,
        None => Double::whole(0),
    }
}

/// Adds up the profit of closed positions.
fn realized(results: &Vec<Option<Double>>) -> (r: Double)
    ensures
        r == realized_total(results@),
{
    let mut total = Double::whole(0);
    let mut i: usize = 0;
    proof {
        assert(results@.take(0) =~= Seq::<Option<Double>>::empty());
    }
    while i < results.len()
        invariant
            i <= results.len(),
            total == realized_total(results@.take(i as int)),
        decreases results.len() - i,
    {
        proof {
            let next = results@.take(i + 1);
            assert(next.drop_last() =~= results@.take(i as int));
            assert(next.last() == results@[i as int]);
        }
        total = total.add(number(results[i]));
        i = i + 1;
    }
    proof {
        assert(results@.take(i as int) =~= results@);
    }
    total
}

/// Replaces positions and figures in the books by what the account reports at
/// the given time.
pub fn sync_live_account_state(
    state: &mut BotState,
    open: &Vec<OpenPosition>,
    closed: &Vec<Option<Double>>,
    at: Timestamp,
)
    requires
        old(state).consecutive_loss_events < usize::MAX,
    ensures
        final(state)@ == after_sync(old(state)@, account_report(open@, closed@), date_of(at)),
{
    let zero = Double::whole(0);
    let one = Double::whole(1);
    let mut positions: Table<MarketPosition> = Table::new();
    let mut prices: Table<Double> = Table::new();
    let mut mark = zero;
    let mut unrealized = zero;
    let mut i: usize = 0;
    proof {
        assert(open@.take(0) =~= Seq::<OpenPosition>::empty());
    }
    while i < open.len()
        invariant
            i <= open.len(),
            zero == fraction(0, 1),
            one == fraction(1, 1),
            open_report(open@.take(i as int)) == (AccountReport {
                positions: positions@,
                yes_prices: prices@,
                mark_value: mark,
                unrealized_pnl: unrealized,
                realized_pnl: fraction(0, 1),
            }),
        decreases open.len() - i,
    {
        proof {
            let next = open@.take(i + 1);
            assert(next.drop_last() =~= open@.take(i as int));
            assert(next.last() == open@[i as int]);
        }
        let p = &open[i];
        let shares = number(p.size).max(zero);
        if !shares.le(zero) {
            let avg_price = clamp_price(number(p.avg_price));
            let cur_price = clamp_price(
                match p.cur_price {
                    Some(c) => c,
                    None => avg_price,
                },
            );
            mark = mark.add(shares.mul(cur_price));
            unrealized = unrealized.add(number(p.cash_pnl));
            let pos = match positions.get(p.market.as_str()) {
                Some(pos) => *pos,
                None => MarketPosition::default(),
            };
            let cost = shares.mul(avg_price);
            if same_ignoring_case(p.outcome.as_str(), "yes") {
                positions.insert(p.market.clone(), pos.grow("YES", shares, cost));
                prices.insert(p.market.clone(), cur_price);
            } else {
                positions.insert(p.market.clone(), pos.grow("NO", shares, cost));
                prices.insert(p.market.clone(), clamp_price(one.sub(cur_price)));
            }
        }
        i = i + 1;
    }
    proof {
        assert(open@.take(i as int) =~= open@);
    }
    let total = realized(closed);
    let today = utc_date(&at);
    state.apply_live_account_snapshot_on(
        positions,
        prices,
        mark,
        unrealized,
        total,
        today.as_str(),
    );
}

/// A position without shares leaves no trace in the report.
pub proof fn empty_positions_are_ignored(positions: Seq<OpenPosition>, p: OpenPosition)
    requires
        shares_held(p).at_most(fraction(0, 1)),
    ensures
        open_report(positions.push(p)) == open_report(positions),
{
    assert(positions.push(p).drop_last() =~= positions);
}

} // verus!
