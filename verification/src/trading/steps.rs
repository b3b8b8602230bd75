//! How a look at the wallets goes on, step by step.

use crate::clock::Timestamp;
use crate::config::Config;
use crate::double::fraction;
use crate::state::counters_have_room;
use crate::state::model::{date_of, trade_is_remembered, Books};
use crate::table::put_then_lookup;
use crate::trading::breakers::trading_goes_on_within_limits;
use crate::trading::cycle::{cycle_step, CycleAction, CycleEvent, Look, Phase};
use crate::trading::decision::{verdict, Situation, SkipReason, Verdict};
use crate::trading::following::{
    copy_adds_to_exposure, full_new_pages_are_followed, holds, is_copy, is_counted, is_situation,
    lemma_counted, recent_profile_is_looked_at, trade_is_judged,
};
use crate::trading::live::{self, live_step, LiveOrder, Stage};
use crate::trading::runtime::{
    closed_batch, exposure_of, is_new, key_text, pruned, received, seen_of, Memory, WhaleTrade,
};
use crate::trading::{copied, judgement};
use vstd::prelude::*;

verus! {

/// The same look at the next wallet, with nothing collected.
pub open spec fn is_at_next_wallet(after: Look, look: Look) -> bool {
    &&& after.phase == Phase::Whale
    &&& after.index == look.index + 1
    &&& after.whales == look.whales
    &&& after.triggered == look.triggered
    &&& after.begun_at == look.begun_at
    &&& after.unseen.len() == 0
    &&& after.processed.len() == 0
    &&& after.offset == 0
    &&& after.pages == 0
    &&& after.current is None
    &&& after.order is None
}

/// A look begins with the first wallet while the cash is at least five, the loss of the
/// day is below its limit and there were fewer losses in a row than allowed; else it is
/// over at once, and that is counted.
pub proof fn look_begins_within_limits(
    look: Look,
    books: Books,
    memory: Memory,
    config: Config,
    at: Timestamp,
)
    requires
        look.phase == Phase::Start,
        counters_have_room(books),
        books.balance.finite(),
        books.day_start_equity.finite(),
        books.equity.finite(),
        config.daily_loss_limit_usdc.finite(),
        fraction(0, 1).below(config.daily_loss_limit_usdc),
    ensures
        ({
            let (next, after, remembered, action) = cycle_step(look, books, memory, config, CycleEvent::Go, at);
            let allowed = fraction(5, 1).at_most(books.balance) && books.day_start_equity.minus(
                books.equity,
            ).below(config.daily_loss_limit_usdc) && books.loss_streak < config.max_consecutive_losses;
            &&& allowed ==> {
                &&& next == (Look { phase: Phase::Whale, index: 0, begun_at: at, ..look })
                &&& after == books
                &&& remembered == pruned(memory, look.whales, at)
                &&& action is Continue
            }
            &&& !allowed ==> {
                &&& next.phase == Phase::Over
                &&& action is Finished
                &&& remembered == memory
                &&& is_counted(after, books, SkipReason::BalanceBelowMinimum, at) || is_counted(
                    after,
                    books,
                    SkipReason::DailyLossLimitReached,
                    at,
                ) || is_counted(after, books, SkipReason::MaxConsecutiveLossesReached, at)
            }
        }),
{
    trading_goes_on_within_limits(books, config);
    lemma_counted(books, SkipReason::BalanceBelowMinimum, at);
    lemma_counted(books, SkipReason::DailyLossLimitReached, at);
    lemma_counted(books, SkipReason::MaxConsecutiveLossesReached, at);
}

/// With a wallet up, its address is parsed if it is to be looked at; else the next
/// wallet is up, and a profile that is too old is counted. Behind the last wallet the
/// look is over.
pub proof fn wallets_are_taken_in_turn(
    look: Look,
    books: Books,
    memory: Memory,
    config: Config,
    at: Timestamp,
)
    requires
        look.phase == Phase::Whale,
        counters_have_room(books),
    ensures
        ({
            let (next, after, remembered, action) = cycle_step(look, books, memory, config, CycleEvent::Go, at);
            let whale = look.whales[look.index];
            let age = look.begun_at@ - whale.updated_at@;
            let up = look.triggered is None || holds(whale, look.triggered->0);
            &&& remembered == memory
            &&& look.index >= look.whales.len() ==> next.phase == Phase::Over && after == books && action is Finished
            &&& look.index < look.whales.len() && up && age < 10_801_000_000_000 ==> {
                &&& next == (Look { phase: Phase::Address, ..look })
                &&& after == books
                &&& action is ParseAddress
            }
            &&& look.index < look.whales.len() && up && age >= 10_801_000_000_000 ==> {
                &&& is_at_next_wallet(next, look)
                &&& is_counted(after, books, SkipReason::StaleWhaleProfile, at)
                &&& action is Continue
            }
            &&& look.index < look.whales.len() && !up ==> {
                &&& is_at_next_wallet(next, look)
                &&& after == books
                &&& action is Continue
            }
        }),
{
    recent_profile_is_looked_at(look.whales[look.index], look.triggered, look.begun_at);
    lemma_counted(books, SkipReason::StaleWhaleProfile, at);
}

/// A wallet with an address has its first page fetched, with nothing collected; one
/// without is counted and left out.
pub proof fn first_page_is_fetched(look: Look, books: Books, memory: Memory, config: Config, at: Timestamp)
    requires
        look.phase == Phase::Address,
        counters_have_room(books),
    ensures
        ({
            let (next, after, remembered, action) = cycle_step(
                look,
                books,
                memory,
                config,
                CycleEvent::AddressParsed(true),
                at,
            );
            let wallet = look.whales[look.index].address@;
            &&& next.phase == Phase::Fetching
            &&& next.unseen.len() == 0
            &&& next.offset == 0
            &&& next.pages == 0
            &&& next.index == look.index
            &&& next.whales == look.whales
            &&& after == books
            &&& seen_of(remembered, wallet) == seen_of(memory, wallet)
            &&& remembered.exposure == memory.exposure
            &&& action == CycleAction::FetchPage(0)
        }),
        ({
            let (next, after, remembered, action) = cycle_step(
                look,
                books,
                memory,
                config,
                CycleEvent::AddressParsed(false),
                at,
            );
            &&& is_at_next_wallet(next, look)
            &&& is_counted(after, books, SkipReason::InvalidWhaleAddress, at)
            &&& remembered == memory
            &&& action is Continue
        }),
{
    let wallet = look.whales[look.index].address@;
    put_then_lookup(memory.seen, wallet, seen_of(memory, wallet), wallet);
    lemma_counted(books, SkipReason::InvalidWhaleAddress, at);
}

/// A filter keeps exactly what it is to keep.
proof fn lemma_kept(page: Seq<WhaleTrade>, seen: Seq<Seq<char>>, trade: WhaleTrade)
    ensures
        page.filter(is_new(seen)).contains(trade) <==> page.contains(trade) && !seen.contains(key_text(trade)),
    decreases page.len(),
{
    reveal(Seq::filter);
    if page.len() > 0 {
        let rest = page.drop_last();
        let kept = rest.filter(is_new(seen));
        lemma_kept(rest, seen, trade);
        if page.contains(trade) {
            let i = page.index_of(trade);
            if i < rest.len() {
                assert(rest[i] == trade);
            }
        }
        if rest.contains(trade) {
            let i = rest.index_of(trade);
            assert(page[i] == trade);
        }
        if is_new(seen)(page.last()) {
            let more = kept.push(page.last());
            assert(page.filter(is_new(seen)) == more);
            assert(more[kept.len() as int] == page.last());
            if kept.contains(trade) {
                let i = kept.index_of(trade);
                assert(more[i] == trade);
            }
            if more.contains(trade) && trade != page.last() {
                let i = more.index_of(trade);
                assert(kept[i] == trade);
            }
        }
        assert(page[page.len() - 1] == page.last());
    }
}

/// Of a page the new trades are collected behind those collected before, and no others.
/// A further page is fetched 25 trades on if this one was full and all of it new and it
/// was not the fourth; else the new trades are judged if the wallet was seen to trade
/// before, and only remembered and counted if it was not. A wallet without new trades
/// is done with. A page that could not be fetched is counted, and the wallet left.
pub proof fn new_trades_are_collected(
    look: Look,
    books: Books,
    memory: Memory,
    config: Config,
    page: Vec<WhaleTrade>,
    at: Timestamp,
    trade: WhaleTrade,
)
    requires
        look.phase == Phase::Fetching,
        counters_have_room(books),
        0 <= look.offset <= 100,
    ensures
        ({
            let (next, after, remembered, action) = cycle_step(
                look,
                books,
                memory,
                config,
                CycleEvent::Page(page),
                at,
            );
            let seen = seen_of(memory, look.whales[look.index].address@);
            let full = page@.len() >= 25 && (forall|i: int|
                0 <= i < page@.len() ==> !seen.contains(key_text(#[trigger] page@[i]))) && look.pages < 3;
            let fresh = look.unseen + page@.filter(is_new(seen));
            &&& fresh.contains(trade) <==> look.unseen.contains(trade) || (page@.contains(trade)
                && !seen.contains(key_text(trade)))
            &&& full ==> {
                &&& next.phase == Phase::Fetching
                &&& next.unseen == fresh
                &&& next.index == look.index
                &&& next.pages == look.pages + 1
                &&& next.offset == look.offset + 25
                &&& action == CycleAction::FetchPage((look.offset + 25) as i32)
                &&& after == books
                &&& remembered == memory
            }
            &&& !full && fresh.len() == 0 ==> {
                &&& is_at_next_wallet(next, look)
                &&& after == books
                &&& remembered == memory
                &&& action is Continue
            }
            &&& !full && fresh.len() > 0 && seen.len() == 0 ==> {
                &&& is_at_next_wallet(next, look)
                &&& is_counted(after, books, SkipReason::PrimedHistoricalBackfill, at)
                &&& remembered == received(memory, look.whales[look.index].address@, fresh).1
                &&& action is Continue
            }
            &&& !full && fresh.len() > 0 && seen.len() > 0 ==> {
                &&& next.phase == Phase::Judging
                &&& next.unseen == fresh
                &&& next.processed.len() == 0
                &&& next.index == look.index
                &&& next.whales == look.whales
                &&& after == books
                &&& remembered == memory
                &&& action is Continue
            }
        }),
        ({
            let (next, after, remembered, action) = cycle_step(
                look,
                books,
                memory,
                config,
                CycleEvent::PageFailed,
                at,
            );
            &&& is_at_next_wallet(next, look)
            &&& is_counted(after, books, SkipReason::DataApiError, at)
            &&& remembered == memory
            &&& action is Continue
        }),
{
    let seen = seen_of(memory, look.whales[look.index].address@);
    full_new_pages_are_followed(page@, seen, look.pages + 1);
    lemma_kept(page@, seen, trade);
    lemma_counted(books, SkipReason::PrimedHistoricalBackfill, at);
    lemma_counted(books, SkipReason::DataApiError, at);
    let kept = page@.filter(is_new(seen));
    let fresh = look.unseen + kept;
    if look.unseen.contains(trade) {
        let i = look.unseen.index_of(trade);
        assert(fresh[i] == trade);
    }
    if kept.contains(trade) {
        let i = kept.index_of(trade);
        assert(fresh[look.unseen.len() + i] == trade);
    }
    if fresh.contains(trade) {
        let i = fresh.index_of(trade);
        if i < look.unseen.len() {
            assert(look.unseen[i] == trade);
        } else {
            assert(kept[i - look.unseen.len()] == trade);
        }
    }
}

/// New trades are judged from the oldest on, each once. One that is to become an order
/// has it prepared; after one that stops everything the look is over; after any other
/// the next is judged. When none is left the next wallet is up.
pub proof fn trades_are_judged_in_turn(
    look: Look,
    books: Books,
    memory: Memory,
    config: Config,
    at: Timestamp,
    s: Situation,
)
    requires
        look.phase == Phase::Judging,
        counters_have_room(books),
        look.unseen.len() > 0 ==> is_situation(
            s,
            books,
            memory,
            look.whales[look.index],
            look.unseen[look.unseen.len() - 1],
        ),
    ensures
        ({
            let (next, after, remembered, action) = cycle_step(look, books, memory, config, CycleEvent::Go, at);
            let whale = look.whales[look.index];
            let trade = look.unseen[look.unseen.len() - 1];
            let again = look.processed.contains(key_text(trade));
            &&& look.unseen.len() == 0 ==> {
                &&& is_at_next_wallet(next, look)
                &&& after == books
                &&& remembered == closed_batch(memory, whale.address@, look.processed)
                &&& action is Continue
            }
            &&& look.unseen.len() > 0 ==> {
                &&& next.unseen == look.unseen.subrange(0, look.unseen.len() - 1)
                &&& next.index == look.index
                &&& next.whales == look.whales
            }
            &&& look.unseen.len() > 0 && again ==> next.phase == Phase::Judging && after == books && remembered
                == memory && next.processed == look.processed
            &&& look.unseen.len() > 0 && !again ==> {
                &&& next.processed.len() == look.processed.len() + 1
                &&& next.processed[look.processed.len() as int] == key_text(trade)
                &&& match verdict(s, config) {
                    Verdict::Copy(plan) => if config.dry_run {
                        &&& next.phase == Phase::Judging
                        &&& after.trade_count == books.trade_count + 1
                        &&& is_copy(after.recent_trades[0], whale, trade, plan, true, at)
                        &&& action is Continue
                    } else {
                        &&& next.phase == Phase::Placing
                        &&& next.current == Some(trade)
                        &&& next.order == Some(LiveOrder { plan, stage: Stage::Prepare })
                        &&& after == books
                        &&& action is PrepareOrder
                    },
                    Verdict::Skip(reason) => {
                        &&& next.phase == Phase::Judging
                        &&& is_counted(after, books, reason, at)
                        &&& remembered == judgement(books, memory, whale, trade, config, at).2
                        &&& action is Continue
                    },
                    Verdict::Stop(reason) => {
                        &&& next.phase == Phase::Over
                        &&& is_counted(after, books, reason, at)
                        &&& remembered == closed_batch(
                            judgement(books, memory, whale, trade, config, at).2,
                            whale.address@,
                            next.processed,
                        )
                        &&& action is Finished
                    },
                }
            }
        }),
{
    if look.unseen.len() > 0 {
        let whale = look.whales[look.index];
        let trade = look.unseen.last();
        assert(trade == look.unseen[look.unseen.len() - 1]);
        assert(look.unseen.drop_last() =~= look.unseen.subrange(0, look.unseen.len() - 1));
        let other = whale.address@.push('x');
        assert(other.len() != whale.address@.len());
        trade_is_judged(books, memory, whale, trade, config, at, s, key_text(trade), other);
    }
}

/// An order that was posted and accepted becomes a trade in the books and in what was
/// put into its market; one that is given up is counted under its reason. Either way
/// the next trade is judged. Until then the order goes on and nothing is entered.
pub proof fn order_ends_in_a_trade_or_a_count(
    look: Look,
    books: Books,
    memory: Memory,
    config: Config,
    event: live::Event,
    at: Timestamp,
)
    requires
        look.phase == Phase::Placing,
        look.order is Some,
        look.current is Some,
        counters_have_room(books),
    ensures
        ({
            let (next, after, remembered, action) = cycle_step(
                look,
                books,
                memory,
                config,
                CycleEvent::Order(event),
                at,
            );
            let plan = look.order->0.plan;
            let trade = look.current->0;
            let whale = look.whales[look.index];
            let (stage, step) = live_step(plan, config, look.order->0.stage, event);
            match step {
                live::Action::RecordTrade => {
                    &&& next == (Look { phase: Phase::Judging, current: None, order: None, ..look })
                    &&& after.trade_count == books.trade_count + 1
                    &&& is_copy(after.recent_trades[0], whale, trade, plan, false, at)
                    &&& exposure_of(remembered, trade.condition_id@) == plan.exposure_before.plus(plan.size_usdc)
                    &&& remembered.seen == memory.seen
                    &&& action is Continue
                },
                live::Action::GiveUp(reason) => {
                    &&& next == (Look { phase: Phase::Judging, current: None, order: None, ..look })
                    &&& is_counted(after, books, reason, at)
                    &&& remembered == memory
                    &&& action is Continue
                },
                _ => {
                    &&& next == (Look { order: Some(LiveOrder { plan, stage }), ..look })
                    &&& after == books
                    &&& remembered == memory
                    &&& action == CycleAction::Order(step)
                },
            }
        }),
{
    let plan = look.order->0.plan;
    let trade = look.current->0;
    let whale = look.whales[look.index];
    trade_is_remembered(books, copied(whale.address@, trade, plan, false, at), date_of(at));
    let other = trade.condition_id@.push('x');
    assert(other.len() != trade.condition_id@.len());
    copy_adds_to_exposure(memory, trade, plan, at, other);
    if let live::Action::GiveUp(reason) = live_step(plan, config, look.order->0.stage, event).1 {
        lemma_counted(books, reason, at);
    }
}

} // verus!
