//! What a whole look leaves behind.

use crate::clock::Timestamp;
use crate::state::counters_have_room;
use crate::state::model::{
    after_skip, count_of, lemma_skip_is_covered, occurrences, totals_cover_windows,
};
use crate::table::{keys, put, put_keeps_what_holds_of_all, put_then_lookup, with_key, with_keys};
use crate::trading::amounts::{amounts_in_order, amounts_stay_in_order, is_bounded};
use crate::trading::cycle::{
    cycle_step, is_justified, placed_order_stays_justified, simulation_places_no_order, CycleEvent,
    Look, Phase,
};
use crate::trading::decision::{reason_text, verdict, SkipReason, Verdict};
use crate::trading::history::Moment;
use crate::trading::live::{live_step, Action};
use crate::trading::runtime::{
    continues, followed, is_new, key_text, key_texts, lasting, newest, pruned,
    pruning_forgets_only_the_outdated, received, seen_of, MarketExposure, Memory, Receipt,
    MAX_SEEN_TRADE_KEYS_PER_WHALE, TRADE_PAGE_LIMIT,
};
use crate::trading::track::{current_wallet, is_capped, is_judging, seen_trades_stay_capped};
use crate::trading::{cycle_block, gate, lemma_room, situation, WhaleGate};
use vstd::prelude::*;

verus! {

/// Whether a step starts from what the one before left.
pub open spec fn continues_at(moments: Seq<Moment>, i: int) -> bool {
    let (look, books, memory, _) = moments[i - 1].outcome();
    &&& moments[i].look == look
    &&& moments[i].books == books
    &&& moments[i].memory == memory
}

/// Whether steps make up a look, or the beginning of one: each starts from what the
/// one before left, with the same settings and not earlier than the first, and no
/// page holds more trades than asked for.
pub open spec fn is_look(moments: Seq<Moment>) -> bool {
    &&& moments.len() > 0
    &&& moments[0].look.phase == Phase::Start
    &&& forall|i: int| 0 < i < moments.len() ==> #[trigger] continues_at(moments, i)
    &&& forall|i: int|
        0 <= i < moments.len() ==> {
            &&& (#[trigger] moments[i]).config == moments[0].config
            &&& moments[i].at@ >= moments[0].at@
            &&& moments[i].event matches CycleEvent::Page(page) ==> page@.len() <= TRADE_PAGE_LIMIT
        }
}

/// Whether a wallet is being looked at.
pub open spec fn is_busy(look: Look) -> bool {
    look.phase == Phase::Address || look.phase == Phase::Fetching || is_judging(look)
}

/// Whether every wallet of which trades are remembered is followed.
pub open spec fn only_followed(look: Look, memory: Memory) -> bool {
    forall|i: int| 0 <= i < memory.seen.len() ==> followed(look.whales, (#[trigger] memory.seen[i]).0)
}

/// Whether nothing is remembered that was put into a market too long before a point.
pub open spec fn only_lasting(memory: Memory, at: Timestamp) -> bool {
    forall|i: int| 0 <= i < memory.exposure.len() ==> lasting((#[trigger] memory.exposure[i]).1, at)
}

/// Whether a trade is seen now that was not seen before.
pub open spec fn is_gained(before: Memory, after: Memory, wallet: Seq<char>, key: Seq<char>) -> bool {
    seen_of(after, wallet).contains(key) && !seen_of(before, wallet).contains(key)
}

/// Whether a look that began with a memory keeps it in order.
#[verifier::opaque]
spec fn in_order(look: Look, memory: Memory, before: Memory, begun: Timestamp) -> bool {
    &&& look.phase != Phase::Start
    &&& 0 <= look.index
    &&& is_busy(look) ==> look.index < look.whales.len()
    &&& is_capped(look, memory)
    &&& only_followed(look, memory)
    &&& only_lasting(memory, begun)
    &&& memory.dirty || forall|wallet: Seq<char>, key: Seq<char>| #[trigger]
        is_gained(before, memory, wallet, key) ==> is_judging(look) && wallet == current_wallet(look)
            && look.processed.len() > 0
}

/// The beginning of a look puts the memory in order.
proof fn lemma_start(m: Moment)
    requires
        m.look.phase == Phase::Start,
        m.event is Go,
        cycle_block(m.books, m.config) is None,
        is_capped(m.look, m.memory),
        keys(m.memory.exposure).no_duplicates(),
    ensures
        in_order(m.outcome().0, m.outcome().2, m.memory, m.at),
{
    reveal(Moment::outcome);
    reveal(in_order);
    let memory = m.memory;
    let after = m.outcome().2;
    let known = |e: (Seq<char>, Seq<Seq<char>>)| followed(m.look.whales, e.0);
    let fresh = |e: (Seq<char>, MarketExposure)| lasting(e.1, m.at);
    assert(after == pruned(memory, m.look.whales, m.at));
    seen_trades_stay_capped(m.look, m.books, memory, m.config, m.event, m.at);
    assert forall|i: int| 0 <= i < after.seen.len() implies followed(
        m.look.whales,
        (#[trigger] after.seen[i]).0,
    ) by {
        memory.seen.lemma_filter_pred(known, i);
    }
    assert forall|i: int| 0 <= i < after.exposure.len() implies lasting(
        (#[trigger] after.exposure[i]).1,
        m.at,
    ) by {
        memory.exposure.lemma_filter_pred(fresh, i);
    }
    assert forall|wallet: Seq<char>, key: Seq<char>| !#[trigger] is_gained(memory, after, wallet, key) by {
        pruning_forgets_only_the_outdated(memory, m.look.whales, m.at, wallet, key);
    }
}

/// Putting the trades of the current wallet keeps only followed wallets.
proof fn lemma_put_followed(look: Look, memory: Memory, seen: Seq<Seq<char>>)
    requires
        only_followed(look, memory),
        0 <= look.index < look.whales.len(),
    ensures
        ({
            let after = put(memory.seen, current_wallet(look), seen);
            forall|i: int| 0 <= i < after.len() ==> followed(look.whales, (#[trigger] after[i]).0)
        }),
{
    let known = |e: (Seq<char>, Seq<Seq<char>>)| followed(look.whales, e.0);
    let wallet = current_wallet(look);
    assert(look.whales[look.index].address@ == wallet);
    assert(followed(look.whales, wallet));
    assert forall|i: int| 0 <= i < memory.seen.len() implies known(#[trigger] memory.seen[i]) by {}
    put_keeps_what_holds_of_all(memory.seen, wallet, seen, known);
    let after = put(memory.seen, wallet, seen);
    assert forall|i: int| 0 <= i < after.len() implies followed(look.whales, (#[trigger] after[i]).0) by {
        assert(known(after[i]));
    }
}

/// What is put into a market during a look lasts.
proof fn lemma_put_lasting(memory: Memory, market: Seq<char>, entry: MarketExposure, begun: Timestamp)
    requires
        only_lasting(memory, begun),
        entry.updated_at@ >= begun@,
    ensures
        ({
            let after = put(memory.exposure, market, entry);
            forall|i: int| 0 <= i < after.len() ==> lasting((#[trigger] after[i]).1, begun)
        }),
{
    let fresh = |e: (Seq<char>, MarketExposure)| lasting(e.1, begun);
    assert(lasting(entry, begun));
    assert forall|i: int| 0 <= i < memory.exposure.len() implies fresh(#[trigger] memory.exposure[i]) by {}
    put_keeps_what_holds_of_all(memory.exposure, market, entry, fresh);
    let after = put(memory.exposure, market, entry);
    assert forall|i: int| 0 <= i < after.len() implies lasting((#[trigger] after[i]).1, begun) by {
        assert(fresh(after[i]));
    }
}

/// Every step keeps the memory in order.
proof fn lemma_step(m: Moment, before: Memory, begun: Timestamp)
    requires
        in_order(m.look, m.memory, before, begun),
        m.at@ >= begun@,
        m.event matches CycleEvent::Page(page) ==> page@.len() <= TRADE_PAGE_LIMIT,
    ensures
        in_order(m.outcome().0, m.outcome().2, before, begun),
{
    reveal(Moment::outcome);
    reveal(in_order);
    let (look, memory) = (m.look, m.memory);
    let (next, _, after, _) = m.outcome();
    let wallet = current_wallet(look);
    let seen = seen_of(memory, wallet);
    seen_trades_stay_capped(look, m.books, memory, m.config, m.event, m.at);
    match (look.phase, m.event) {
        (Phase::Address, CycleEvent::AddressParsed(valid)) => {
            lemma_put_followed(look, memory, seen);
            assert forall|w: Seq<char>, k: Seq<char>| #[trigger]
                is_gained(before, after, w, k) implies is_gained(before, memory, w, k) by {
                put_then_lookup(memory.seen, wallet, seen, w);
            }
        },
        (Phase::Fetching, CycleEvent::Page(page)) => {
            let unseen = look.unseen + page@.filter(is_new(seen));
            lemma_put_followed(look, memory, with_keys(Seq::empty(), key_texts(unseen).reverse()));
            assert(after.dirty || after == memory);
            assert forall|w: Seq<char>, k: Seq<char>|
                !after.dirty && #[trigger] is_gained(before, after, w, k) implies is_gained(
                before,
                memory,
                w,
                k,
            ) by {}
        },
        (Phase::Judging, CycleEvent::Go) => {
            if look.unseen.len() == 0 {
                lemma_put_followed(look, memory, newest(seen));
                assert forall|w: Seq<char>, k: Seq<char>|
                    !after.dirty && #[trigger] is_gained(before, after, w, k) implies is_gained(
                    before,
                    memory,
                    w,
                    k,
                ) by {}
            } else if look.processed.contains(key_text(look.unseen.last())) {
                assert forall|w: Seq<char>, k: Seq<char>| #[trigger] is_gained(
                    before,
                    after,
                    w,
                    k,
                ) implies is_gained(before, memory, w, k) by {}
            } else {
                let key = key_text(look.unseen.last());
                let grown = with_key(seen, key);
                let judged = Memory { seen: put(memory.seen, wallet, grown), ..memory };
                lemma_put_followed(look, memory, grown);
                assert(only_followed(look, judged));
                put_then_lookup(memory.seen, wallet, grown, wallet);
                lemma_put_followed(look, judged, newest(grown));
                let whale = look.whales[look.index];
                let plan = verdict(situation(m.books, memory, whale, look.unseen.last()), m.config)->Copy_0;
                let entry = MarketExposure {
                    amount_usdc: plan.exposure_before.plus(plan.size_usdc),
                    updated_at: m.at,
                };
                lemma_put_lasting(memory, look.unseen.last().condition_id@, entry, begun);
                assert forall|w: Seq<char>, k: Seq<char>|
                    !after.dirty && #[trigger] is_gained(before, after, w, k) implies is_judging(next) && w
                    == current_wallet(next) && next.processed.len() > 0 by {
                    put_then_lookup(memory.seen, wallet, grown, w);
                    if w != wallet {
                        assert(is_gained(before, memory, w, k));
                    }
                }
            }
        },
        (Phase::Placing, CycleEvent::Order(event)) => {
            let plan = look.order->0.plan;
            let entry = MarketExposure {
                amount_usdc: plan.exposure_before.plus(plan.size_usdc),
                updated_at: m.at,
            };
            lemma_put_lasting(memory, look.current->0.condition_id@, entry, begun);
            assert forall|w: Seq<char>, k: Seq<char>| #[trigger]
                is_gained(before, after, w, k) implies is_gained(before, memory, w, k) by {}
        },
        _ => {
            assert(after == memory);
            assert forall|w: Seq<char>, k: Seq<char>| #[trigger]
                is_gained(before, after, w, k) implies is_gained(before, memory, w, k) by {}
        },
    }
}

/// Every look that no limit stops keeps the memory in order.
proof fn lemma_look(moments: Seq<Moment>)
    requires
        is_look(moments),
        moments[0].event is Go,
        cycle_block(moments[0].books, moments[0].config) is None,
        is_capped(moments[0].look, moments[0].memory),
        keys(moments[0].memory.exposure).no_duplicates(),
    ensures
        in_order(
            moments.last().outcome().0,
            moments.last().outcome().2,
            moments[0].memory,
            moments[0].at,
        ),
    decreases moments.len(),
{
    if moments.len() == 1 {
        lemma_start(moments[0]);
    } else {
        let earlier = moments.drop_last();
        assert forall|i: int| 0 < i < earlier.len() implies #[trigger] continues_at(earlier, i) by {
            assert(continues_at(moments, i));
        }
        assert forall|i: int| 0 <= i < earlier.len() implies {
            &&& (#[trigger] earlier[i]).config == earlier[0].config
            &&& earlier[i].at@ >= earlier[0].at@
            &&& earlier[i].event matches CycleEvent::Page(page) ==> page@.len() <= TRADE_PAGE_LIMIT
        } by {
            assert(earlier[i] == moments[i]);
        }
        lemma_look(earlier);
        let last = moments[moments.len() - 1];
        assert(continues_at(moments, moments.len() - 1));
        assert(moments[moments.len() - 2] == earlier.last());
        lemma_step(last, moments[0].memory, moments[0].at);
    }
}

/// A whole look that no limit stops leaves the memory in order, if no wallet had more
/// trades remembered than the limit when it began: trades are remembered of followed
/// wallets only and of each no more than the limit, nothing is remembered that was
/// put into a market more than a day before the look began, and where a trade came
/// to be seen, the trades are due to be stored.
pub proof fn look_leaves_memory_in_order(moments: Seq<Moment>)
    requires
        is_look(moments),
        moments[0].event is Go,
        moments.last().outcome().0.phase == Phase::Over,
        cycle_block(moments[0].books, moments[0].config) is None,
        is_capped(moments[0].look, moments[0].memory),
        keys(moments[0].memory.exposure).no_duplicates(),
    ensures
        ({
            let (look, _, memory, _) = moments.last().outcome();
            &&& only_followed(look, memory)
            &&& forall|wallet: Seq<char>|
                (#[trigger] seen_of(memory, wallet)).len() <= MAX_SEEN_TRADE_KEYS_PER_WHALE
            &&& only_lasting(memory, moments[0].at)
            &&& forall|wallet: Seq<char>, key: Seq<char>| #[trigger]
                is_gained(moments[0].memory, memory, wallet, key) ==> memory.dirty
        }),
{
    lemma_look(moments);
    reveal(in_order);
}

/// While trades are only simulated, no step of a whole look prepares an order or does
/// a step of one.
pub proof fn simulated_look_places_no_order(moments: Seq<Moment>, i: int)
    requires
        is_look(moments),
        moments[0].config.dry_run,
        0 <= i < moments.len(),
    ensures
        moments[i].look.phase != Phase::Placing,
        moments[i].outcome().0.phase != Phase::Placing,
        moments[i].outcome().3 !is PrepareOrder,
        moments[i].outcome().3 !is Order,
    decreases i,
{
    if i > 0 {
        simulated_look_places_no_order(moments, i - 1);
        assert(continues_at(moments, i));
    }
    let m = moments[i];
    assert(m.config == moments[0].config);
    reveal(Moment::outcome);
    simulation_places_no_order(m.look, m.books, m.memory, m.config, m.event, m.at);
}

/// Every step of a look keeps the order that is being placed the one that is called
/// for, and amounts in order: so what holds of a recorded trade where they are in order
/// holds of every trade that a look records.
pub proof fn look_keeps_amounts(moments: Seq<Moment>, i: int)
    requires
        is_look(moments),
        is_bounded(moments[0].config),
        amounts_in_order(moments[0].books, moments[0].memory),
        0 <= i < moments.len(),
    ensures
        is_justified(moments[i].look, moments[i].books, moments[i].memory, moments[i].config),
        amounts_in_order(moments[i].books, moments[i].memory),
        is_bounded(moments[i].config),
        amounts_in_order(moments[i].outcome().1, moments[i].outcome().2),
    decreases i,
{
    let m = moments[i];
    assert(m.config == moments[0].config);
    if i > 0 {
        let p = moments[i - 1];
        look_keeps_amounts(moments, i - 1);
        assert(continues_at(moments, i));
        placed_order_stays_justified(p.look, p.books, p.memory, p.config, p.event, p.at);
        assert(p.config == moments[0].config);
        assert(p.outcome() == cycle_step(p.look, p.books, p.memory, p.config, p.event, p.at)) by {
            reveal(Moment::outcome);
        }
    }
    amounts_stay_in_order(m.look, m.books, m.memory, m.config, m.event, m.at);
    assert(m.outcome() == cycle_step(m.look, m.books, m.memory, m.config, m.event, m.at)) by {
        reveal(Moment::outcome);
    }
}

/// A step counts at most one skipped signal.
#[verifier::spinoff_prover]
#[verifier::rlimit(50)]
proof fn lemma_counted(m: Moment) -> (r: Option<SkipReason>)
    ensures
        match r {
            Some(reason) => m.outcome().1 == after_skip(m.books, reason_text(reason), m.at),
            None => m.outcome().1.recent_skips == m.books.recent_skips && m.outcome().1.skip_reasons
                == m.books.skip_reasons,
        },
{
    reveal(Moment::outcome);
    let (look, memory) = (m.look, m.memory);
    let whale = look.whales[look.index];
    match (look.phase, m.event) {
        (Phase::Start, CycleEvent::Go) => cycle_block(m.books, m.config),
        (Phase::Whale, CycleEvent::Go) => if look.index >= look.whales.len() {
            None
        } else {
            match gate(whale, look.triggered, look.begun_at) {
                WhaleGate::Skip(reason) => Some(reason),
                _ => None,
            }
        },
        (Phase::Address, CycleEvent::AddressParsed(valid)) => if valid {
            None
        } else {
            Some(SkipReason::InvalidWhaleAddress)
        },
        (Phase::Fetching, CycleEvent::Page(page)) => {
            let seen = seen_of(memory, whale.address@);
            let unseen = look.unseen + page@.filter(is_new(seen));
            let receipt = received(memory, whale.address@, unseen).0;
            if continues(page@, seen, look.pages + 1) || receipt != Receipt::Primed {
                None
            } else {
                Some(SkipReason::PrimedHistoricalBackfill)
            }
        },
        (Phase::Fetching, CycleEvent::PageFailed) => Some(SkipReason::DataApiError),
        (Phase::Judging, CycleEvent::Go) => if look.unseen.len() == 0 || look.processed.contains(
            key_text(look.unseen.last()),
        ) {
            None
        } else {
            match verdict(situation(m.books, memory, whale, look.unseen.last()), m.config) {
                Verdict::Skip(reason) => Some(reason),
                Verdict::Stop(reason) => Some(reason),
                _ => None,
            }
        },
        (Phase::Placing, CycleEvent::Order(event)) => {
            let order = look.order->0;
            match live_step(order.plan, m.config, order.stage, event).1 {
                Action::GiveUp(reason) => Some(reason),
                _ => None,
            }
        },
        _ => None,
    }
}

/// Every step of a look keeps the totals of the reasons above what is counted within
/// any window.
pub proof fn step_keeps_windows_covered(m: Moment)
    requires
        totals_cover_windows(m.books),
        counters_have_room(m.books),
    ensures
        totals_cover_windows(m.outcome().1),
{
    match lemma_counted(m) {
        Some(reason) => {
            lemma_room(m.books, reason_text(reason));
            lemma_skip_is_covered(m.books, reason_text(reason), m.at);
        },
        None => {
            let after = m.outcome().1;
            assert forall|cutoff: int, reason: Seq<char>|
                #[trigger] occurrences(after.recent_skips, cutoff, reason) <= count_of(
                    after.skip_reasons,
                    reason,
                ) by {
                assert(occurrences(m.books.recent_skips, cutoff, reason) <= count_of(
                    m.books.skip_reasons,
                    reason,
                ));
            }
        },
    }
}

} // verus!
