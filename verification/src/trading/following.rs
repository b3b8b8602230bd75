//! Which wallets are looked at, which of their trades are new, and what the bot
//! remembers of them.

use crate::clock::Timestamp;
use crate::config::Config;
use crate::double::accuracy::{distance, lemma_sum_error};
use crate::double::fraction;
use crate::double::rounding::BINADE;
use crate::investigation::scoring::TraderProfile;
use crate::state::counters_have_room;
use crate::state::model::{
    after_skip, count_of, date_of, skip_is_counted, trade_is_remembered, Books, Trade,
};
use crate::table::{
    added_keys_are_present, keys, lookup, put_then_lookup, texts, with_key, with_keys,
};
use crate::text::{decimals_differ, signed_decimal};
use crate::trading::decision::{
    reason_text, verdict, CopyPlan, Situation, SkipReason, TradeSide, Verdict,
};
use crate::trading::runtime::{
    account_due, begun, closed_batch, continues, exposure_of, is_new, key_text, key_texts, newest,
    next_page, pruned, pruning_forgets_only_the_outdated, received, seen_of, store_due, too_soon,
    MarketExposure, Memory, Receipt, WhaleTrade,
};
use crate::trading::{
    after_copy, all_tokens, copied, gate, judgement, lemma_room, Outcome, WhaleGate,
};
use vstd::prelude::*;

verus! {

/// Whether a wallet holds a token.
pub open spec fn holds(whale: TraderProfile, token: Seq<char>) -> bool {
    exists|i: int| 0 <= i < whale.active_asset_ids@.len() && (#[trigger] whale.active_asset_ids@[i])@ == token
}

/// A wallet is looked at unless the order book of a token changed that it does not
/// hold, or its profile is more than 10 800 whole seconds old; one that holds no such
/// token is passed over without being counted, whatever its age.
pub proof fn recent_profile_is_looked_at(whale: TraderProfile, triggered: Option<Seq<char>>, at: Timestamp)
    ensures
        triggered matches Some(token) && !holds(whale, token) ==> gate(whale, triggered, at) == WhaleGate::Ignore,
        (triggered is None || holds(whale, triggered->0)) && at@ - whale.updated_at@ < 10_801_000_000_000 ==> gate(
            whale,
            triggered,
            at,
        ) == WhaleGate::Proceed,
        (triggered is None || holds(whale, triggered->0)) && at@ - whale.updated_at@ >= 10_801_000_000_000
            ==> gate(whale, triggered, at) == WhaleGate::Skip(SkipReason::StaleWhaleProfile),
{
    if let Some(token) = triggered {
        let ids = texts(whale.active_asset_ids@);
        if ids.contains(token) {
            let i = ids.index_of(token);
            assert(whale.active_asset_ids@[i]@ == token);
        }
        if holds(whale, token) {
            let i = choose|i: int|
                0 <= i < whale.active_asset_ids@.len() && (#[trigger] whale.active_asset_ids@[i])@ == token;
            assert(ids[i] == token);
        }
    }
}

/// What was put into a market is remembered for 86 400 whole seconds after the last
/// time, and then forgotten; what was never put in is not remembered.
pub proof fn exposure_lasts_a_day(
    memory: Memory,
    whales: Seq<TraderProfile>,
    at: Timestamp,
    market: Seq<char>,
)
    requires
        keys(memory.seen).no_duplicates(),
        keys(memory.exposure).no_duplicates(),
    ensures
        ({
            let after = exposure_of(pruned(memory, whales, at), market);
            match lookup(memory.exposure, market) {
                Some(e) => {
                    &&& at@ - e.updated_at@ < 86_401_000_000_000 ==> after == e.amount_usdc
                    &&& at@ - e.updated_at@ >= 86_401_000_000_000 ==> after == fraction(0, 1)
                },
                None => after == fraction(0, 1),
            }
        }),
{
    pruning_forgets_only_the_outdated(memory, whales, at, market, market);
}

/// A copied trade adds its size to what was put into its market before, as of now, and
/// touches no other market and none of the trades seen.
pub proof fn copy_adds_to_exposure(
    memory: Memory,
    trade: WhaleTrade,
    plan: CopyPlan,
    at: Timestamp,
    other: Seq<char>,
)
    requires
        other != trade.condition_id@,
    ensures
        ({
            let after = after_copy(memory, trade, plan, at);
            let market = trade.condition_id@;
            let sum = plan.exposure_before.value() + plan.size_usdc.value();
            &&& plan.exposure_before.finite() && plan.size_usdc.finite() && exposure_of(after, market).finite()
                ==> 2 * BINADE * distance(exposure_of(after, market).value(), sum) <= distance(sum, 0)
            &&& lookup(after.exposure, market) matches Some(e) && e.updated_at == at
            &&& exposure_of(after, market) == plan.exposure_before.plus(plan.size_usdc)
            &&& exposure_of(after, other) == exposure_of(memory, other)
            &&& after.seen == memory.seen
            &&& after.dirty == memory.dirty
            &&& after.persisted_at == memory.persisted_at
            &&& after.synced_at == memory.synced_at
        }),
{
    let market = trade.condition_id@;
    let after = after_copy(memory, trade, plan, at);
    let entry = MarketExposure {
        amount_usdc: plan.exposure_before.plus(plan.size_usdc),
        updated_at: at,
    };
    put_then_lookup(memory.exposure, market, entry, market);
    put_then_lookup(memory.exposure, market, entry, other);
    if plan.exposure_before.finite() && plan.size_usdc.finite() && exposure_of(after, market).finite() {
        lemma_sum_error(plan.exposure_before, plan.size_usdc);
    }
}

/// A filter that keeps all keeps every one, and one that drops any keeps fewer.
proof fn lemma_all_kept(page: Seq<WhaleTrade>, seen: Seq<Seq<char>>)
    ensures
        page.filter(is_new(seen)).len() <= page.len(),
        page.filter(is_new(seen)).len() == page.len() <==> forall|i: int|
            0 <= i < page.len() ==> !seen.contains(key_text(#[trigger] page[i])),
    decreases page.len(),
{
    reveal(Seq::filter);
    if page.len() > 0 {
        let rest = page.drop_last();
        lemma_all_kept(rest, seen);
        assert(page.last() == page[page.len() - 1]);
        if forall|i: int| 0 <= i < page.len() ==> !seen.contains(key_text(#[trigger] page[i])) {
            assert forall|i: int| 0 <= i < rest.len() implies !seen.contains(key_text(#[trigger] rest[i])) by {
                assert(rest[i] == page[i]);
            }
        }
        if rest.filter(is_new(seen)).len() == rest.len() && !seen.contains(key_text(page.last())) {
            assert forall|i: int| 0 <= i < page.len() implies !seen.contains(key_text(#[trigger] page[i])) by {
                if i < rest.len() {
                    assert(rest[i] == page[i]);
                }
            }
        }
    }
}

/// A further page of trades is fetched exactly if this one holds at least 25 trades, all
/// of them new, and fewer than 4 pages were looked at.
pub proof fn full_new_pages_are_followed(page: Seq<WhaleTrade>, seen: Seq<Seq<char>>, pages: int)
    ensures
        continues(page, seen, pages) <==> {
            &&& page.len() >= 25
            &&& forall|i: int| 0 <= i < page.len() ==> !seen.contains(key_text(#[trigger] page[i]))
            &&& pages < 4
        },
{
    lemma_all_kept(page, seen);
}

/// A further page of an account begins 200 positions later, and is fetched exactly if
/// this one is full and begins before 9800.
pub proof fn account_pages_follow(offset: i32, page_len: usize)
    ensures
        page_len >= 200 && offset < 9800 ==> next_page(offset, page_len) == Some((offset + 200) as i32),
        page_len < 200 || offset >= 9800 ==> next_page(offset, page_len) is None,
{
}

/// Trades with the same key, and transactions and tokens of the same length, are of the
/// same transaction, token and second.
pub proof fn key_tells_trades_apart(a: WhaleTrade, b: WhaleTrade)
    requires
        key_text(a) == key_text(b),
        a.transaction_hash@.len() == b.transaction_hash@.len(),
        a.asset@.len() == b.asset@.len(),
    ensures
        a.transaction_hash@ == b.transaction_hash@,
        a.asset@ == b.asset@,
        a.timestamp == b.timestamp,
{
    reveal_strlit("-");
    let (h, n) = (a.transaction_hash@.len() as int, a.asset@.len() as int);
    let (x, y) = (key_text(a), key_text(b));
    assert(x.subrange(0, h) =~= a.transaction_hash@);
    assert(y.subrange(0, h) =~= b.transaction_hash@);
    assert(x.subrange(h + 1, h + 1 + n) =~= a.asset@);
    assert(y.subrange(h + 1, h + 1 + n) =~= b.asset@);
    assert(x.skip(h + n + 2) =~= signed_decimal(a.timestamp as int));
    assert(y.skip(h + n + 2) =~= signed_decimal(b.timestamp as int));
    decimals_differ(a.timestamp as int, b.timestamp as int);
}

/// When the trades of a wallet are done with, its last 200 keys stay in their order, or
/// all where there are fewer; other wallets keep theirs. That is to be stored if a
/// trade was judged or a key was dropped.
pub proof fn last_keys_are_kept(
    memory: Memory,
    wallet: Seq<char>,
    processed: Seq<Seq<char>>,
    other: Seq<char>,
    i: int,
)
    requires
        other != wallet,
    ensures
        ({
            let before = seen_of(memory, wallet);
            let after = closed_batch(memory, wallet, processed);
            let kept = seen_of(after, wallet);
            &&& before.len() <= 200 ==> kept == before
            &&& before.len() > 200 ==> kept.len() == 200 && (0 <= i < 200 ==> kept[i] == before[before.len() - 200
                + i])
            &&& seen_of(after, other) == seen_of(memory, other)
            &&& after.dirty <==> memory.dirty || processed.len() > 0 || before.len() > 200
            &&& after.exposure == memory.exposure
            &&& after.persisted_at == memory.persisted_at
            &&& after.synced_at == memory.synced_at
        }),
{
    let kept = newest(seen_of(memory, wallet));
    put_then_lookup(memory.seen, wallet, kept, wallet);
    put_then_lookup(memory.seen, wallet, kept, other);
}

/// Fetched trades are to be judged exactly if there are any and the wallet was seen to
/// trade before; nothing is then remembered yet. The first of a wallet are remembered
/// and stored, and nothing changes where there are none.
pub proof fn fetched_trades_are_received(
    memory: Memory,
    wallet: Seq<char>,
    trades: Seq<WhaleTrade>,
    key: Seq<char>,
)
    ensures
        received(memory, wallet, trades).0 == Receipt::Process <==> trades.len() > 0 && seen_of(
            memory,
            wallet,
        ).len() > 0,
        received(memory, wallet, trades).0 == Receipt::Nothing <==> trades.len() == 0,
        received(memory, wallet, trades).0 != Receipt::Primed ==> received(memory, wallet, trades).1 == memory,
        received(memory, wallet, trades).0 == Receipt::Primed ==> {
            let after = received(memory, wallet, trades).1;
            &&& after.dirty
            &&& after.exposure == memory.exposure
            &&& seen_of(after, wallet).contains(key) <==> exists|i: int|
                0 <= i < trades.len() && key_text(#[trigger] trades[i]) == key
        },
{
    let oldest_first = key_texts(trades).reverse();
    let kept = with_keys(Seq::empty(), oldest_first);
    put_then_lookup(memory.seen, wallet, kept, wallet);
    added_keys_are_present(Seq::empty(), oldest_first, key);
    if oldest_first.contains(key) {
        let j = oldest_first.index_of(key);
        assert(key_text(trades[trades.len() - 1 - j]) == key);
    }
    if exists|i: int| 0 <= i < trades.len() && key_text(#[trigger] trades[i]) == key {
        let i = choose|i: int| 0 <= i < trades.len() && key_text(#[trigger] trades[i]) == key;
        assert(oldest_first[trades.len() - 1 - i] == key);
    }
}

/// What is known of a trade is its price and side, the lower bound of the trader's win
/// rate, the free cash, and of its market what was put in lately and what was paid for
/// the position on both sides.
pub open spec fn is_situation(
    s: Situation,
    books: Books,
    memory: Memory,
    whale: TraderProfile,
    trade: WhaleTrade,
) -> bool {
    &&& s.price == trade.price
    &&& s.side == trade.side
    &&& s.win_rate == whale.conservative_win_rate
    &&& s.balance == books.balance
    &&& s.exposure == match lookup(memory.exposure, trade.condition_id@) {
        Some(e) => e.amount_usdc,
        None => fraction(0, 1),
    }
    &&& s.notional == match lookup(books.positions, trade.condition_id@) {
        Some(pos) => pos.yes_cost_usdc.plus(pos.no_cost_usdc),
        None => fraction(0, 1),
    }
}

/// A trade is judged by what is known of it, and counts as seen whatever comes of it.
/// One that is not worth copying is counted under its reason and moves nothing. One
/// that is worth it becomes a trade in the books in a simulation, and else an order.
pub proof fn trade_is_judged(
    books: Books,
    memory: Memory,
    whale: TraderProfile,
    trade: WhaleTrade,
    config: Config,
    at: Timestamp,
    s: Situation,
    key: Seq<char>,
    other: Seq<char>,
)
    requires
        is_situation(s, books, memory, whale, trade),
        counters_have_room(books),
        other != whale.address@,
    ensures
        ({
            let (outcome, after, remembered) = judgement(books, memory, whale, trade, config, at);
            let seen = seen_of(remembered, whale.address@);
            &&& seen.contains(key) <==> seen_of(memory, whale.address@).contains(key) || key == key_text(trade)
            &&& seen_of(remembered, other) == seen_of(memory, other)
            &&& match verdict(s, config) {
                Verdict::Copy(plan) => if config.dry_run {
                    &&& outcome is Simulated
                    &&& after.trade_count == books.trade_count + 1
                    &&& is_copy(after.recent_trades[0], whale, trade, plan, true, at)
                    &&& remembered.exposure == after_copy(memory, trade, plan, at).exposure
                } else {
                    &&& outcome == Outcome::Order(plan)
                    &&& after == books
                    &&& remembered.exposure == memory.exposure
                },
                Verdict::Skip(reason) => {
                    &&& outcome is Skipped
                    &&& is_counted(after, books, reason, at)
                    &&& remembered.exposure == memory.exposure
                },
                Verdict::Stop(reason) => {
                    &&& outcome is Stopped
                    &&& is_counted(after, books, reason, at)
                    &&& remembered.exposure == memory.exposure
                },
            }
        }),
{
    let wallet = whale.address@;
    let seen = with_key(seen_of(memory, wallet), key_text(trade));
    let before = seen_of(memory, wallet);
    put_then_lookup(memory.seen, wallet, seen, wallet);
    put_then_lookup(memory.seen, wallet, seen, other);
    if !before.contains(key_text(trade)) {
        assert(seen[before.len() as int] == key_text(trade));
        if before.contains(key) {
            let i = before.index_of(key);
            assert(seen[i] == key);
        }
        if seen.contains(key) && key != key_text(trade) {
            let i = seen.index_of(key);
            assert(before[i] == key);
        }
    }
    match verdict(s, config) {
        Verdict::Skip(reason) => {
            lemma_counted(books, reason, at);
        },
        Verdict::Stop(reason) => {
            lemma_counted(books, reason, at);
        },
        Verdict::Copy(plan) => {
            trade_is_remembered(books, copied(wallet, trade, plan, true, at), date_of(at));
        },
    }
}

/// Whether a recorded trade copies one of a wallet as planned: YES is bought for a
/// purchase, and NO for a sale.
pub open spec fn is_copy(
    t: Trade,
    whale: TraderProfile,
    trade: WhaleTrade,
    plan: CopyPlan,
    simulated: bool,
    at: Timestamp,
) -> bool {
    &&& t.timestamp == at
    &&& t.whale_address == whale.address@
    &&& t.market == trade.condition_id@
    &&& t.price == plan.market_price
    &&& t.effective_price == plan.effective_price
    &&& t.shares == plan.shares
    &&& t.size_usdc == plan.size_usdc
    &&& t.kelly_fraction == plan.kelly_fraction
    &&& t.simulated == simulated
    &&& plan.side == TradeSide::Buy ==> t.side == "Buy"@ && t.outcome == "YES"@
    &&& plan.side == TradeSide::Sell ==> t.side == "Sell"@ && t.outcome == "NO"@
}

/// Whether a skipped signal was counted under its reason, and nothing else moved.
pub open spec fn is_counted(after: Books, books: Books, reason: SkipReason, at: Timestamp) -> bool {
    &&& count_of(after.skip_reasons, reason_text(reason)) == count_of(books.skip_reasons, reason_text(reason))
        + 1
    &&& after.recent_skips.len() > 0
    &&& after.recent_skips[0] == (at, reason_text(reason))
    &&& after == (Books { skip_reasons: after.skip_reasons, recent_skips: after.recent_skips, ..books })
}

/// A skipped signal is counted.
pub proof fn lemma_counted(books: Books, reason: SkipReason, at: Timestamp)
    requires
        counters_have_room(books),
    ensures
        is_counted(after_skip(books, reason_text(reason), at), books, reason, at),
{
    lemma_room(books, reason_text(reason));
    skip_is_counted(books, reason_text(reason), at, reason_text(reason));
}

/// Trades seen are stored once there are any that are not, 15 seconds after the last
/// time and not before; a live account is synchronised once its interval has passed,
/// and a simulated one never; and an update of an order book triggers a look once 750
/// milliseconds have passed since the last one.
pub proof fn intervals_are_kept(memory: Memory, config: Config, last: int, moment: int)
    ensures
        store_due(memory, moment) <==> memory.dirty && moment >= memory.persisted_at + 15_000_000_000,
        config.dry_run ==> !account_due(memory, config, moment),
        !config.dry_run ==> (account_due(memory, config, moment) <==> moment >= memory.synced_at
            + config.account_sync_interval_secs * 1_000_000_000),
        too_soon(last, moment) <==> moment < last + 750_000_000,
{
}

/// The order books of exactly those tokens are watched that one of the wallets holds.
pub proof fn held_tokens_are_watched(whales: Seq<TraderProfile>, token: Seq<char>)
    ensures
        with_keys(Seq::empty(), all_tokens(whales)).contains(token) <==> exists|i: int|
            0 <= i < whales.len() && holds(#[trigger] whales[i], token),
{
    added_keys_are_present(Seq::empty(), all_tokens(whales), token);
    lemma_tokens(whales, token);
}

/// The tokens of all wallets are those of each.
proof fn lemma_tokens(whales: Seq<TraderProfile>, token: Seq<char>)
    ensures
        all_tokens(whales).contains(token) <==> exists|i: int|
            0 <= i < whales.len() && holds(#[trigger] whales[i], token),
    decreases whales.len(),
{
    if whales.len() > 0 {
        let rest = whales.drop_last();
        let ids = texts(whales.last().active_asset_ids@);
        let before = all_tokens(rest);
        let all = before + ids;
        lemma_tokens(rest, token);
        if all.contains(token) {
            let k = all.index_of(token);
            if k < before.len() {
                assert(before[k] == token);
                let i = choose|i: int| 0 <= i < rest.len() && holds(#[trigger] rest[i], token);
                assert(whales[i] == rest[i]);
            } else {
                let j = k - before.len();
                assert(whales.last().active_asset_ids@[j]@ == token);
                assert(holds(whales[whales.len() - 1], token));
            }
        }
        if exists|i: int| 0 <= i < whales.len() && holds(#[trigger] whales[i], token) {
            let i = choose|i: int| 0 <= i < whales.len() && holds(#[trigger] whales[i], token);
            if i < rest.len() {
                assert(holds(rest[i], token));
                let k = before.index_of(token);
                assert(all[k] == token);
            } else {
                let j = choose|j: int|
                    0 <= j < whales.last().active_asset_ids@.len()
                        && (#[trigger] whales.last().active_asset_ids@[j])@ == token;
                assert(ids[j] == token);
                assert(all[before.len() + j] == token);
            }
        }
    }
}

/// A bot that begins to trade remembers the trades that were seen before, has put
/// nothing into any market, and has nothing to store; a live account with an interval
/// of at most an hour is synchronised at once.
pub proof fn trading_begins_with_what_was_seen(
    seen: Seq<(Seq<char>, Seq<Seq<char>>)>,
    moment: int,
    config: Config,
    wallet: Seq<char>,
)
    ensures
        ({
            let memory = begun(seen, moment);
            &&& seen_of(memory, wallet) == match lookup(seen, wallet) {
                Some(list) => list,
                None => Seq::empty(),
            }
            &&& exposure_of(memory, wallet) == fraction(0, 1)
            &&& !store_due(memory, moment)
            &&& !config.dry_run && config.account_sync_interval_secs <= 3600 ==> account_due(
                memory,
                config,
                moment,
            )
        }),
{
}

} // verus!
