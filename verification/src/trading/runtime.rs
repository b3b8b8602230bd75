//! What the bot remembers while it trades: which trades it has seen, and what it
//! put into each market lately.

use crate::clock::{whole_seconds, Timestamp};
use crate::config::Config;
use crate::double::{fraction, Double};
use crate::investigation::scoring::TraderProfile;
use crate::persistence::{lemma_seen_put, seen_lists};
use crate::table::{
    added_keys_are_present, filter_then_lookup, keys, lookup, put, put_then_lookup, texts, with_key,
    with_keys, KeySet, Table,
};
use crate::text::{push_signed, same, signed_decimal};
use crate::trading::decision::TradeSide;
use vstd::prelude::*;

verus! {

/// Trades per page of a wallet's history.
pub const TRADE_PAGE_LIMIT: i32 = 25;

/// Pages of a wallet's history that are looked at.
pub const MAX_TRADE_PAGES: i32 = 4;

/// Positions per page of an account.
pub const ACCOUNT_SYNC_PAGE_LIMIT: i32 = 200;

/// The first offset at which no further page of an account is fetched.
pub const ACCOUNT_SYNC_LAST_OFFSET: i32 = 9_800;

/// Trades of one wallet that are remembered.
pub const MAX_SEEN_TRADE_KEYS_PER_WHALE: usize = 200;

/// Seconds after which what was put into a market is forgotten.
pub const MARKET_EXPOSURE_TTL_SECS: i64 = 86_400;

/// Nanoseconds between writes of the trades seen.
pub const SEEN_TRADES_FLUSH_NANOS: i128 = 15_000_000_000;

/// Nanoseconds within which an update of the order book triggers no new look.
pub const DEBOUNCE_NANOS: i128 = 750_000_000;

/// Nanoseconds by which the first synchronisation of an account is overdue.
pub const SYNC_LEAD_NANOS: i64 = 3_600_000_000_000;

/// A trade of a wallet that is followed.
#[derive(Debug)]
pub struct WhaleTrade {
    pub transaction_hash: String,
    /// Token that was traded.
    pub asset: String,
    /// Seconds since the beginning of 1970.
    pub timestamp: i64,
    pub side: TradeSide,
    /// YES price, if it is a number.
    pub price: Option<Double>,
    /// Condition ID of the market.
    pub condition_id: String,
}

/// The key by which a trade is recognised.
pub open spec fn key_text(trade: WhaleTrade) -> Seq<char> {
    trade.transaction_hash@ + "-"@ + trade.asset@ + "-"@ + signed_decimal(trade.timestamp as int)
}

/// The keys of trades.
pub open spec fn key_texts(trades: Seq<WhaleTrade>) -> Seq<Seq<char>> {
    trades.map_values(|t: WhaleTrade| key_text(t))
}

/// The key by which a trade is recognised.
pub fn trade_key(trade: &WhaleTrade) -> (r: String)
    ensures
        r@ == key_text(*trade),
{
    let mut out = trade.transaction_hash.clone();
    out.append("-");
    out.append(trade.asset.as_str());
    out.append("-");
    push_signed(&mut out, trade.timestamp);
    out
}

/// Whether a trade is not among those seen.
pub open spec fn is_new(seen: Seq<Seq<char>>) -> spec_fn(WhaleTrade) -> bool {
    |t: WhaleTrade| !seen.contains(key_text(t))
}

/// New trades of a wallet, as they are collected page by page.
#[derive(Debug)]
pub struct TradeFeed {
    /// The new trades, newest first.
    pub unseen: Vec<WhaleTrade>,
    /// Where the next page begins.
    pub offset: i32,
    /// How many pages were looked at.
    pub pages: i32,
}

/// Whether a further page is worth looking at: this one is full, holds nothing
/// that was seen, and is not the last that is looked at.
pub open spec fn continues(page: Seq<WhaleTrade>, seen: Seq<Seq<char>>, pages: int) -> bool {
    &&& page.len() >= TRADE_PAGE_LIMIT
    &&& page.filter(is_new(seen)).len() == page.len()
    &&& pages < MAX_TRADE_PAGES
}

impl TradeFeed {
    /// Nothing collected yet.
    pub fn new() -> (r: TradeFeed)
        ensures
            r.unseen@ == Seq::<WhaleTrade>::empty(),
            r.offset == 0,
            r.pages == 0,
    {
        TradeFeed { unseen: Vec::new(), offset: 0, pages: 0 }
    }

    /// Takes the new trades of a page, and tells whether a further page is to be
    /// fetched.
    pub fn take_page(&mut self, page: Vec<WhaleTrade>, seen: &KeySet) -> (r: bool)
        requires
            0 <= old(self).pages < MAX_TRADE_PAGES,
            old(self).offset == old(self).pages * TRADE_PAGE_LIMIT,
        ensures
            final(self).unseen@ == old(self).unseen@ + page@.filter(is_new(seen@)),
            final(self).pages == old(self).pages + 1,
            r == continues(page@, seen@, final(self).pages as int),
            final(self).offset == old(self).offset + (if r {
                TRADE_PAGE_LIMIT as int
            } else {
                0int
            }),
    {
        let ghost all = page@;
        let ghost start = self.unseen@;
        let ghost new = is_new(seen@);
        let total: usize = page.len();
        let full = total >= TRADE_PAGE_LIMIT as usize;
        let mut page = page;
        let mut clean = true;
        let mut done: usize = 0;
        proof {
            reveal(Seq::filter);
            assert(all.skip(0) =~= all);
            assert(all.take(0).filter(new) =~= Seq::empty());
            assert(start + Seq::<WhaleTrade>::empty() =~= start);
        }
        while page.len() > 0
            invariant
                done <= all.len() == total,
                page@ == all.skip(done as int),
                new == is_new(seen@),
                self.unseen@ == start + all.take(done as int).filter(new),
                clean <==> all.take(done as int).filter(new).len() == done,
                all.take(done as int).filter(new).len() <= done,
                self.pages == old(self).pages,
                self.offset == old(self).offset,
            decreases page.len(),
        {
            let trade = page.remove(0);
            let ghost t = trade;
            proof {
                reveal(Seq::filter);
                let next = all.take(done + 1);
                assert(t == all[done as int]);
                assert(next.drop_last() =~= all.take(done as int));
                assert(next.last() == t);
                assert(all.skip(done as int).remove(0) =~= all.skip(done + 1));
                assert(all.skip(done as int).len() == all.len() - done);
            }
            let known = seen.contains(trade_key(&trade).as_str());
            if known {
                clean = false;
            } else {
                self.unseen.push(trade);
                proof {
                    assert(start + all.take(done as int).filter(new).push(t) =~= (start + all.take(
                        done as int,
                    ).filter(new)).push(t));
                }
            }
            done = done + 1;
        }
        proof {
            assert(all.skip(done as int).len() == all.len() - done);
            assert(all.take(done as int) =~= all);
        }
        self.pages = self.pages + 1;
        let more = full && clean && self.pages < MAX_TRADE_PAGES;
        if more {
            self.offset = self.offset + TRADE_PAGE_LIMIT;
        }
        more
    }
}

/// The offset of the next page of an account after a page of `page_len`
/// positions at `offset`; none behind a page that is not full, or at the end of
/// what can be fetched.
pub open spec fn next_page(offset: i32, page_len: usize) -> Option<i32> {
    if page_len < ACCOUNT_SYNC_PAGE_LIMIT || offset >= ACCOUNT_SYNC_LAST_OFFSET {
        None
    } else {
        Some((offset + ACCOUNT_SYNC_PAGE_LIMIT) as i32)
    }
}

/// Decides whether, and where, the next page of an account is fetched.
pub fn next_account_page(offset: i32, page_len: usize) -> (r: Option<i32>)
    ensures
        r == next_page(offset, page_len),
{
    if page_len < ACCOUNT_SYNC_PAGE_LIMIT as usize || offset >= ACCOUNT_SYNC_LAST_OFFSET {
        None
    } else {
        Some(offset + ACCOUNT_SYNC_PAGE_LIMIT)
    }
}

/// What was put into a market, and when last.
#[derive(Clone, Copy, Debug)]
pub struct MarketExposure {
    pub amount_usdc: Double,
    pub updated_at: Timestamp,
}

/// What the bot remembers.
#[verifier::ext_equal]
pub struct Memory {
    /// Keys of the trades seen, by wallet.
    pub seen: Seq<(Seq<char>, Seq<Seq<char>>)>,
    /// What was put into markets.
    pub exposure: Seq<(Seq<char>, MarketExposure)>,
    /// Whether trades were seen that are not stored.
    pub dirty: bool,
    /// When the trades seen were last stored.
    pub persisted_at: int,
    /// When the account was last synchronised.
    pub synced_at: int,
}

/// The trades of a wallet that were seen.
pub open spec fn seen_of(memory: Memory, wallet: Seq<char>) -> Seq<Seq<char>> {
    match lookup(memory.seen, wallet) {
        Some(s) => s,
        None => Seq::empty(),
    }
}

/// What was put into a market.
pub open spec fn exposure_of(memory: Memory, market: Seq<char>) -> Double {
    match lookup(memory.exposure, market) {
        Some(e) => e.amount_usdc,
        None => fraction(0, 1),
    }
}

/// The memory with the given trades of a wallet seen.
pub open spec fn with_seen(memory: Memory, wallet: Seq<char>, seen: Seq<Seq<char>>) -> Memory {
    Memory { seen: put(memory.seen, wallet, seen), ..memory }
}

/// The memory with a further amount put into a market.
pub open spec fn with_exposure(memory: Memory, market: Seq<char>, amount: Double, at: Timestamp) -> Memory {
    Memory {
        exposure: put(memory.exposure, market, MarketExposure { amount_usdc: amount, updated_at: at }),
        ..memory
    }
}

/// Whether a wallet is followed.
pub open spec fn followed(whales: Seq<TraderProfile>, wallet: Seq<char>) -> bool {
    exists|i: int| 0 <= i < whales.len() && (#[trigger] whales[i]).address@ == wallet
}

/// Whether what was put into a market is not to be forgotten yet.
pub open spec fn lasting(e: MarketExposure, at: Timestamp) -> bool {
    whole_seconds(at@ - e.updated_at@) <= MARKET_EXPOSURE_TTL_SECS
}

/// The memory without wallets that are no longer followed and without what was
/// put into markets long ago.
pub open spec fn pruned(memory: Memory, whales: Seq<TraderProfile>, at: Timestamp) -> Memory {
    Memory {
        seen: memory.seen.filter(|e: (Seq<char>, Seq<Seq<char>>)| followed(whales, e.0)),
        exposure: memory.exposure.filter(|e: (Seq<char>, MarketExposure)| lasting(e.1, at)),
        ..memory
    }
}

/// Pruning forgets the trades of wallets that are no longer followed, and what
/// was put into markets long ago, and nothing else.
pub proof fn pruning_forgets_only_the_outdated(
    memory: Memory,
    whales: Seq<TraderProfile>,
    at: Timestamp,
    wallet: Seq<char>,
    market: Seq<char>,
)
    requires
        keys(memory.seen).no_duplicates(),
        keys(memory.exposure).no_duplicates(),
    ensures
        seen_of(pruned(memory, whales, at), wallet) == (if followed(whales, wallet) {
            seen_of(memory, wallet)
        } else {
            Seq::empty()
        }),
        lookup(pruned(memory, whales, at).exposure, market) == (match lookup(memory.exposure, market) {
            Some(e) => if lasting(e, at) {
                Some(e)
            } else {
                None
            },
            None => None,
        }),
{
    filter_then_lookup(
        memory.seen,
        |e: (Seq<char>, Seq<Seq<char>>)| followed(whales, e.0),
        wallet,
    );
    filter_then_lookup(
        memory.exposure,
        |e: (Seq<char>, MarketExposure)| lasting(e.1, at),
        market,
    );
}

/// Whether the trades seen are to be stored at a moment.
pub open spec fn store_due(memory: Memory, moment: int) -> bool {
    memory.dirty && moment - memory.persisted_at >= SEEN_TRADES_FLUSH_NANOS
}

/// Whether a live account is to be synchronised at a moment.
pub open spec fn account_due(memory: Memory, config: Config, moment: int) -> bool {
    !config.dry_run && moment - memory.synced_at >= config.account_sync_interval_secs * 1_000_000_000
}

/// What becomes of newly fetched trades.
#[derive(Clone, Copy, Debug, PartialEq, Eq, Structural)]
pub enum Receipt {
    /// There are none.
    Nothing,
    /// They are the first of their wallet, and are not copied.
    Primed,
    /// They are to be judged one by one.
    Process,
}

/// What becomes of newly fetched trades, the newest of them first, and the memory
/// after them. The first trades of a wallet are remembered, the newest of them last,
/// and not copied.
pub open spec fn received(memory: Memory, wallet: Seq<char>, trades: Seq<WhaleTrade>) -> (Receipt, Memory) {
    if trades.len() == 0 {
        (Receipt::Nothing, memory)
    } else if seen_of(memory, wallet).len() == 0 {
        (
            Receipt::Primed,
            Memory {
                dirty: true,
                ..with_seen(memory, wallet, with_keys(Seq::empty(), key_texts(trades).reverse()))
            },
        )
    } else {
        (Receipt::Process, memory)
    }
}

/// The last of the given keys, up to the number that is remembered.
pub open spec fn newest(seen: Seq<Seq<char>>) -> Seq<Seq<char>> {
    if seen.len() > MAX_SEEN_TRADE_KEYS_PER_WHALE {
        seen.skip(seen.len() - MAX_SEEN_TRADE_KEYS_PER_WHALE)
    } else {
        seen
    }
}

/// The memory after the trades of a wallet with the given keys were judged. Of
/// the trades of the wallet that were seen only the newest are kept.
pub open spec fn closed_batch(memory: Memory, wallet: Seq<char>, processed: Seq<Seq<char>>) -> Memory {
    let seen = seen_of(memory, wallet);
    if seen.len() > MAX_SEEN_TRADE_KEYS_PER_WHALE {
        Memory { dirty: true, ..with_seen(memory, wallet, newest(seen)) }
    } else {
        Memory { dirty: memory.dirty || processed.len() > 0, ..memory }
    }
}

/// When the trades of a wallet are done with, the newest of those seen are still
/// seen, and no others are remembered than were seen.
pub proof fn newest_trades_stay_seen(memory: Memory, wallet: Seq<char>, processed: Seq<Seq<char>>)
    ensures
        seen_of(closed_batch(memory, wallet, processed), wallet) == newest(seen_of(memory, wallet)),
        seen_of(closed_batch(memory, wallet, processed), wallet).len() <= MAX_SEEN_TRADE_KEYS_PER_WHALE,
{
    put_then_lookup(memory.seen, wallet, newest(seen_of(memory, wallet)), wallet);
}

/// Adding keys adds at most as many.
pub proof fn lemma_added_len(keys: Seq<Seq<char>>, more: Seq<Seq<char>>)
    ensures
        with_keys(keys, more).len() <= keys.len() + more.len(),
    decreases more.len(),
{
    if more.len() > 0 {
        lemma_added_len(keys, more.drop_last());
    }
}

/// The first trades of a wallet are all seen and none of them is copied.
pub proof fn first_trades_are_only_remembered(
    memory: Memory,
    wallet: Seq<char>,
    trades: Seq<WhaleTrade>,
    i: int,
)
    requires
        seen_of(memory, wallet).len() == 0,
        0 <= i < trades.len(),
    ensures
        received(memory, wallet, trades).0 == Receipt::Primed,
        seen_of(received(memory, wallet, trades).1, wallet).contains(key_text(trades[i])),
{
    let oldest_first = key_texts(trades).reverse();
    let kept = with_keys(Seq::empty(), oldest_first);
    assert(oldest_first[trades.len() - 1 - i] == key_text(trades[i]));
    added_keys_are_present(Seq::empty(), oldest_first, key_text(trades[i]));
    put_then_lookup(memory.seen, wallet, kept, wallet);
}

/// What the bot remembers when it begins to trade at a moment, with the trades that
/// were seen before.
pub open spec fn begun(seen: Seq<(Seq<char>, Seq<Seq<char>>)>, moment: int) -> Memory {
    Memory {
        seen,
        exposure: Seq::empty(),
        dirty: false,
        persisted_at: moment,
        synced_at: moment - SYNC_LEAD_NANOS,
    }
}

/// What the bot remembers while it trades. Moments are counted in nanoseconds
/// on a clock that never goes back.
#[derive(Debug)]
pub struct TradingRuntime {
    pub seen_trades: Table<KeySet>,
    pub market_exposure: Table<MarketExposure>,
    pub seen_dirty: bool,
    pub last_seen_persist_at: i64,
    pub last_account_sync_at: i64,
}

impl View for TradingRuntime {
    type V = Memory;

    open spec fn view(&self) -> Memory {
        Memory {
            seen: seen_lists(self.seen_trades@),
            exposure: self.market_exposure@,
            dirty: self.seen_dirty,
            persisted_at: self.last_seen_persist_at as int,
            synced_at: self.last_account_sync_at as int,
        }
    }
}

impl TradingRuntime {
    /// The memory at the start: the trades seen before, and an account that is
    /// due to be synchronised.
    pub fn new(seen_trades: Table<KeySet>, moment: i64) -> (r: TradingRuntime)
        requires
            moment >= 0,
        ensures
            r@ == begun(seen_lists(seen_trades@), moment as int),
    {
        TradingRuntime {
            seen_trades,
            market_exposure: Table::new(),
            seen_dirty: false,
            last_seen_persist_at: moment,
            last_account_sync_at: moment - SYNC_LEAD_NANOS,
        }
    }

    /// Notes that trades were seen that are not stored.
    pub fn mark_seen_dirty(&mut self)
        ensures
            final(self)@ == (Memory { dirty: true, ..old(self)@ }),
    {
        self.seen_dirty = true;
    }

    /// The trades of a wallet that were seen.
    pub fn seen_trades_of(&self, wallet: &str) -> (r: KeySet)
        ensures
            r@ == seen_of(self@, wallet@),
    {
        match self.seen_trades.get(wallet) {
            Some(set) => {
                proof {
                    lemma_seen_put(self.seen_trades@, wallet@, *set);
                }
                set.copy()
            },
            None => {
                let empty = KeySet::new();
                proof {
                    lemma_seen_put(self.seen_trades@, wallet@, empty);
                }
                empty
            },
        }
    }

    /// Puts the trades of a wallet that were seen.
    fn put_seen(&mut self, wallet: &str, seen: KeySet)
        ensures
            final(self)@ == with_seen(old(self)@, wallet@, seen@),
    {
        proof {
            lemma_seen_put(self.seen_trades@, wallet@, seen);
        }
        self.seen_trades.insert(wallet.to_owned(), seen);
    }

    /// Begins to look at a wallet: it has an entry from now on.
    pub fn open_wallet(&mut self, wallet: &str)
        ensures
            final(self)@ == with_seen(old(self)@, wallet@, seen_of(old(self)@, wallet@)),
    {
        let seen = self.seen_trades_of(wallet);
        self.put_seen(wallet, seen);
    }

    /// Notes that a trade of a wallet was seen.
    pub fn note_trade(&mut self, wallet: &str, key: String)
        ensures
            final(self)@ == with_seen(
                old(self)@,
                wallet@,
                with_key(seen_of(old(self)@, wallet@), key@),
            ),
    {
        let mut seen = self.seen_trades_of(wallet);
        seen.insert(key);
        self.put_seen(wallet, seen);
    }

    /// Takes newly fetched trades of a wallet.
    pub fn receive(&mut self, wallet: &str, trades: &Vec<WhaleTrade>) -> (r: Receipt)
        ensures
            (r, final(self)@) == received(old(self)@, wallet@, trades@),
    {
        if trades.len() == 0 {
            return Receipt::Nothing;
        }
        let known = self.seen_trades_of(wallet);
        if known.len() > 0 {
            return Receipt::Process;
        }
        let mut seen = KeySet::new();
        let mut i: usize = trades.len();
        let ghost oldest_first = key_texts(trades@).reverse();
        proof {
            assert(oldest_first.take(0) =~= Seq::<Seq<char>>::empty());
        }
        while i > 0
            invariant
                i <= trades.len(),
                oldest_first == key_texts(trades@).reverse(),
                seen@ == with_keys(Seq::empty(), oldest_first.take(trades.len() - i)),
            decreases i,
        {
            proof {
                let next = oldest_first.take(trades.len() - i + 1);
                assert(next.drop_last() =~= oldest_first.take(trades.len() - i));
                assert(next.last() == key_text(trades@[i - 1]));
            }
            i = i - 1;
            seen.insert(trade_key(&trades[i]));
        }
        proof {
            assert(oldest_first.take(trades.len() as int) =~= oldest_first);
        }
        self.put_seen(wallet, seen);
        self.mark_seen_dirty();
        Receipt::Primed
    }

    /// Is done with the trades of a wallet, of which those with the given keys
    /// were judged.
    pub fn close_wallet(&mut self, wallet: &str, processed: &Vec<String>)
        ensures
            final(self)@ == closed_batch(old(self)@, wallet@, texts(processed@)),
    {
        let known = self.seen_trades_of(wallet);
        if known.len() > MAX_SEEN_TRADE_KEYS_PER_WHALE {
            let kept = known.last(MAX_SEEN_TRADE_KEYS_PER_WHALE);
            self.put_seen(wallet, kept);
            self.mark_seen_dirty();
        } else if processed.len() > 0 {
            self.mark_seen_dirty();
        }
    }

    /// What was put into a market.
    pub fn exposure(&self, market: &str) -> (r: Double)
        ensures
            r == exposure_of(self@, market@),
    {
        match self.market_exposure.get(market) {
            Some(e) => e.amount_usdc,
            None => Double::whole(0),
        }
    }

    /// Notes what has been put into a market.
    pub fn set_exposure(&mut self, market: &str, amount_usdc: Double, at: Timestamp)
        ensures
            final(self)@ == with_exposure(old(self)@, market@, amount_usdc, at),
    {
        self.market_exposure.insert(
            market.to_owned(),
            MarketExposure { amount_usdc, updated_at: at },
        );
    }

    /// Forgets wallets that are no longer followed, and what was put into
    /// markets long ago.
    pub fn prune(&mut self, whales: &Vec<TraderProfile>, at: Timestamp)
        ensures
            final(self)@ == pruned(old(self)@, whales@, at),
    {
        let ghost before = self@;
        let ghost entries = self.seen_trades@;
        let mut flags: Vec<bool> = Vec::new();
        let mut i: usize = 0;
        let ghost keep = |e: (Seq<char>, KeySet)| followed(whales@, e.0);
        while i < self.seen_trades.len()
            invariant
                i <= self.seen_trades@.len(),
                self.seen_trades@ == entries,
                self@ == before,
                flags.len() == i,
                keep == (|e: (Seq<char>, KeySet)| followed(whales@, e.0)),
                forall|k: int| 0 <= k < i ==> #[trigger] flags[k] == keep(entries[k]),
            decreases self.seen_trades@.len() - i,
        {
            flags.push(is_followed(whales, self.seen_trades.key_at(i).as_str()));
            i = i + 1;
        }
        self.seen_trades.retain(&flags, Ghost(keep));
        let ghost markets = self.market_exposure@;
        let mut flags: Vec<bool> = Vec::new();
        let mut i: usize = 0;
        let ghost last = |e: (Seq<char>, MarketExposure)| lasting(e.1, at);
        let ghost between = self@;
        while i < self.market_exposure.len()
            invariant
                i <= self.market_exposure@.len(),
                self.market_exposure@ == markets,
                self@ == between,
                flags.len() == i,
                last == (|e: (Seq<char>, MarketExposure)| lasting(e.1, at)),
                forall|k: int| 0 <= k < i ==> #[trigger] flags[k] == last(markets[k]),
            decreases self.market_exposure@.len() - i,
        {
            let e = *self.market_exposure.value_at(i);
            flags.push(at.seconds_since(&e.updated_at) <= MARKET_EXPOSURE_TTL_SECS);
            i = i + 1;
        }
        self.market_exposure.retain(&flags, Ghost(last));
        proof {
            lemma_filter_lists(entries, whales@);
        }
    }

    /// Whether the trades seen are to be stored.
    pub fn persist_due(&self, moment: i64) -> (r: bool)
        ensures
            r == store_due(self@, moment as int),
    {
        self.seen_dirty && moment as i128 - self.last_seen_persist_at as i128 >= SEEN_TRADES_FLUSH_NANOS
    }

    /// Notes that the trades seen were stored.
    pub fn persisted(&mut self, moment: i64)
        ensures
            final(self)@ == (Memory { dirty: false, persisted_at: moment as int, ..old(self)@ }),
    {
        self.seen_dirty = false;
        self.last_seen_persist_at = moment;
    }

    /// Whether a live account is to be synchronised.
    pub fn sync_due(&self, config: &Config, moment: i64) -> (r: bool)
        ensures
            r == account_due(self@, *config, moment as int),
    {
        !config.dry_run && moment as i128 - self.last_account_sync_at as i128
            >= config.account_sync_interval_secs as i128 * 1_000_000_000
    }

    /// Notes that the account was synchronised.
    pub fn synced(&mut self, moment: i64)
        ensures
            final(self)@ == (Memory { synced_at: moment as int, ..old(self)@ }),
    {
        self.last_account_sync_at = moment;
    }
}

/// Leaving out wallets leaves out their lists.
proof fn lemma_filter_lists(entries: Seq<(Seq<char>, KeySet)>, whales: Seq<TraderProfile>)
    ensures
        seen_lists(entries.filter(|e: (Seq<char>, KeySet)| followed(whales, e.0))) == seen_lists(
            entries,
        ).filter(|e: (Seq<char>, Seq<Seq<char>>)| followed(whales, e.0)),
    decreases entries.len(),
{
    let keep = |e: (Seq<char>, KeySet)| followed(whales, e.0);
    let keep_lists = |e: (Seq<char>, Seq<Seq<char>>)| followed(whales, e.0);
    reveal(Seq::filter);
    if entries.len() > 0 {
        let shorter = entries.drop_last();
        lemma_filter_lists(shorter, whales);
        assert(seen_lists(entries).drop_last() =~= seen_lists(shorter));
        assert(seen_lists(entries).last() == (entries.last().0, entries.last().1@));
        assert(seen_lists(shorter.filter(keep).push(entries.last())) =~= seen_lists(
            shorter.filter(keep),
        ).push((entries.last().0, entries.last().1@)));
    } else {
        assert(seen_lists(entries.filter(keep)) =~= seen_lists(entries).filter(keep_lists));
    }
}

/// Whether a wallet is followed.
fn is_followed(whales: &Vec<TraderProfile>, wallet: &str) -> (r: bool)
    ensures
        r == followed(whales@, wallet@),
{
    let mut i: usize = 0;
    while i < whales.len()
        invariant
            i <= whales.len(),
            forall|k: int| 0 <= k < i ==> (#[trigger] whales@[k]).address@ != wallet@,
        decreases whales.len() - i,
    {
        if same(whales[i].address.as_str(), wallet) {
            proof {
                assert(whales@[i as int].address@ == wallet@);
            }
            return true;
        }
        i = i + 1;
    }
    false
}

/// Whether an update of the order book comes too soon after the last look to
/// trigger another.
pub open spec fn too_soon(last_check: int, moment: int) -> bool {
    moment - last_check < DEBOUNCE_NANOS
}

/// Whether an update of the order book comes too soon after the last look to
/// trigger another.
pub fn debounced(last_check: i64, moment: i64) -> (r: bool)
    ensures
        r == too_soon(last_check as int, moment as int),
{
    moment as i128 - (last_check as i128) < DEBOUNCE_NANOS
}

} // verus!
