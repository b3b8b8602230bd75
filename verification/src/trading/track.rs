//! That no trade is judged twice: what a look, step by step, keeps of the trades
//! that were seen.

use crate::clock::Timestamp;
use crate::config::Config;
use crate::state::model::Books;
use crate::table::{
    filter_then_lookup, keys, lemma_filter_keeps_keys_distinct, put, put_keeps_keys_distinct,
    put_then_lookup, with_key, with_keys,
};
use crate::trading::cycle::{cycle_step, CycleAction, CycleEvent, Look, Phase};
use crate::trading::runtime::{
    followed, is_new, key_text, key_texts, lemma_added_len, newest, newest_trades_stay_seen,
    seen_of, Memory, WhaleTrade, MAX_SEEN_TRADE_KEYS_PER_WHALE, MAX_TRADE_PAGES, TRADE_PAGE_LIMIT,
};
use vstd::prelude::*;

verus! {

/// The wallet that is being looked at.
pub open spec fn current_wallet(look: Look) -> Seq<char> {
    look.whales[look.index].address@
}

/// Whether trades of a wallet are being judged or copied.
pub open spec fn is_judging(look: Look) -> bool {
    look.phase == Phase::Judging || look.phase == Phase::Placing
}

/// Whether a look keeps track of the trades of its wallet: what it judged is
/// seen, and what it collected and has not judged is not.
pub open spec fn keeps_track(look: Look, memory: Memory) -> bool {
    let seen = seen_of(memory, current_wallet(look));
    &&& look.phase == Phase::Fetching ==> forall|i: int|
        0 <= i < look.unseen.len() ==> !seen.contains(key_text(#[trigger] look.unseen[i]))
    &&& is_judging(look) ==> {
        &&& forall|k: Seq<char>| #[trigger] look.processed.contains(k) ==> seen.contains(k)
        &&& forall|i: int|
            0 <= i < look.unseen.len() && seen.contains(key_text(#[trigger] look.unseen[i]))
                ==> look.processed.contains(key_text(look.unseen[i]))
    }
}

/// Adding a key makes it seen, and loses none.
proof fn lemma_grown(memory: Memory, wallet: Seq<char>, key: Seq<char>)
    ensures
        with_key(seen_of(memory, wallet), key).contains(key),
        forall|k: Seq<char>|
            with_key(seen_of(memory, wallet), key).contains(k) <==> k == key || #[trigger] seen_of(
                memory,
                wallet,
            ).contains(k),
{
    let seen = seen_of(memory, wallet);
    let grown = with_key(seen, key);
    if !seen.contains(key) {
        assert(grown[seen.len() as int] == key);
        assert forall|k: Seq<char>| grown.contains(k) <==> k == key || #[trigger] seen.contains(k) by {
            if seen.contains(k) {
                let i = choose|i: int| 0 <= i < seen.len() && seen[i] == k;
                assert(grown[i] == k);
            }
            if grown.contains(k) {
                let i = choose|i: int| 0 <= i < grown.len() && grown[i] == k;
                if i < seen.len() {
                    assert(seen[i] == k);
                }
            }
        }
    }
}

/// Every step of a look keeps track of the trades of its wallet.
pub proof fn look_keeps_track(
    look: Look,
    books: Books,
    memory: Memory,
    config: Config,
    event: CycleEvent,
    at: Timestamp,
)
    requires
        keeps_track(look, memory),
    ensures
        keeps_track(
            cycle_step(look, books, memory, config, event, at).0,
            cycle_step(look, books, memory, config, event, at).2,
        ),
{
    let (after, _, kept, _) = cycle_step(look, books, memory, config, event, at);
    let wallet = current_wallet(look);
    let seen = seen_of(memory, wallet);
    match (look.phase, event) {
        (Phase::Fetching, CycleEvent::Page(page)) => {
            let unseen = look.unseen + page@.filter(is_new(seen));
            assert forall|i: int| 0 <= i < unseen.len() implies !seen.contains(
                key_text(#[trigger] unseen[i]),
            ) by {
                if i < look.unseen.len() {
                    assert(unseen[i] == look.unseen[i]);
                } else {
                    page@.lemma_filter_pred(is_new(seen), i - look.unseen.len());
                }
            }
        },
        (Phase::Judging, CycleEvent::Go) => {
            if look.unseen.len() > 0 && !look.processed.contains(key_text(look.unseen.last())) {
                let key = key_text(look.unseen.last());
                let grown = with_key(seen, key);
                put_then_lookup(memory.seen, wallet, grown, wallet);
                lemma_grown(memory, wallet, key);
                assert(look.processed.push(key)[look.processed.len() as int] == key);
                assert forall|k: Seq<char>| look.processed.push(key).contains(k) <==> k == key
                    || #[trigger] look.processed.contains(k) by {
                    if look.processed.contains(k) {
                        let i = choose|i: int| 0 <= i < look.processed.len() && look.processed[i] == k;
                        assert(look.processed.push(key)[i] == k);
                    }
                }
                if is_judging(after) {
                    assert(seen_of(kept, wallet) == grown);
                    assert(after.processed == look.processed.push(key));
                    assert forall|i: int|
                        0 <= i < after.unseen.len() && grown.contains(
                            key_text(#[trigger] after.unseen[i]),
                        ) implies after.processed.contains(key_text(after.unseen[i])) by {
                        assert(after.unseen[i] == look.unseen[i]);
                        assert(seen.contains(key_text(look.unseen[i])) || key_text(look.unseen[i]) == key);
                    }
                    assert forall|k: Seq<char>| #[trigger] after.processed.contains(k) implies grown.contains(
                        k,
                    ) by {
                        assert(k == key || look.processed.contains(k));
                        assert(k == key || seen.contains(k));
                    }
                }
            } else if look.unseen.len() > 0 {
                assert forall|i: int|
                    0 <= i < after.unseen.len() && seen.contains(
                        key_text(#[trigger] after.unseen[i]),
                    ) implies after.processed.contains(key_text(after.unseen[i])) by {
                    assert(after.unseen[i] == look.unseen[i]);
                }
            }
        },
        _ => {},
    }
}

/// A trade that was seen is not judged: it is dropped, and neither the books nor
/// the memory change.
pub proof fn seen_trade_is_not_judged(
    look: Look,
    books: Books,
    memory: Memory,
    config: Config,
    at: Timestamp,
)
    requires
        keeps_track(look, memory),
        look.phase == Phase::Judging,
        look.unseen.len() > 0,
        seen_of(memory, current_wallet(look)).contains(key_text(look.unseen.last())),
    ensures
        cycle_step(look, books, memory, config, CycleEvent::Go, at) == (
            Look { unseen: look.unseen.drop_last(), ..look },
            books,
            memory,
            CycleAction::Continue,
        ),
{
    assert(look.unseen[look.unseen.len() - 1] == look.unseen.last());
}

/// A trade that was seen is not collected: no page yields one.
pub proof fn seen_trade_is_not_collected(seen: Seq<Seq<char>>, page: Seq<WhaleTrade>, i: int)
    requires
        0 <= i < page.filter(is_new(seen)).len(),
    ensures
        !seen.contains(key_text(page.filter(is_new(seen))[i])),
{
    page.lemma_filter_pred(is_new(seen), i);
}

/// Every trade that is judged is seen from then on, as the newest, whatever becomes
/// of it.
pub proof fn judged_trade_counts_as_seen(
    look: Look,
    books: Books,
    memory: Memory,
    config: Config,
    at: Timestamp,
)
    requires
        keeps_track(look, memory),
        look.phase == Phase::Judging,
        look.unseen.len() > 0,
    ensures
        seen_of(
            cycle_step(look, books, memory, config, CycleEvent::Go, at).2,
            current_wallet(look),
        ).contains(key_text(look.unseen.last())),
        judges_new(look, memory, CycleEvent::Go, current_wallet(look)) ==> seen_of(
            cycle_step(look, books, memory, config, CycleEvent::Go, at).2,
            current_wallet(look),
        ).last() == key_text(look.unseen.last()),
{
    let wallet = current_wallet(look);
    let key = key_text(look.unseen.last());
    let seen = seen_of(memory, wallet);
    let grown = with_key(seen, key);
    put_then_lookup(memory.seen, wallet, grown, wallet);
    lemma_grown(memory, wallet, key);
    assert(look.unseen[look.unseen.len() - 1] == look.unseen.last());
    if !look.processed.contains(key) {
        assert(!seen.contains(key));
        assert(grown.last() == key);
        let judged = Memory { seen: put(memory.seen, wallet, grown), ..memory };
        newest_trades_stay_seen(judged, wallet, look.processed.push(key));
        assert(newest(grown)[newest(grown).len() - 1] == key);
        let after = cycle_step(look, books, memory, config, CycleEvent::Go, at).2;
        put_then_lookup(judged.seen, wallet, newest(grown), wallet);
        assert(seen_of(after, wallet) == grown || seen_of(after, wallet) == newest(grown));
    }
}

/// Whether a step judges a trade of a wallet that was not seen.
pub open spec fn judges_new(look: Look, memory: Memory, event: CycleEvent, wallet: Seq<char>) -> bool {
    &&& look.phase == Phase::Judging
    &&& event is Go
    &&& wallet == current_wallet(look)
    &&& look.unseen.len() > 0
    &&& !look.processed.contains(key_text(look.unseen.last()))
    &&& !seen_of(memory, wallet).contains(key_text(look.unseen.last()))
}

/// Of the trades of a wallet that is followed, the newest ever seen are always
/// remembered: whatever a step adds to them, the newest of all stay seen. Once a
/// wallet is known, a step adds to them only a trade that it judges.
pub proof fn newest_ever_stay_seen(
    look: Look,
    books: Books,
    memory: Memory,
    config: Config,
    event: CycleEvent,
    at: Timestamp,
    wallet: Seq<char>,
) -> (added: Seq<Seq<char>>)
    requires
        keys(memory.seen).no_duplicates(),
        followed(look.whales, wallet),
    ensures
        newest(seen_of(cycle_step(look, books, memory, config, event, at).2, wallet)) == newest(
            seen_of(memory, wallet) + added,
        ),
        judges_new(look, memory, event, wallet) ==> added == seq![key_text(look.unseen.last())],
        !judges_new(look, memory, event, wallet) && seen_of(memory, wallet).len() > 0 ==> added.len() == 0,
{
    let after = cycle_step(look, books, memory, config, event, at).2;
    let current = current_wallet(look);
    let seen = seen_of(memory, wallet);
    let none = Seq::<Seq<char>>::empty();
    assert(seen + none =~= seen);
    match (look.phase, event) {
        (Phase::Start, CycleEvent::Go) => {
            filter_then_lookup(
                memory.seen,
                |e: (Seq<char>, Seq<Seq<char>>)| followed(look.whales, e.0),
                wallet,
            );
            none
        },
        (Phase::Address, CycleEvent::AddressParsed(valid)) => {
            put_then_lookup(memory.seen, current, seen_of(memory, current), wallet);
            none
        },
        (Phase::Fetching, CycleEvent::Page(page)) => {
            let unseen = look.unseen + page@.filter(is_new(seen_of(memory, current)));
            let primed = with_keys(Seq::empty(), key_texts(unseen).reverse());
            put_then_lookup(memory.seen, current, primed, wallet);
            if seen_of(after, wallet) == seen {
                none
            } else {
                assert(seen + primed =~= primed);
                primed
            }
        },
        (Phase::Judging, CycleEvent::Go) => {
            if look.unseen.len() == 0 {
                newest_trades_stay_seen(memory, current, look.processed);
                put_then_lookup(memory.seen, current, newest(seen_of(memory, current)), wallet);
                none
            } else {
                let key = key_text(look.unseen.last());
                let grown = with_key(seen_of(memory, current), key);
                let judged = Memory { seen: put(memory.seen, current, grown), ..memory };
                put_then_lookup(memory.seen, current, grown, wallet);
                put_then_lookup(memory.seen, current, grown, current);
                newest_trades_stay_seen(judged, current, look.processed.push(key));
                put_then_lookup(judged.seen, current, newest(grown), wallet);
                if wallet == current && !seen.contains(key) && !look.processed.contains(key) {
                    assert(seen + seq![key] =~= grown);
                    assert(seen_of(after, wallet) == grown || seen_of(after, wallet) == newest(grown));
                    seq![key]
                } else {
                    if wallet != current {
                        assert(seen_of(after, wallet) == seen);
                    } else {
                        assert(seen_of(after, wallet) == seen || seen_of(after, wallet) == newest(seen));
                    }
                    none
                }
            }
        },
        _ => none,
    }
}

/// Whether no wallet has more trades remembered than the limit, but for those
/// that are being judged.
pub open spec fn is_capped(look: Look, memory: Memory) -> bool {
    &&& keys(memory.seen).no_duplicates()
    &&& forall|w: Seq<char>|
        (#[trigger] seen_of(memory, w)).len() <= MAX_SEEN_TRADE_KEYS_PER_WHALE || (is_judging(look) && w
            == current_wallet(look))
    &&& look.phase == Phase::Fetching ==> 0 <= look.pages < MAX_TRADE_PAGES && look.unseen.len()
        <= look.pages * TRADE_PAGE_LIMIT
}

/// Where pages are no longer than asked for, every step keeps the number of
/// trades remembered of each wallet within the limit, but for those that are
/// being judged.
pub proof fn seen_trades_stay_capped(
    look: Look,
    books: Books,
    memory: Memory,
    config: Config,
    event: CycleEvent,
    at: Timestamp,
)
    requires
        is_capped(look, memory),
        event matches CycleEvent::Page(page) ==> page@.len() <= TRADE_PAGE_LIMIT,
    ensures
        is_capped(
            cycle_step(look, books, memory, config, event, at).0,
            cycle_step(look, books, memory, config, event, at).2,
        ),
{
    let (after, _, kept, _) = cycle_step(look, books, memory, config, event, at);
    let current = current_wallet(look);
    match (look.phase, event) {
        (Phase::Start, CycleEvent::Go) => {
            lemma_filter_keeps_keys_distinct(
                memory.seen,
                |e: (Seq<char>, Seq<Seq<char>>)| followed(look.whales, e.0),
            );
            assert forall|w: Seq<char>|
                (#[trigger] seen_of(kept, w)).len() <= MAX_SEEN_TRADE_KEYS_PER_WHALE by {
                assert(seen_of(memory, w).len() <= MAX_SEEN_TRADE_KEYS_PER_WHALE);
                filter_then_lookup(
                    memory.seen,
                    |e: (Seq<char>, Seq<Seq<char>>)| followed(look.whales, e.0),
                    w,
                );
            }
        },
        (Phase::Address, CycleEvent::AddressParsed(valid)) => {
            let same = seen_of(memory, current);
            put_keeps_keys_distinct(memory.seen, current, same);
            assert forall|w: Seq<char>|
                (#[trigger] seen_of(kept, w)).len() <= MAX_SEEN_TRADE_KEYS_PER_WHALE by {
                put_then_lookup(memory.seen, current, same, w);
                assert(seen_of(memory, w).len() <= MAX_SEEN_TRADE_KEYS_PER_WHALE);
            }
        },
        (Phase::Fetching, CycleEvent::Page(page)) => {
            let fresh = page@.filter(is_new(seen_of(memory, current)));
            let unseen = look.unseen + fresh;
            let primed = with_keys(Seq::empty(), key_texts(unseen).reverse());
            lemma_filter_len(page@, is_new(seen_of(memory, current)));
            lemma_added_len(Seq::empty(), key_texts(unseen).reverse());
            put_keeps_keys_distinct(memory.seen, current, primed);
            assert((look.pages + 1) * TRADE_PAGE_LIMIT == look.pages * TRADE_PAGE_LIMIT
                + TRADE_PAGE_LIMIT) by (nonlinear_arith);
            assert(unseen.len() <= 100);
            assert forall|w: Seq<char>|
                (#[trigger] seen_of(kept, w)).len() <= MAX_SEEN_TRADE_KEYS_PER_WHALE by {
                put_then_lookup(memory.seen, current, primed, w);
                assert(seen_of(memory, w).len() <= MAX_SEEN_TRADE_KEYS_PER_WHALE);
            }
        },
        (Phase::Judging, CycleEvent::Go) => {
            let seen = seen_of(memory, current);
            if look.unseen.len() == 0 {
                newest_trades_stay_seen(memory, current, look.processed);
                put_keeps_keys_distinct(memory.seen, current, newest(seen));
                assert forall|w: Seq<char>|
                    (#[trigger] seen_of(kept, w)).len() <= MAX_SEEN_TRADE_KEYS_PER_WHALE by {
                    put_then_lookup(memory.seen, current, newest(seen), w);
                    assert(w != current ==> seen_of(memory, w).len() <= MAX_SEEN_TRADE_KEYS_PER_WHALE);
                }
            } else {
                let key = key_text(look.unseen.last());
                let grown = with_key(seen, key);
                let judged = Memory { seen: put(memory.seen, current, grown), ..memory };
                put_keeps_keys_distinct(memory.seen, current, grown);
                put_keeps_keys_distinct(judged.seen, current, newest(grown));
                put_then_lookup(memory.seen, current, grown, current);
                newest_trades_stay_seen(judged, current, look.processed.push(key));
                assert forall|w: Seq<char>|
                    (#[trigger] seen_of(kept, w)).len() <= MAX_SEEN_TRADE_KEYS_PER_WHALE || (is_judging(
                        after,
                    ) && w == current) by {
                    put_then_lookup(memory.seen, current, grown, w);
                    put_then_lookup(judged.seen, current, newest(grown), w);
                    assert(w != current ==> seen_of(memory, w).len() <= MAX_SEEN_TRADE_KEYS_PER_WHALE);
                }
            }
        },
        _ => {
            assert forall|w: Seq<char>|
                (#[trigger] seen_of(kept, w)).len() <= MAX_SEEN_TRADE_KEYS_PER_WHALE || (is_judging(after)
                    && w == current_wallet(after)) by {
                assert(seen_of(memory, w).len() <= MAX_SEEN_TRADE_KEYS_PER_WHALE || is_judging(look));
            }
        },
    }
}

/// Picking from a list never makes it longer.
proof fn lemma_filter_len<T>(items: Seq<T>, pick: spec_fn(T) -> bool)
    ensures
        items.filter(pick).len() <= items.len(),
    decreases items.len(),
{
    reveal(Seq::filter);
    if items.len() > 0 {
        lemma_filter_len(items.drop_last(), pick);
    }
}

/// When a look is done with a wallet of which it judged trades, or ends over one
/// of them, they are due to be stored.
pub proof fn judged_trades_are_due_to_be_stored(
    look: Look,
    books: Books,
    memory: Memory,
    config: Config,
    at: Timestamp,
)
    requires
        look.phase == Phase::Judging,
        look.processed.len() > 0 || look.unseen.len() > 0,
        !is_judging(cycle_step(look, books, memory, config, CycleEvent::Go, at).0),
    ensures
        cycle_step(look, books, memory, config, CycleEvent::Go, at).2.dirty,
{
}

} // verus!
