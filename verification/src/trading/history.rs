//! What is remembered over many looks.

use crate::clock::Timestamp;
use crate::config::Config;
use crate::state::model::Books;
use crate::table::keys;
use crate::trading::cycle::{cycle_step, CycleEvent, Look, Step};
use crate::trading::runtime::{
    followed, is_new, key_text, newest, seen_of, Memory, WhaleTrade, MAX_SEEN_TRADE_KEYS_PER_WHALE,
};
use crate::trading::track::{judges_new, newest_ever_stay_seen, seen_trade_is_not_collected};
use vstd::prelude::*;

verus! {

/// One step of some look, and what it starts from.
pub struct Moment {
    pub look: Look,
    pub books: Books,
    pub memory: Memory,
    pub config: Config,
    pub event: CycleEvent,
    pub at: Timestamp,
}

impl Moment {
    /// What follows from the step.
    #[verifier::opaque]
    pub open spec fn outcome(self) -> Step {
        cycle_step(self.look, self.books, self.memory, self.config, self.event, self.at)
    }

    /// What is remembered after the step.
    pub open spec fn memory_after(self) -> Memory {
        self.outcome().2
    }
}

/// Whether steps follow one another, of one look or of several, while a wallet is
/// followed: each starts from the trades that the one before left as seen.
pub open spec fn is_history(moments: Seq<Moment>, wallet: Seq<char>) -> bool {
    &&& forall|i: int|
        0 <= i < moments.len() ==> followed((#[trigger] moments[i]).look.whales, wallet) && keys(
            moments[i].memory.seen,
        ).no_duplicates()
    &&& forall|i: int|
        0 < i < moments.len() ==> (#[trigger] moments[i]).memory.seen == moments[i - 1].memory_after().seen
}

/// How many trades of a wallet that were not seen are judged.
pub open spec fn judged_new(moments: Seq<Moment>, wallet: Seq<char>) -> nat
    decreases moments.len(),
{
    if moments.len() == 0 {
        0
    } else {
        let m = moments.last();
        judged_new(moments.drop_last(), wallet) + if judges_new(m.look, m.memory, m.event, wallet) {
            1nat
        } else {
            0nat
        }
    }
}

/// What is newest of more depends only on what was newest before.
proof fn lemma_newest_of_more(a: Seq<Seq<char>>, b: Seq<Seq<char>>, more: Seq<Seq<char>>)
    requires
        newest(a) == newest(b),
    ensures
        newest(a + more) == newest(b + more),
{
    let (x, y) = (newest(a + more), newest(b + more));
    assert(newest(a).len() == newest(b).len());
    assert(x.len() == y.len());
    assert forall|i: int| 0 <= i < x.len() implies x[i] == y[i] by {
        let j = x.len() - 1 - i;
        if j < more.len() {
            assert(x[i] == more[more.len() - 1 - j]);
            assert(y[i] == more[more.len() - 1 - j]);
        } else {
            let k = newest(a).len() - 1 - (j - more.len());
            assert(x[i] == newest(a)[k]);
            assert(y[i] == newest(b)[k]);
        }
    }
    assert(x =~= y);
}

/// What a history adds to the trades of a wallet that were seen, once the wallet
/// is known.
proof fn lemma_history(moments: Seq<Moment>, wallet: Seq<char>) -> (added: Seq<Seq<char>>)
    requires
        is_history(moments, wallet),
        moments.len() > 0,
        seen_of(moments[0].memory, wallet).len() > 0,
    ensures
        newest(seen_of(moments.last().memory_after(), wallet)) == newest(
            seen_of(moments[0].memory, wallet) + added,
        ),
        added.len() == judged_new(moments, wallet),
        seen_of(moments.last().memory_after(), wallet).len() > 0,
    decreases moments.len(),
{
    reveal(Moment::outcome);
    let m = moments.last();
    let first = seen_of(moments[0].memory, wallet);
    let before = moments.drop_last();
    let (start, earlier) = if before.len() == 0 {
        assert(first + Seq::<Seq<char>>::empty() =~= first);
        (first, Seq::<Seq<char>>::empty())
    } else {
        assert forall|i: int| 0 <= i < before.len() implies followed(
            (#[trigger] before[i]).look.whales,
            wallet,
        ) && keys(before[i].memory.seen).no_duplicates() by {
            assert(before[i] == moments[i]);
        }
        assert forall|i: int| 0 < i < before.len() implies (#[trigger] before[i]).memory.seen == before[i
            - 1].memory_after().seen by {
            assert(before[i] == moments[i]);
            assert(before[i - 1] == moments[i - 1]);
        }
        let earlier = lemma_history(before, wallet);
        assert(before.last() == moments[moments.len() - 2]);
        assert(m.memory.seen == before.last().memory_after().seen);
        (seen_of(m.memory, wallet), earlier)
    };
    assert(judged_new(moments, wallet) == judged_new(before, wallet) + if judges_new(
        m.look,
        m.memory,
        m.event,
        wallet,
    ) {
        1nat
    } else {
        0nat
    });
    assert(start == seen_of(m.memory, wallet));
    assert(start.len() > 0);
    let more = newest_ever_stay_seen(m.look, m.books, m.memory, m.config, m.event, m.at, wallet);
    lemma_newest_of_more(start, first + earlier, more);
    assert((first + earlier) + more =~= first + (earlier + more));
    assert(newest(start + more).len() > 0);
    earlier + more
}

/// A trade of a wallet that counts as seen goes on to do so while the wallet is
/// followed, over any number of looks, until so many trades were seen after it
/// that it is no longer among the newest; until then it is collected from no page.
pub proof fn trade_stays_seen(
    moments: Seq<Moment>,
    wallet: Seq<char>,
    i: int,
    page: Seq<WhaleTrade>,
    j: int,
)
    requires
        is_history(moments, wallet),
        moments.len() > 0,
        0 <= i < seen_of(moments[0].memory, wallet).len(),
        seen_of(moments[0].memory, wallet).len() - i + judged_new(moments, wallet)
            <= MAX_SEEN_TRADE_KEYS_PER_WHALE,
    ensures
        seen_of(moments.last().memory_after(), wallet).contains(seen_of(moments[0].memory, wallet)[i]),
        0 <= j < page.filter(is_new(seen_of(moments.last().memory_after(), wallet))).len() ==> key_text(
            page.filter(is_new(seen_of(moments.last().memory_after(), wallet)))[j],
        ) != seen_of(moments[0].memory, wallet)[i],
{
    let first = seen_of(moments[0].memory, wallet);
    let now_seen = seen_of(moments.last().memory_after(), wallet);
    let added = lemma_history(moments, wallet);
    let all = first + added;
    assert(all[i] == first[i]);
    let k = newest(all).len() - (all.len() - i);
    assert(newest(all)[k] == first[i]);
    assert(newest(now_seen)[k] == first[i]);
    let at = now_seen.len() - newest(now_seen).len() + k;
    assert(now_seen[at] == first[i]);
    if 0 <= j < page.filter(is_new(now_seen)).len() {
        seen_trade_is_not_collected(now_seen, page, j);
    }
}

} // verus!
