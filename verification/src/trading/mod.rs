//! Copying of trades: sizing, risk limits and bookkeeping.

pub mod accuracy;
pub mod account;
pub mod amounts;
pub mod breakers;
pub mod completeness;
pub mod cycle;
pub mod decision;
pub mod following;
pub mod history;
pub mod kelly;
pub mod live;
pub mod looks;
pub mod placement;
pub mod quotes;
pub mod reconciliation;
pub mod runtime;
pub mod steps;
pub mod track;

use self::decision::{
    evaluate, outcome_of, reason_text, side_name, verdict, CopyPlan, Situation, SkipReason, Verdict,
};
use self::runtime::{
    debounced, exposure_of, key_text, seen_of, too_soon, trade_key, with_exposure, with_seen,
    Memory, TradingRuntime, WhaleTrade, DEBOUNCE_NANOS,
};
use crate::clock::{utc_date, whole_seconds, Timestamp};
use crate::config::Config;
use crate::double::laws::lemma_zero;
use crate::double::{fraction, Double};
use crate::investigation::scoring::TraderProfile;
use crate::state::model::{
    after_skip, after_trade, count_of, date_of, drawdown, notional, Books, Trade,
};
use crate::state::{counters_have_room, BotState, TradeRecord};
use crate::table::{keys, lemma_position, lookup, texts, with_key, with_keys, KeySet};
use crate::text::same;
use vstd::prelude::*;

verus! {

/// Seconds after which a profile is too old to trade on.
pub const MAX_WHALE_STALENESS_SECS: i64 = 10_800;

/// Why no trade may be made at all, if so.
pub open spec fn cycle_block(books: Books, config: Config) -> Option<SkipReason> {
    if books.balance.below(fraction(5, 1)) {
        Some(SkipReason::BalanceBelowMinimum)
    } else if config.daily_loss_limit_usdc.at_most(drawdown(books)) {
        Some(SkipReason::DailyLossLimitReached)
    } else if books.loss_streak >= config.max_consecutive_losses {
        Some(SkipReason::MaxConsecutiveLossesReached)
    } else {
        None
    }
}

/// Where there is room in every counter there is room in each.
pub proof fn lemma_room(books: Books, reason: Seq<char>)
    requires
        counters_have_room(books),
    ensures
        count_of(books.skip_reasons, reason) < usize::MAX,
{
    lemma_position(keys(books.skip_reasons), reason);
}

/// Counts a skipped signal.
pub fn record_skip_reason(state: &mut BotState, reason: SkipReason, at: Timestamp)
    requires
        counters_have_room(old(state)@),
    ensures
        final(state)@ == after_skip(old(state)@, reason_text(reason), at),
{
    proof {
        lemma_room(state@, reason_text(reason));
    }
    state.record_skip_at(reason.text(), at);
}

/// Decides whether trades may be made at all: not while the balance is too low,
/// the day's loss limit is reached, or too many losses came in a row. If not,
/// that is counted.
pub fn begin_cycle(state: &mut BotState, config: &Config, at: Timestamp) -> (r: bool)
    requires
        counters_have_room(old(state)@),
    ensures
        r == (cycle_block(old(state)@, *config) is None),
        r ==> !old(state)@.balance.below(fraction(5, 1)),
        r ==> !config.daily_loss_limit_usdc.at_most(
            old(state)@.day_start_equity.minus(old(state)@.equity),
        ),
        r ==> old(state)@.loss_streak < config.max_consecutive_losses,
        final(state)@ == (match cycle_block(old(state)@, *config) {
            Some(reason) => after_skip(old(state)@, reason_text(reason), at),
            None => old(state)@,
        }),
{
    proof {
        lemma_zero();
    }
    let reason = if state.balance_usdc.lt(Double::whole(5)) {
        SkipReason::BalanceBelowMinimum
    } else if config.daily_loss_limit_usdc.le(state.daily_drawdown_usdc()) {
        SkipReason::DailyLossLimitReached
    } else if state.consecutive_loss_events >= config.max_consecutive_losses {
        SkipReason::MaxConsecutiveLossesReached
    } else {
        return true;
    };
    record_skip_reason(state, reason, at);
    false
}

/// What is to be done about a wallet.
#[derive(Clone, Copy, Debug, PartialEq, Eq, Structural)]
pub enum WhaleGate {
    /// Nothing: it does not hold the token whose order book changed.
    Ignore,
    /// Skip it for a reason.
    Skip(SkipReason),
    /// Fetch its trades.
    Proceed,
}

/// What is to be done about a wallet, given the token whose order book changed,
/// if any, and when the look began.
pub open spec fn gate(whale: TraderProfile, triggered: Option<Seq<char>>, begun_at: Timestamp) -> WhaleGate {
    if triggered matches Some(token) && !texts(whale.active_asset_ids@).contains(token) {
        WhaleGate::Ignore
    } else if whole_seconds(begun_at@ - whale.updated_at@) > MAX_WHALE_STALENESS_SECS {
        WhaleGate::Skip(SkipReason::StaleWhaleProfile)
    } else {
        WhaleGate::Proceed
    }
}

/// Whether a text is in a list.
pub(crate) fn listed(list: &Vec<String>, text: &str) -> (r: bool)
    ensures
        r == texts(list@).contains(text@),
{
    let mut i: usize = 0;
    while i < list.len()
        invariant
            i <= list.len(),
            forall|k: int| 0 <= k < i ==> #[trigger] texts(list@)[k] != text@,
        decreases list.len() - i,
    {
        if same(list[i].as_str(), text) {
            proof {
                assert(texts(list@)[i as int] == text@);
            }
            return true;
        }
        i = i + 1;
    }
    false
}

/// Decides what is to be done about a wallet, and counts it if it is skipped.
pub fn admit_whale(
    state: &mut BotState,
    whale: &TraderProfile,
    triggered_asset_id: Option<&str>,
    begun_at: Timestamp,
    at: Timestamp,
) -> (r: WhaleGate)
    requires
        counters_have_room(old(state)@),
    ensures
        r == gate(
            *whale,
            match triggered_asset_id {
                Some(token) => Some(token@),
                None => None,
            },
            begun_at,
        ),
        final(state)@ == (match r {
            WhaleGate::Skip(reason) => after_skip(old(state)@, reason_text(reason), at),
            _ => old(state)@,
        }),
{
    if let Some(token) = triggered_asset_id {
        if !listed(&whale.active_asset_ids, token) {
            return WhaleGate::Ignore;
        }
    }
    if begun_at.seconds_since(&whale.updated_at) > MAX_WHALE_STALENESS_SECS {
        record_skip_reason(state, SkipReason::StaleWhaleProfile, at);
        WhaleGate::Skip(SkipReason::StaleWhaleProfile)
    } else {
        WhaleGate::Proceed
    }
}

/// What became of a trade.
#[derive(Clone, Copy, Debug)]
pub enum Outcome {
    /// It was skipped.
    Skipped,
    /// It was skipped, and no further trade is to be looked at.
    Stopped,
    /// It was simulated.
    Simulated,
    /// An order is to be placed.
    Order(CopyPlan),
}

/// What was paid for the position in a market; zero if there is none.
pub open spec fn paid_in(books: Books, market: Seq<char>) -> Double {
    match lookup(books.positions, market) {
        Some(pos) => notional(pos),
        None => fraction(0, 1),
    }
}

/// What is known of a trade of a wallet when it is judged.
pub open spec fn situation(books: Books, memory: Memory, whale: TraderProfile, trade: WhaleTrade) -> Situation {
    Situation {
        price: trade.price,
        side: trade.side,
        win_rate: whale.conservative_win_rate,
        balance: books.balance,
        exposure: exposure_of(memory, trade.condition_id@),
        notional: paid_in(books, trade.condition_id@),
    }
}

/// A copied trade, as it is recorded.
pub open spec fn copied(
    wallet: Seq<char>,
    trade: WhaleTrade,
    plan: CopyPlan,
    simulated: bool,
    at: Timestamp,
) -> Trade {
    Trade {
        timestamp: at,
        whale_address: wallet,
        market: trade.condition_id@,
        side: side_name(plan.side),
        price: plan.market_price,
        outcome: outcome_of(plan.side),
        effective_price: plan.effective_price,
        shares: plan.shares,
        size_usdc: plan.size_usdc,
        kelly_fraction: plan.kelly_fraction,
        simulated,
    }
}

/// The memory after a trade was made.
pub open spec fn after_copy(memory: Memory, trade: WhaleTrade, plan: CopyPlan, at: Timestamp) -> Memory {
    with_exposure(memory, trade.condition_id@, plan.exposure_before.plus(plan.size_usdc), at)
}

/// Records a trade that was made: in the books, and in what was put into its
/// market.
pub fn record_copy(
    state: &mut BotState,
    runtime: &mut TradingRuntime,
    wallet: &str,
    trade: &WhaleTrade,
    plan: &CopyPlan,
    simulated: bool,
    at: Timestamp,
)
    requires
        counters_have_room(old(state)@),
    ensures
        final(state)@ == after_trade(
            old(state)@,
            copied(wallet@, *trade, *plan, simulated, at),
            date_of(at),
        ),
        final(runtime)@ == after_copy(old(runtime)@, *trade, *plan, at),
{
    let record = TradeRecord {
        timestamp: at,
        whale_address: wallet.to_owned(),
        market: trade.condition_id.clone(),
        side: plan.side.name().to_owned(),
        price: plan.market_price,
        outcome: plan.side.outcome().to_owned(),
        effective_price: plan.effective_price,
        shares: plan.shares,
        size_usdc: plan.size_usdc,
        kelly_fraction: plan.kelly_fraction,
        simulated,
    };
    let today = utc_date(&at);
    proof {
        assert(record@ =~= copied(wallet@, *trade, *plan, simulated, at));
    }
    state.record_trade_on(record, today.as_str());
    runtime.set_exposure(
        trade.condition_id.as_str(),
        plan.exposure_before.add(plan.size_usdc),
        at,
    );
}

/// The memory with a trade of a wallet seen.
pub open spec fn having_seen(memory: Memory, wallet: Seq<char>, trade: WhaleTrade) -> Memory {
    with_seen(memory, wallet, with_key(seen_of(memory, wallet), key_text(trade)))
}

/// What becomes of a new trade of a wallet, and of the books and the memory.
pub open spec fn judgement(
    books: Books,
    memory: Memory,
    whale: TraderProfile,
    trade: WhaleTrade,
    config: Config,
    at: Timestamp,
) -> (Outcome, Books, Memory) {
    let seen = having_seen(memory, whale.address@, trade);
    match verdict(situation(books, memory, whale, trade), config) {
        Verdict::Skip(reason) => (
            Outcome::Skipped,
            after_skip(books, reason_text(reason), at),
            seen,
        ),
        Verdict::Stop(reason) => (
            Outcome::Stopped,
            after_skip(books, reason_text(reason), at),
            seen,
        ),
        Verdict::Copy(plan) => if config.dry_run {
            (
                Outcome::Simulated,
                after_trade(books, copied(whale.address@, trade, plan, true, at), date_of(at)),
                after_copy(seen, trade, plan, at),
            )
        } else {
            (Outcome::Order(plan), books, seen)
        },
    }
}

/// Judges a new trade of a wallet. It counts as seen from then on. If it is not
/// worth copying, that is counted; if it is, it is simulated, or an order is to
/// be placed.
pub fn judge_trade(
    state: &mut BotState,
    runtime: &mut TradingRuntime,
    whale: &TraderProfile,
    trade: &WhaleTrade,
    config: &Config,
    at: Timestamp,
) -> (r: Outcome)
    requires
        counters_have_room(old(state)@),
    ensures
        (r, final(state)@, final(runtime)@) == judgement(
            old(state)@,
            old(runtime)@,
            *whale,
            *trade,
            *config,
            at,
        ),
{
    let s = Situation {
        price: trade.price,
        side: trade.side,
        win_rate: whale.conservative_win_rate,
        balance: state.balance_usdc,
        exposure: runtime.exposure(trade.condition_id.as_str()),
        notional: state.market_notional_usdc(trade.condition_id.as_str()),
    };
    runtime.note_trade(whale.address.as_str(), trade_key(trade));
    match evaluate(&s, config) {
        Verdict::Skip(reason) => {
            record_skip_reason(state, reason, at);
            Outcome::Skipped
        },
        Verdict::Stop(reason) => {
            record_skip_reason(state, reason, at);
            Outcome::Stopped
        },
        Verdict::Copy(plan) => {
            if config.dry_run {
                record_copy(state, runtime, whale.address.as_str(), trade, &plan, true, at);
                Outcome::Simulated
            } else {
                Outcome::Order(plan)
            }
        },
    }
}

/// A trade that is not made leaves the balance and every position as they were.
pub proof fn skipped_trade_moves_nothing(books: Books, reason: SkipReason, at: Timestamp)
    ensures
        after_skip(books, reason_text(reason), at).balance == books.balance,
        after_skip(books, reason_text(reason), at).positions == books.positions,
        after_skip(books, reason_text(reason), at).equity == books.equity,
        after_skip(books, reason_text(reason), at).trade_count == books.trade_count,
{
}

/// The texts of several lists, one list after another.
pub open spec fn all_tokens(whales: Seq<TraderProfile>) -> Seq<Seq<char>>
    decreases whales.len(),
{
    if whales.len() == 0 {
        Seq::empty()
    } else {
        all_tokens(whales.drop_last()) + texts(whales.last().active_asset_ids@)
    }
}

/// Adding one list after another adds them together.
proof fn lemma_added_in_turn(keys: Seq<Seq<char>>, a: Seq<Seq<char>>, b: Seq<Seq<char>>)
    ensures
        with_keys(with_keys(keys, a), b) == with_keys(keys, a + b),
    decreases b.len(),
{
    if b.len() > 0 {
        lemma_added_in_turn(keys, a, b.drop_last());
        assert((a + b).drop_last() =~= a + b.drop_last());
        assert((a + b).last() == b.last());
    } else {
        assert(a + b =~= a);
    }
}

/// The tokens that the wallets hold, each once.
pub fn tokens_held(whales: &Vec<TraderProfile>) -> (r: KeySet)
    ensures
        r@ == with_keys(Seq::empty(), all_tokens(whales@)),
{
    let mut set = KeySet::new();
    let mut i: usize = 0;
    proof {
        assert(whales@.take(0) =~= Seq::<TraderProfile>::empty());
    }
    while i < whales.len()
        invariant
            i <= whales.len(),
            set@ == with_keys(Seq::empty(), all_tokens(whales@.take(i as int))),
        decreases whales.len() - i,
    {
        let ids = &whales[i].active_asset_ids;
        let ghost start = set@;
        let mut j: usize = 0;
        proof {
            assert(texts(ids@).take(0) =~= Seq::<Seq<char>>::empty());
        }
        while j < ids.len()
            invariant
                j <= ids.len(),
                set@ == with_keys(start, texts(ids@).take(j as int)),
            decreases ids.len() - j,
        {
            proof {
                let next = texts(ids@).take(j + 1);
                assert(next.drop_last() =~= texts(ids@).take(j as int));
                assert(next.last() == ids@[j as int]@);
            }
            set.insert(ids[j].clone());
            j = j + 1;
        }
        proof {
            let next = whales@.take(i + 1);
            assert(next.drop_last() =~= whales@.take(i as int));
            assert(next.last() == whales@[i as int]);
            assert(texts(ids@).take(j as int) =~= texts(ids@));
            lemma_added_in_turn(Seq::empty(), all_tokens(whales@.take(i as int)), texts(ids@));
        }
        i = i + 1;
    }
    proof {
        assert(whales@.take(i as int) =~= whales@);
    }
    set
}

/// The addresses of the wallets, in their order.
pub open spec fn addresses(whales: Seq<TraderProfile>) -> Seq<Seq<char>> {
    whales.map_values(|w: TraderProfile| w.address@)
}

/// The addresses of the wallets, in their order.
pub fn whale_addresses(whales: &Vec<TraderProfile>) -> (r: Vec<String>)
    ensures
        texts(r@) == addresses(whales@),
{
    let mut out: Vec<String> = Vec::new();
    let mut i: usize = 0;
    while i < whales.len()
        invariant
            i <= whales.len(),
            texts(out@) == addresses(whales@).take(i as int),
        decreases whales.len() - i,
    {
        let ghost before = out@;
        let address = whales[i].address.clone();
        let ghost added = address;
        out.push(address);
        proof {
            assert(texts(before.push(added)) =~= texts(before).push(added@));
            assert(addresses(whales@).take(i + 1) =~= addresses(whales@).take(i as int).push(
                whales@[i as int].address@,
            ));
        }
        i = i + 1;
    }
    proof {
        assert(addresses(whales@).take(i as int) =~= addresses(whales@));
    }
    out
}

/// What is being watched: the wallets when the watch began, and the moment of
/// the last look at them.
#[derive(Debug)]
pub struct Watch {
    pub addresses: Vec<String>,
    pub last_check_at: i64,
}

impl Watch {
    /// Begins to watch wallets; the first update of an order book triggers a look.
    pub fn new(whales: &Vec<TraderProfile>, moment: i64) -> (r: Watch)
        requires
            moment >= 0,
        ensures
            texts(r.addresses@) == addresses(whales@),
            r.last_check_at == moment - DEBOUNCE_NANOS,
            !too_soon(r.last_check_at as int, moment as int),
    {
        Watch { addresses: whale_addresses(whales), last_check_at: moment - DEBOUNCE_NANOS as i64 }
    }

    /// Whether other wallets are followed now, or in another order.
    pub fn outdated(&self, whales: &Vec<TraderProfile>) -> (r: bool)
        ensures
            r == (texts(self.addresses@) != addresses(whales@)),
    {
        whales_changed(&self.addresses, whales)
    }

    /// Whether an update of an order book triggers a look, which is then the
    /// last one: not if it comes too soon after the one before.
    pub fn on_book_update(&mut self, moment: i64) -> (r: bool)
        ensures
            r == !too_soon(old(self).last_check_at as int, moment as int),
            final(self).last_check_at == (if r {
                moment
            } else {
                old(self).last_check_at
            }),
            final(self).addresses == old(self).addresses,
    {
        if debounced(self.last_check_at, moment) {
            false
        } else {
            self.last_check_at = moment;
            true
        }
    }

    /// Notes that the wallets are looked at because it is time.
    pub fn on_poll(&mut self, moment: i64)
        ensures
            final(self).last_check_at == moment,
            final(self).addresses == old(self).addresses,
    {
        self.last_check_at = moment;
    }
}

/// Whether other wallets are followed than those with the given addresses, or
/// in another order.
pub fn whales_changed(before: &Vec<String>, whales: &Vec<TraderProfile>) -> (r: bool)
    ensures
        r == (texts(before@) != addresses(whales@)),
{
    if before.len() != whales.len() {
        proof {
            assert(texts(before@).len() != addresses(whales@).len());
        }
        return true;
    }
    let mut i: usize = 0;
    while i < whales.len()
        invariant
            i <= whales.len() == before.len(),
            forall|k: int| 0 <= k < i ==> #[trigger] texts(before@)[k] == addresses(whales@)[k],
        decreases whales.len() - i,
    {
        if !same(before[i].as_str(), whales[i].address.as_str()) {
            proof {
                assert(texts(before@)[i as int] != addresses(whales@)[i as int]);
            }
            return true;
        }
        i = i + 1;
    }
    proof {
        assert(texts(before@) =~= addresses(whales@));
    }
    false
}

} // verus!
