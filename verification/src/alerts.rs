//! Alerts: when one is raised, what it says, and how its delivery is retried.

use crate::calendar::rfc3339_text;
use crate::clock::{now, rfc3339, whole_seconds, Timestamp};
use crate::config::Config;
use crate::double::Double;
use crate::order::{is_weak_order, rank, ranking, ranking_is_ordered, Ranked};
use crate::persistence::AlertPersistedState;
use crate::state::model::{
    after_alert, at_most_first, count_of, drawdown, largest_notional, tally,
    tally_counts_occurrences, Books,
};
use crate::state::BotState;
use crate::table::{keys, lemma_position, position, Table};
use crate::text::{
    before, characters, decimal, optional_text, precedes, precedes_is_irreflexive,
    precedes_is_total, precedes_is_transitive, push_number, same, slice,
};
use hmac::{Hmac, Mac};
use sha2::Sha256;
use vstd::arithmetic::power2::{lemma2_to64, lemma_pow2_strictly_increases, lemma_pow2_unfold, pow2};
use vstd::prelude::*;
use vstd::string::StringSliceAdditionalSpecFns;

verus! {

/// How many reasons an alert names at most.
pub const SKIP_SPIKE_TOP_REASONS: usize = 5;

/// A reason for which signals are skipped unusually often.
#[derive(Debug)]
pub struct Spike {
    pub reason: String,
    pub count: usize,
}

impl Ranked for Spike {
    /// The greater count first; of equal counts the reason that comes first.
    open spec fn ranks_before(self, other: Spike) -> bool {
        self.count > other.count || (self.count == other.count && precedes(self.reason@, other.reason@))
    }

    fn outranks(&self, other: &Spike) -> (r: bool) {
        self.count > other.count || (self.count == other.count && before(
            self.reason.as_str(),
            other.reason.as_str(),
        ))
    }
}

/// Reasons and counts of a list of spikes.
pub open spec fn spike_pairs(spikes: Seq<Spike>) -> Seq<(Seq<char>, usize)> {
    spikes.map_values(|s: Spike| (s.reason@, s.count))
}

/// The reasons whose count reaches a threshold.
pub open spec fn reaching(counts: Seq<(Seq<char>, usize)>, threshold: usize) -> Seq<(Seq<char>, usize)> {
    counts.filter(|e: (Seq<char>, usize)| e.1 >= threshold)
}

/// Whether spikes are those of a threshold: all reasons that reach it, in rank
/// order, up to a limit.
pub open spec fn are_spikes(
    spikes: Seq<Spike>,
    counts: Seq<(Seq<char>, usize)>,
    threshold: usize,
) -> bool {
    exists|all: Seq<Spike>|
        #[trigger] spike_pairs(all) == reaching(counts, threshold) && spikes == at_most_first(
            ranking(all),
            SKIP_SPIKE_TOP_REASONS as int,
        )
}

/// The reasons whose count reaches the threshold: the most frequent first, and
/// no more than an alert names.
pub fn top_spikes(counts: &Table<usize>, threshold: usize) -> (r: Vec<Spike>)
    ensures
        are_spikes(r@, counts@, threshold),
{
    let mut spikes: Vec<Spike> = Vec::new();
    let mut i: usize = 0;
    let ghost reaches = |e: (Seq<char>, usize)| e.1 >= threshold;
    proof {
        reveal(Seq::filter);
        assert(counts@.take(0).filter(reaches) =~= Seq::empty());
        assert(spike_pairs(spikes@) =~= Seq::empty());
    }
    while i < counts.len()
        invariant
            i <= counts@.len(),
            reaches == (|e: (Seq<char>, usize)| e.1 >= threshold),
            spike_pairs(spikes@) == counts@.take(i as int).filter(reaches),
        decreases counts@.len() - i,
    {
        proof {
            reveal(Seq::filter);
            let next = counts@.take(i + 1);
            assert(next.drop_last() =~= counts@.take(i as int));
            assert(next.last() == counts@[i as int]);
        }
        let count: usize = *counts.value_at(i);
        if count >= threshold {
            let ghost earlier = spikes@;
            let spike = Spike { reason: counts.key_at(i).clone(), count };
            let ghost added = spike;
            spikes.push(spike);
            proof {
                assert(spike_pairs(earlier.push(added)) =~= spike_pairs(earlier).push(
                    (added.reason@, added.count),
                ));
            }
        }
        i = i + 1;
    }
    proof {
        assert(counts@.take(i as int) =~= counts@);
    }
    let ghost all = spikes@;
    rank(&mut spikes);
    let ghost ranked = spikes@;
    spikes.truncate(SKIP_SPIKE_TOP_REASONS);
    proof {
        assert(spikes@ =~= at_most_first(ranked, SKIP_SPIKE_TOP_REASONS as int));
        assert(spike_pairs(all) == reaching(counts@, threshold));
    }
    spikes
}

/// Spikes are ranked: none stands behind one that it ranks before, and there
/// are no more than an alert names.
pub proof fn spikes_are_ranked(
    spikes: Seq<Spike>,
    counts: Seq<(Seq<char>, usize)>,
    threshold: usize,
    i: int,
    j: int,
)
    requires
        are_spikes(spikes, counts, threshold),
        0 <= i < j < spikes.len(),
    ensures
        !spikes[j].ranks_before(spikes[i]),
        spikes.len() <= SKIP_SPIKE_TOP_REASONS,
{
    let all = choose|all: Seq<Spike>|
        #[trigger] spike_pairs(all) == reaching(counts, threshold) && spikes == at_most_first(
            ranking(all),
            SKIP_SPIKE_TOP_REASONS as int,
        );
    lemma_spikes_weakly_ordered();
    ranking_is_ordered(all);
    assert(spikes[i] == ranking(all)[i] && spikes[j] == ranking(all)[j]);
}

/// The ranking of spikes is a weak order.
proof fn lemma_spikes_weakly_ordered()
    ensures
        is_weak_order::<Spike>(),
{
    assert forall|a: Spike| !#[trigger] a.ranks_before(a) by {
        precedes_is_irreflexive(a.reason@);
    }
    assert forall|a: Spike, b: Spike, c: Spike|
        #![trigger a.ranks_before(b), b.ranks_before(c)]
        a.ranks_before(b) && b.ranks_before(c) implies a.ranks_before(c) by {
        if a.count == b.count && b.count == c.count {
            precedes_is_transitive(a.reason@, b.reason@, c.reason@);
        }
    }
    assert forall|a: Spike, b: Spike, c: Spike|
        #![trigger a.ranks_before(b), c.ranks_before(b)]
        #![trigger a.ranks_before(b), a.ranks_before(c)]
        a.ranks_before(b) implies a.ranks_before(c) || c.ranks_before(b) by {
        if a.count == b.count && b.count == c.count {
            if a.reason@ != c.reason@ {
                precedes_is_total(a.reason@, c.reason@);
                if precedes(c.reason@, a.reason@) {
                    precedes_is_transitive(c.reason@, a.reason@, b.reason@);
                }
            }
        }
    }
}

/// The sum of counts.
pub open spec fn sum_counts(counts: Seq<(Seq<char>, usize)>) -> nat
    decreases counts.len(),
{
    if counts.len() == 0 {
        0
    } else {
        sum_counts(counts.drop_last()) + counts.last().1 as nat
    }
}

/// The sum of counts.
pub fn total(counts: &Table<usize>) -> (r: u128)
    ensures
        r == sum_counts(counts@),
{
    let mut sum: u128 = 0;
    let mut i: usize = 0;
    proof {
        assert(counts@.take(0) =~= Seq::<(Seq<char>, usize)>::empty());
    }
    while i < counts.len()
        invariant
            i <= counts@.len(),
            sum == sum_counts(counts@.take(i as int)),
            sum <= i * 0xffff_ffff_ffff_ffff,
        decreases counts@.len() - i,
    {
        proof {
            let next = counts@.take(i + 1);
            assert(next.drop_last() =~= counts@.take(i as int));
            assert(next.last() == counts@[i as int]);
            assert(i * 0xffff_ffff_ffff_ffff + 0xffff_ffff_ffff_ffff <= 0xffff_ffff_ffff_ffff
                * 0xffff_ffff_ffff_ffff) by (nonlinear_arith)
                requires
                    i < 0xffff_ffff_ffff_ffff,
            ;
        }
        sum = sum + *counts.value_at(i) as u128;
        i = i + 1;
    }
    proof {
        assert(counts@.take(i as int) =~= counts@);
    }
    sum
}

/// Changing one count changes the sum by as much.
proof fn lemma_sum_update(counts: Seq<(Seq<char>, usize)>, i: int, entry: (Seq<char>, usize))
    requires
        0 <= i < counts.len(),
    ensures
        sum_counts(counts.update(i, entry)) == sum_counts(counts) - counts[i].1 + entry.1,
    decreases counts.len(),
{
    let changed = counts.update(i, entry);
    if i == counts.len() - 1 {
        assert(changed.drop_last() =~= counts.drop_last());
    } else {
        assert(changed.drop_last() =~= counts.drop_last().update(i, entry));
        lemma_sum_update(counts.drop_last(), i, entry);
    }
}

/// How many signals were skipped from `cutoff` on.
pub open spec fn skips_since(skips: Seq<(Timestamp, Seq<char>)>, cutoff: int) -> nat
    decreases skips.len(),
{
    if skips.len() == 0 {
        0
    } else {
        skips_since(skips.drop_last(), cutoff) + (if skips.last().0@ >= cutoff {
            1nat
        } else {
            0nat
        })
    }
}

/// The counts of a window add up to the number of signals skipped in it.
pub proof fn counts_add_up(skips: Seq<(Timestamp, Seq<char>)>, cutoff: int)
    requires
        skips.len() <= usize::MAX,
    ensures
        sum_counts(tally(skips, cutoff)) == skips_since(skips, cutoff),
    decreases skips.len(),
{
    if skips.len() > 0 {
        let shorter = skips.drop_last();
        let rest = tally(shorter, cutoff);
        let reason = skips.last().1;
        counts_add_up(shorter, cutoff);
        if skips.last().0@ >= cutoff {
            tally_counts_occurrences(shorter, cutoff, reason);
            let count = (count_of(rest, reason) + 1) as usize;
            lemma_position(keys(rest), reason);
            let i = position(keys(rest), reason);
            if i < rest.len() {
                lemma_sum_update(rest, i, (reason, count));
            } else {
                assert(rest.push((reason, count)).drop_last() =~= rest);
            }
        }
    }
}

/// Each risk limit: whether it is reached, where it stands, and the limit.
#[derive(Clone, Copy, Debug)]
pub struct BreakerStates {
    pub drawdown_active: bool,
    pub drawdown_usdc: Double,
    pub daily_loss_limit_usdc: Double,
    pub streak_active: bool,
    pub consecutive_loss_events: usize,
    pub max_consecutive_losses: usize,
    pub notional_active: bool,
    pub max_market_notional_usdc: Double,
    pub max_notional_per_market_usdc: Double,
}

/// Whether risk limits are told as they stand in the books.
pub open spec fn are_breakers(
    b: BreakerStates,
    books: Books,
    loss_limit: Double,
    max_losses: usize,
    max_notional: Double,
) -> bool {
    &&& b.drawdown_usdc == drawdown(books)
    &&& b.daily_loss_limit_usdc == loss_limit
    &&& b.drawdown_active == loss_limit.at_most(drawdown(books))
    &&& b.consecutive_loss_events == books.loss_streak
    &&& b.max_consecutive_losses == max_losses
    &&& b.streak_active == (books.loss_streak >= max_losses)
    &&& b.max_market_notional_usdc == largest_notional(books.positions)
    &&& b.max_notional_per_market_usdc == max_notional
    &&& b.notional_active == max_notional.at_most(largest_notional(books.positions))
}

/// How the risk limits stand.
pub fn breaker_states(
    state: &BotState,
    daily_loss_limit_usdc: Double,
    max_consecutive_losses: usize,
    max_notional_per_market_usdc: Double,
) -> (r: BreakerStates)
    ensures
        are_breakers(
            r,
            state@,
            daily_loss_limit_usdc,
            max_consecutive_losses,
            max_notional_per_market_usdc,
        ),
{
    let drawdown_usdc = state.daily_drawdown_usdc();
    let max_market_notional_usdc = state.max_market_notional_usdc();
    BreakerStates {
        drawdown_active: daily_loss_limit_usdc.le(drawdown_usdc),
        drawdown_usdc,
        daily_loss_limit_usdc,
        streak_active: state.consecutive_loss_events >= max_consecutive_losses,
        consecutive_loss_events: state.consecutive_loss_events,
        max_consecutive_losses,
        notional_active: max_notional_per_market_usdc.le(max_market_notional_usdc),
        max_market_notional_usdc,
        max_notional_per_market_usdc,
    }
}

/// The text of a truth value.
pub open spec fn truth_text(b: bool) -> Seq<char> {
    if b {
        "true"@
    } else {
        "false"@
    }
}

fn push_truth(out: &mut String, b: bool)
    ensures
        final(out)@ == old(out)@ + truth_text(b),
{
    if b {
        out.append("true");
    } else {
        out.append("false");
    }
}

/// The text by which a change of the risk limits is noticed.
pub open spec fn breaker_text(b: BreakerStates) -> Seq<char> {
    "drawdown:"@ + truth_text(b.drawdown_active) + "|streak:"@ + truth_text(b.streak_active) + "|notional:"@
        + truth_text(b.notional_active)
}

/// The text by which a change of the risk limits is noticed.
pub fn breaker_signature(b: &BreakerStates) -> (r: String)
    ensures
        r@ == breaker_text(*b),
{
    let mut out = "drawdown:".to_owned();
    push_truth(&mut out, b.drawdown_active);
    out.append("|streak:");
    push_truth(&mut out, b.streak_active);
    out.append("|notional:");
    push_truth(&mut out, b.notional_active);
    out
}

/// The text by which a change of the spikes is noticed: each reason with its
/// count, separated by bars.
pub open spec fn spike_text(spikes: Seq<(Seq<char>, usize)>) -> Seq<char>
    decreases spikes.len(),
{
    if spikes.len() == 0 {
        Seq::empty()
    } else {
        let last = spikes.last().0 + ":"@ + decimal(spikes.last().1 as nat);
        if spikes.len() == 1 {
            last
        } else {
            spike_text(spikes.drop_last()) + "|"@ + last
        }
    }
}

/// The text by which a change of the spikes is noticed.
pub fn spike_signature(spikes: &Vec<Spike>) -> (r: String)
    ensures
        r@ == spike_text(spike_pairs(spikes@)),
{
    let mut out = String::new();
    let mut i: usize = 0;
    proof {
        assert(spike_pairs(spikes@).take(0) =~= Seq::<(Seq<char>, usize)>::empty());
        assert(out@ =~= Seq::<char>::empty());
    }
    while i < spikes.len()
        invariant
            i <= spikes.len(),
            out@ == spike_text(spike_pairs(spikes@).take(i as int)),
        decreases spikes.len() - i,
    {
        let ghost start = out@;
        proof {
            let next = spike_pairs(spikes@).take(i + 1);
            assert(next.drop_last() =~= spike_pairs(spikes@).take(i as int));
            assert(next.last() == (spikes@[i as int].reason@, spikes@[i as int].count));
        }
        if i > 0 {
            out.append("|");
        }
        out.append(spikes[i].reason.as_str());
        out.append(":");
        push_number(&mut out, spikes[i].count as u64);
        proof {
            let last = spikes@[i as int].reason@ + ":"@ + decimal(spikes@[i as int].count as nat);
            if i > 0 {
                assert(out@ =~= start + "|"@ + last);
            } else {
                assert(out@ =~= last);
            }
        }
        i = i + 1;
    }
    proof {
        assert(spike_pairs(spikes@).take(i as int) =~= spike_pairs(spikes@));
    }
    out
}

/// What alerting remembers.
#[verifier::ext_equal]
pub struct AlertMemory {
    pub signature: Seq<char>,
    pub sent_at: Option<Timestamp>,
    pub breaker_signature: Seq<char>,
}

/// What alerting remembers.
pub open spec fn alert_memory(s: AlertPersistedState) -> AlertMemory {
    AlertMemory {
        signature: s.last_signature@,
        sent_at: s.last_sent_at,
        breaker_signature: s.last_breaker_signature@,
    }
}

/// Whether the last alert lies the given number of seconds back, or there was
/// none.
pub open spec fn cooled_down(sent_at: Option<Timestamp>, cooldown_secs: u64, at: Timestamp) -> bool {
    match sent_at {
        Some(t) => whole_seconds(at@ - t@) >= cooldown_secs,
        None => true,
    }
}

/// Whether the risk limits changed since they were last told.
pub fn breaker_changed(memory: &AlertPersistedState, signature: &str) -> (r: bool)
    ensures
        r == (alert_memory(*memory).breaker_signature != signature@),
{
    !same(memory.last_breaker_signature.as_str(), signature)
}

/// Whether spikes are to be told: there are any, and they changed or were last
/// told long enough ago.
pub open spec fn spikes_due(
    memory: AlertMemory,
    spikes: Seq<(Seq<char>, usize)>,
    cooldown_secs: u64,
    at: Timestamp,
) -> bool {
    spikes.len() > 0 && (spike_text(spikes) != memory.signature || cooled_down(
        memory.sent_at,
        cooldown_secs,
        at,
    ))
}

/// Decides whether spikes are to be told.
pub fn spike_alert_due(
    memory: &AlertPersistedState,
    spikes: &Vec<Spike>,
    cooldown_secs: u64,
    at: Timestamp,
) -> (r: bool)
    ensures
        r == spikes_due(alert_memory(*memory), spike_pairs(spikes@), cooldown_secs, at),
{
    if spikes.len() == 0 {
        return false;
    }
    let signature = spike_signature(spikes);
    let elapsed = match &memory.last_sent_at {
        Some(t) => at.seconds_since(t) as i128 >= cooldown_secs as i128,
        None => true,
    };
    !same(signature.as_str(), memory.last_signature.as_str()) || elapsed
}

/// Notes that a change of the risk limits was told.
pub fn breaker_alert_delivered(
    state: &mut BotState,
    memory: &mut AlertPersistedState,
    signature: &str,
    at: Timestamp,
)
    requires
        old(state).alert_success_count < usize::MAX,
        old(state).alert_failure_count < usize::MAX,
    ensures
        final(state)@ == after_alert(old(state)@, true, None, at),
        alert_memory(*final(memory)) == (AlertMemory {
            breaker_signature: signature@,
            ..alert_memory(*old(memory))
        }),
{
    state.record_alert_result_at(true, None, at);
    memory.last_breaker_signature = signature.to_owned();
}

/// Notes that spikes were told.
pub fn spike_alert_delivered(
    state: &mut BotState,
    memory: &mut AlertPersistedState,
    spikes: &Vec<Spike>,
    at: Timestamp,
)
    requires
        old(state).alert_success_count < usize::MAX,
        old(state).alert_failure_count < usize::MAX,
    ensures
        final(state)@ == after_alert(old(state)@, true, None, at),
        alert_memory(*final(memory)) == (AlertMemory {
            signature: spike_text(spike_pairs(spikes@)),
            sent_at: Some(at),
            ..alert_memory(*old(memory))
        }),
{
    state.record_alert_result_at(true, None, at);
    memory.last_signature = spike_signature(spikes);
    memory.last_sent_at = Some(at);
}

/// Spikes that were told are not told again, while they stay the same, until
/// the given number of seconds has passed.
pub proof fn told_spikes_are_not_repeated(
    memory: AlertMemory,
    spikes: Seq<(Seq<char>, usize)>,
    cooldown_secs: u64,
    told_at: Timestamp,
    at: Timestamp,
)
    requires
        memory.signature == spike_text(spikes),
        memory.sent_at == Some(told_at),
        whole_seconds(at@ - told_at@) < cooldown_secs,
    ensures
        !spikes_due(memory, spikes, cooldown_secs, at),
{
}

/// What an evaluation of alerts is waiting for.
#[derive(Clone, Copy, Debug, PartialEq, Eq, Structural)]
pub enum AlertPhase {
    /// The next evaluation.
    Idle,
    /// Whether a change of the risk limits was delivered.
    TellingBreakers,
    /// The decision about spikes.
    Deciding,
    /// Whether spikes were delivered.
    TellingSpikes,
}

/// What is to be done next about alerts.
#[derive(Clone, Copy, Debug, PartialEq, Eq, Structural)]
pub enum AlertAction {
    /// Deliver the change of the risk limits.
    SendBreakers,
    /// Store what is remembered, if it changed, and decide about spikes.
    Decide { save: bool },
    /// Deliver the spikes.
    SendSpikes,
    /// Store what is remembered, if it changed, and wait for the next evaluation.
    Wait { save: bool },
}

/// The evaluation of alerts.
#[derive(Debug)]
pub struct AlertWorker {
    pub phase: AlertPhase,
    /// What is remembered.
    pub memory: AlertPersistedState,
    /// How the risk limits stood at the last evaluation.
    pub breakers: BreakerStates,
    /// The spikes at the last evaluation.
    pub spikes: Vec<Spike>,
    /// Signals skipped in the hour before the last evaluation.
    pub total_skips_1h: u128,
    /// Signals skipped in the day before the last evaluation.
    pub total_skips_24h: u128,
}

/// The counts of the signals skipped in the seconds up to a point in time.
pub open spec fn window_counts(books: Books, at: Timestamp, secs: int) -> Seq<(Seq<char>, usize)> {
    tally(books.recent_skips, at@ - secs * 1_000_000_000)
}

/// The signals skipped in the hour up to a point in time, by reason.
pub open spec fn hour_counts(books: Books, at: Timestamp) -> Seq<(Seq<char>, usize)> {
    window_counts(books, at, 3600)
}

/// The signals skipped in the day up to a point in time, by reason.
pub open spec fn day_counts(books: Books, at: Timestamp) -> Seq<(Seq<char>, usize)> {
    window_counts(books, at, 86_400)
}

/// What follows from an evaluation, given how the risk limits stand.
pub open spec fn after_evaluation(memory: AlertMemory, b: BreakerStates) -> (AlertPhase, AlertAction) {
    if memory.breaker_signature != breaker_text(b) {
        (AlertPhase::TellingBreakers, AlertAction::SendBreakers)
    } else {
        (AlertPhase::Deciding, AlertAction::Decide { save: false })
    }
}

/// What is remembered after the risk limits were told, or were not.
pub open spec fn limits_told(memory: AlertMemory, b: BreakerStates, delivered: bool) -> AlertMemory {
    if delivered {
        AlertMemory { breaker_signature: breaker_text(b), ..memory }
    } else {
        memory
    }
}

/// What follows from the decision about spikes.
pub open spec fn after_decision(
    memory: AlertMemory,
    spikes: Seq<(Seq<char>, usize)>,
    cooldown_secs: u64,
    at: Timestamp,
) -> (AlertPhase, AlertAction) {
    if spikes_due(memory, spikes, cooldown_secs, at) {
        (AlertPhase::TellingSpikes, AlertAction::SendSpikes)
    } else {
        (AlertPhase::Idle, AlertAction::Wait { save: false })
    }
}

/// What is remembered after spikes were told, or were not.
pub open spec fn spikes_remembered(
    memory: AlertMemory,
    spikes: Seq<(Seq<char>, usize)>,
    delivered: bool,
    at: Timestamp,
) -> AlertMemory {
    if delivered {
        AlertMemory { signature: spike_text(spikes), sent_at: Some(at), ..memory }
    } else {
        memory
    }
}

impl AlertWorker {
    /// Nothing evaluated yet, with what is remembered.
    pub fn new(memory: AlertPersistedState, state: &BotState, config: &Config) -> (r: AlertWorker)
        ensures
            r.phase == AlertPhase::Idle,
            r.memory == memory,
            r.spikes@ == Seq::<Spike>::empty(),
            r.total_skips_1h == 0,
            r.total_skips_24h == 0,
            are_breakers(
                r.breakers,
                state@,
                config.daily_loss_limit_usdc,
                config.max_consecutive_losses,
                config.max_notional_per_market_usdc,
            ),
    {
        AlertWorker {
            phase: AlertPhase::Idle,
            memory,
            breakers: breaker_states(
                state,
                config.daily_loss_limit_usdc,
                config.max_consecutive_losses,
                config.max_notional_per_market_usdc,
            ),
            spikes: Vec::new(),
            total_skips_1h: 0,
            total_skips_24h: 0,
        }
    }

    /// Evaluates the books: the spikes of the last hour, and how the risk limits
    /// stand. If the latter changed since they were last told, they are to be
    /// told.
    pub fn tick(&mut self, state: &BotState, config: &Config, at: Timestamp) -> (r: AlertAction)
        requires
            at@ >= 0,
        ensures
            are_spikes(
                final(self).spikes@,
                hour_counts(state@, at),
                config.skip_alert_1h_threshold,
            ),
            final(self).total_skips_1h == sum_counts(hour_counts(state@, at)),
            final(self).total_skips_24h == sum_counts(day_counts(state@, at)),
            are_breakers(
                final(self).breakers,
                state@,
                config.daily_loss_limit_usdc,
                config.max_consecutive_losses,
                config.max_notional_per_market_usdc,
            ),
            final(self).memory == old(self).memory,
            (final(self).phase, r) == after_evaluation(
                alert_memory(old(self).memory),
                final(self).breakers,
            ),
    {
        proof {
            vstd::arithmetic::div_mod::lemma_div_pos_is_pos(at@, 1_000_000_000);
        }
        let hour = state.skip_reasons_in_window(at, 3600);
        let day = state.skip_reasons_in_window(at, 86_400);
        self.spikes = top_spikes(&hour, config.skip_alert_1h_threshold);
        self.total_skips_1h = total(&hour);
        self.total_skips_24h = total(&day);
        self.breakers = breaker_states(
            state,
            config.daily_loss_limit_usdc,
            config.max_consecutive_losses,
            config.max_notional_per_market_usdc,
        );
        let signature = breaker_signature(&self.breakers);
        if breaker_changed(&self.memory, signature.as_str()) {
            self.phase = AlertPhase::TellingBreakers;
            AlertAction::SendBreakers
        } else {
            self.phase = AlertPhase::Deciding;
            AlertAction::Decide { save: false }
        }
    }

    /// Notes whether the change of the risk limits was delivered. If not, it is
    /// told again at the next evaluation.
    pub fn breakers_told(&mut self, state: &mut BotState, delivered: bool, at: Timestamp) -> (r: AlertAction)
        requires
            old(state).alert_success_count < usize::MAX,
            old(state).alert_failure_count < usize::MAX,
        ensures
            final(self).phase == AlertPhase::Deciding,
            r == (AlertAction::Decide { save: delivered }),
            final(self).spikes == old(self).spikes,
            final(self).breakers == old(self).breakers,
            final(self).total_skips_1h == old(self).total_skips_1h,
            final(self).total_skips_24h == old(self).total_skips_24h,
            final(state)@ == (if delivered {
                after_alert(old(state)@, true, None, at)
            } else {
                old(state)@
            }),
            alert_memory(final(self).memory) == limits_told(
                alert_memory(old(self).memory),
                old(self).breakers,
                delivered,
            ),
    {
        if delivered {
            let signature = breaker_signature(&self.breakers);
            breaker_alert_delivered(state, &mut self.memory, signature.as_str(), at);
        }
        self.phase = AlertPhase::Deciding;
        AlertAction::Decide { save: delivered }
    }

    /// Decides whether the spikes are to be told.
    pub fn decide(&mut self, config: &Config, at: Timestamp) -> (r: AlertAction)
        ensures
            (final(self).phase, r) == after_decision(
                alert_memory(old(self).memory),
                spike_pairs(old(self).spikes@),
                config.skip_alert_cooldown_secs,
                at,
            ),
            final(self).memory == old(self).memory,
            final(self).spikes == old(self).spikes,
            final(self).breakers == old(self).breakers,
            final(self).total_skips_1h == old(self).total_skips_1h,
            final(self).total_skips_24h == old(self).total_skips_24h,
    {
        if spike_alert_due(&self.memory, &self.spikes, config.skip_alert_cooldown_secs, at) {
            self.phase = AlertPhase::TellingSpikes;
            AlertAction::SendSpikes
        } else {
            self.phase = AlertPhase::Idle;
            AlertAction::Wait { save: false }
        }
    }

    /// Notes that the spikes were delivered, or why not.
    pub fn spikes_told(
        &mut self,
        state: &mut BotState,
        failure: Option<String>,
        at: Timestamp,
    ) -> (r: AlertAction)
        requires
            old(state).alert_success_count < usize::MAX,
            old(state).alert_failure_count < usize::MAX,
        ensures
            final(self).phase == AlertPhase::Idle,
            r == (AlertAction::Wait { save: failure is None }),
            final(self).spikes == old(self).spikes,
            final(self).breakers == old(self).breakers,
            final(self).total_skips_1h == old(self).total_skips_1h,
            final(self).total_skips_24h == old(self).total_skips_24h,
            final(state)@ == after_alert(
                old(state)@,
                failure is None,
                optional_text(failure),
                at,
            ),
            alert_memory(final(self).memory) == spikes_remembered(
                alert_memory(old(self).memory),
                spike_pairs(old(self).spikes@),
                failure is None,
                at,
            ),
    {
        self.phase = AlertPhase::Idle;
        match failure {
            None => {
                spike_alert_delivered(state, &mut self.memory, &self.spikes, at);
                AlertAction::Wait { save: true }
            },
            Some(error) => {
                state.record_alert_result_at(false, Some(error), at);
                AlertAction::Wait { save: false }
            },
        }
    }
}

/// The time of an alert, in the notation of RFC 3339.
pub fn alert_time(at: Timestamp) -> (r: String)
    ensures
        r@ == rfc3339_text(at@),
{
    rfc3339(&at)
}

/// The lesser of a number and the greatest that a `u64` holds.
pub open spec fn saturated(n: int) -> int {
    if n > u64::MAX {
        u64::MAX as int
    } else {
        n
    }
}

/// The exponent of the backoff after a number of tries.
pub open spec fn backoff_exponent(attempt: usize) -> nat {
    if attempt < 12 {
        attempt as nat
    } else {
        12
    }
}

/// How many milliseconds to wait after a try, given the milliseconds of the
/// present second: twice as long each time, up to a limit, and a little more.
pub open spec fn backoff(base_ms: u64, attempt: usize, millis: u64) -> int {
    saturated(
        saturated(base_ms * pow2(backoff_exponent(attempt))) + (millis as int) % (if base_ms > 1 {
            base_ms as int
        } else {
            1int
        }),
    )
}

/// How many milliseconds to wait after a try, given the milliseconds of the
/// present second.
pub fn retry_delay_with(base_ms: u64, attempt: usize, millis: u64) -> (r: u64)
    ensures
        r == backoff(base_ms, attempt, millis),
{
    let mut factor: u64 = 1;
    let mut k: usize = 0;
    proof {
        lemma2_to64();
    }
    while k < attempt && k < 12
        invariant
            k <= 12,
            k <= attempt,
            factor == pow2(k as nat),
            pow2(12) == 4096,
            factor <= 4096,
        decreases 12 - k,
    {
        proof {
            lemma_pow2_unfold((k + 1) as nat);
            if k + 1 < 12 {
                lemma_pow2_strictly_increases((k + 1) as nat, 12);
            }
        }
        factor = factor * 2;
        k = k + 1;
    }
    let spread: u64 = if base_ms > 1 {
        base_ms
    } else {
        1
    };
    let jitter: u64 = millis % spread;
    proof {
        assert(base_ms * factor <= 0xffff_ffff_ffff_ffff * 4096) by (nonlinear_arith)
            requires
                base_ms <= 0xffff_ffff_ffff_ffff,
                0 <= factor <= 4096,
        ;
        assert(base_ms * factor >= 0) by (nonlinear_arith)
            requires
                base_ms >= 0,
                factor >= 0,
        ;
    }
    let product: u128 = base_ms as u128 * factor as u128;
    let scaled: u64 = if product > u64::MAX as u128 {
        u64::MAX
    } else {
        product as u64
    };
    scaled.saturating_add(jitter)
}

/// How many milliseconds to wait after a try. The little more is taken from the
/// clock.
pub fn retry_delay_ms(base_ms: u64, attempt: usize) -> (r: u64)
    ensures
        exists|millis: u64| millis < 1000 && r == #[trigger] backoff(base_ms, attempt, millis),
{
    let at = now();
    let millis: u64 = at.nanos() as u64 / 1_000_000;
    retry_delay_with(base_ms, attempt, millis)
}

/// A delay is never shorter than the base delay, and the delay before any
/// jitter never shrinks from one try to the next.
pub proof fn backoff_grows(base_ms: u64, attempt: usize, millis: u64)
    requires
        attempt < usize::MAX,
    ensures
        base_ms <= backoff(base_ms, attempt, millis) <= u64::MAX,
        backoff(base_ms, attempt, 0) <= backoff(base_ms, (attempt + 1) as usize, 0),
{
    let a = backoff_exponent(attempt);
    let b = backoff_exponent((attempt + 1) as usize);
    lemma2_to64();
    if a < b {
        lemma_pow2_strictly_increases(a, b);
    }
    if a > 0 {
        lemma_pow2_strictly_increases(0, a);
    }
    let (x, y) = (pow2(a), pow2(b));
    assert(base_ms <= base_ms * x <= base_ms * y) by (nonlinear_arith)
        requires
            1 <= x <= y,
            base_ms >= 0,
    ;
    let spread: int = if base_ms > 1 {
        base_ms as int
    } else {
        1
    };
    vstd::arithmetic::div_mod::lemma_mod_bound(millis as int, spread);
    vstd::arithmetic::div_mod::lemma_small_mod(0, spread as nat);
}

/// What came of a try to deliver.
#[derive(Debug)]
pub enum Delivery {
    /// It was accepted.
    Accepted,
    /// It was answered with another status and the given body.
    Refused { status: String, body: String },
    /// It was answered with another status, and the body could not be read.
    Unread { status: String, error: String },
    /// It was not answered.
    Failed { error: String },
}

/// What is to be done after a try to deliver.
#[derive(Debug)]
pub enum RetryStep {
    /// Nothing: it was delivered.
    Delivered,
    /// Try again after the backoff of the try.
    TryAgain,
    /// Give up, with the last error.
    GiveUp(String),
}

/// The first `max_chars` characters, followed by dots if there are more.
pub open spec fn abbreviated(text: Seq<char>, max_chars: int) -> Seq<char> {
    if text.len() > max_chars {
        text.take(max_chars) + "..."@
    } else {
        text
    }
}

/// The first `max_chars` characters, followed by dots if there are more.
pub fn truncate_for_log(s: &str, max_chars: usize) -> (r: String)
    ensures
        r@ == abbreviated(s@, max_chars as int),
{
    let chars = characters(s);
    if chars.len() > max_chars {
        let mut out = slice(&chars, 0, max_chars);
        out.append("...");
        proof {
            assert(out@ =~= s@.take(max_chars as int) + "..."@);
        }
        out
    } else {
        s.to_owned()
    }
}

/// Why a try to deliver failed; empty if it did not.
pub open spec fn failure_text(d: Delivery) -> Seq<char> {
    match d {
        Delivery::Accepted => Seq::empty(),
        Delivery::Refused { status, body } => "status="@ + status@ + " body="@ + abbreviated(body@, 400),
        Delivery::Unread { status, error } => "status="@ + status@ + " body=<failed reading response body: "@
            + error@ + ">"@,
        Delivery::Failed { error } => error@,
    }
}

/// Decides what is to be done after the try with the given number, counted from
/// zero.
pub fn after_attempt(outcome: &Delivery, attempt: usize, max_retries: usize) -> (r: RetryStep)
    ensures
        match r {
            RetryStep::Delivered => outcome is Accepted,
            RetryStep::TryAgain => !(outcome is Accepted) && attempt < max_retries,
            RetryStep::GiveUp(error) => !(outcome is Accepted) && attempt >= max_retries && error@
                == failure_text(*outcome),
        },
{
    let error = match outcome {
        Delivery::Accepted => {
            return RetryStep::Delivered;
        },
        Delivery::Refused { status, body } => {
            let mut out = "status=".to_owned();
            out.append(status.as_str());
            out.append(" body=");
            out.append(truncate_for_log(body.as_str(), 400).as_str());
            out
        },
        Delivery::Unread { status, error } => {
            let mut out = "status=".to_owned();
            out.append(status.as_str());
            out.append(" body=<failed reading response body: ");
            out.append(error.as_str());
            out.append(">");
            out
        },
        Delivery::Failed { error } => error.clone(),
    };
    if attempt < max_retries {
        RetryStep::TryAgain
    } else {
        RetryStep::GiveUp(error)
    }
}

/// The delivery of an alert, try by try.
#[derive(Clone, Copy, Debug)]
pub struct Delivering {
    /// The number of the present try, counted from zero.
    pub attempt: usize,
    /// How often delivery is tried again.
    pub max_retries: usize,
}

impl Delivering {
    /// The first try.
    pub fn new(max_retries: usize) -> (r: Delivering)
        ensures
            r.attempt == 0,
            r.max_retries == max_retries,
    {
        Delivering { attempt: 0, max_retries }
    }

    /// Takes what came of the present try, and decides what is to be done. There
    /// are never more tries than allowed.
    pub fn tried(&mut self, outcome: &Delivery) -> (r: RetryStep)
        requires
            old(self).attempt <= old(self).max_retries,
        ensures
            final(self).max_retries == old(self).max_retries,
            final(self).attempt <= final(self).max_retries,
            match r {
                RetryStep::Delivered => outcome is Accepted && final(self).attempt == old(self).attempt,
                RetryStep::TryAgain => !(outcome is Accepted) && final(self).attempt == old(self).attempt + 1,
                RetryStep::GiveUp(error) => !(outcome is Accepted) && final(self).attempt == old(
                    self,
                ).max_retries == old(self).attempt && error@ == failure_text(*outcome),
            },
            old(self).attempt < old(self).max_retries ==> !(r is GiveUp),
    {
        let step = after_attempt(outcome, self.attempt, self.max_retries);
        if let RetryStep::TryAgain = step {
            self.attempt = self.attempt + 1;
        }
        step
    }
}

/// The keyed hash of a message by HMAC with SHA-256, as the crates `hmac` and
/// `sha2` compute it.
pub uninterp spec fn hmac_sha256_code(key: Seq<u8>, message: Seq<u8>) -> Seq<u8>;

/// Calls `Hmac::<Sha256>::new_from_slice`, `update` and `finalize` of the crate
/// `hmac`. A key of any length is accepted. The code depends on nothing but the
/// key and the message, and is 32 bytes long; what bytes they are is not stated.
#[verifier::external_body]
pub(crate) fn hmac_sha256(key: &[u8], message: &[u8]) -> (r: Vec<u8>)
    ensures
        r@ == hmac_sha256_code(key@, message@),
        r@.len() == 32,
{
    let mut mac = Hmac::<Sha256>::new_from_slice(key).unwrap();
    mac.update(message);
    mac.finalize().into_bytes().to_vec()
}

/// The character of a hexadecimal digit, in lower case.
pub open spec fn hex_digit(d: int) -> char {
    if d < 10 {
        ('0' as int + d) as char
    } else {
        ('a' as int + d - 10) as char
    }
}

/// Bytes in hexadecimal notation: two digits each, the higher one first.
pub open spec fn hex_text(bytes: Seq<u8>) -> Seq<char> {
    Seq::new(
        2 * bytes.len(),
        |i: int|
            if i % 2 == 0 {
                hex_digit(bytes[i / 2] as int / 16)
            } else {
                hex_digit(bytes[i / 2] as int % 16)
            },
    )
}

/// Calls `hex::encode` of the crate `hex`, which writes each byte as two
/// hexadecimal digits in lower case.
#[verifier::external_body]
pub(crate) fn hex_encode(bytes: &Vec<u8>) -> (r: String)
    ensures
        r@ == hex_text(bytes@),
{
    hex::encode(bytes)
}

/// The signature of a message under a secret: its keyed hash in hexadecimal
/// notation.
pub fn sign_hmac(secret: &str, payload: &Vec<u8>) -> (r: String)
    ensures
        r@ == hex_text(hmac_sha256_code(secret.spec_bytes(), payload@)),
        r@.len() == 64,
{
    let code = hmac_sha256(secret.as_bytes(), payload.as_slice());
    hex_encode(&code)
}

} // verus!
