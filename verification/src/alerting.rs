//! When an alert is raised, and what it says.

use crate::alerts::{
    abbreviated, after_decision, after_evaluation, are_breakers, are_spikes, backoff,
    backoff_exponent, breaker_text, day_counts, failure_text, hex_digit, hex_text, hour_counts,
    limits_told, reaching, spike_pairs, spike_text, spikes_are_ranked, spikes_due,
    spikes_remembered, truth_text, window_counts, AlertAction, AlertMemory, AlertPhase,
    BreakerStates, Delivery, Spike,
};
use crate::clock::Timestamp;
use crate::config::Config;
use crate::double::accuracy::lemma_difference;
use crate::double::laws::{lemma_positive, lemma_zero};
use crate::double::{fraction, Double};
use crate::order::{lemma_ranking_len, ranking, ranking_rearranges};
use crate::state::model::{
    after_skip, at_most_first, count_of, largest_notional, largest_notional_bounds_each,
    lemma_front_occurrence, notional, tally_counts_occurrences, Books,
};
use crate::state::MarketPosition;
use crate::text::{decimal, decimals_differ, precedes, signed_decimal};
use crate::trading::cycle_block;
use vstd::arithmetic::power2::{lemma2_to64, lemma_pow2_pos, lemma_pow2_unfold, pow2};
use vstd::prelude::*;

verus! {

/// The greatest amount paid is paid somewhere, or it is zero.
proof fn lemma_largest_is_paid(positions: Seq<(Seq<char>, MarketPosition)>)
    ensures
        largest_notional(positions) == fraction(0, 1) || exists|i: int|
            0 <= i < positions.len() && largest_notional(positions) == notional((#[trigger] positions[i]).1),
    decreases positions.len(),
{
    if positions.len() > 0 {
        let rest = positions.drop_last();
        lemma_largest_is_paid(rest);
        if largest_notional(positions) == notional(positions.last().1) {
            assert(positions[positions.len() - 1] == positions.last());
        } else if largest_notional(rest) != fraction(0, 1) {
            let i = choose|i: int|
                0 <= i < rest.len() && largest_notional(rest) == notional((#[trigger] rest[i]).1);
            assert(positions[i] == rest[i]);
        }
    }
}

/// The limits are told as the books stand: that of the day exactly if the equity lies
/// the limit or more below the start of the day, that of losses if there were as many
/// in a row, and that of a market if as much was paid in any one, on both its sides.
pub proof fn limits_are_told_as_they_stand(
    b: BreakerStates,
    books: Books,
    loss_limit: Double,
    max_losses: usize,
    max_notional: Double,
)
    requires
        are_breakers(b, books, loss_limit, max_losses, max_notional),
        books.day_start_equity.finite(),
        books.equity.finite(),
        fraction(0, 1).below(loss_limit),
        fraction(0, 1).below(max_notional),
        forall|i: int|
            0 <= i < books.positions.len() ==> !(#[trigger] notional(books.positions[i].1)).not_a_number(),
    ensures
        b.drawdown_active <==> loss_limit.at_most(books.day_start_equity.minus(books.equity)),
        b.streak_active <==> books.loss_streak >= max_losses,
        b.notional_active <==> exists|i: int|
            0 <= i < books.positions.len() && max_notional.at_most(
                (#[trigger] books.positions[i]).1.yes_cost_usdc.plus(books.positions[i].1.no_cost_usdc),
            ),
        b.consecutive_loss_events == books.loss_streak,
        b.daily_loss_limit_usdc == loss_limit,
        b.max_consecutive_losses == max_losses,
        b.max_notional_per_market_usdc == max_notional,
{
    lemma_zero();
    lemma_positive(loss_limit);
    lemma_positive(max_notional);
    lemma_difference(books.day_start_equity, books.equity);
    lemma_largest_is_paid(books.positions);
    if b.notional_active {
        let i = choose|i: int|
            0 <= i < books.positions.len() && largest_notional(books.positions) == notional(
                (#[trigger] books.positions[i]).1,
            );
        assert(max_notional.at_most(notional(books.positions[i].1)));
    }
    if exists|i: int|
        0 <= i < books.positions.len() && max_notional.at_most(
            (#[trigger] books.positions[i]).1.yes_cost_usdc.plus(books.positions[i].1.no_cost_usdc),
        ) {
        let i = choose|i: int|
            0 <= i < books.positions.len() && max_notional.at_most(
                (#[trigger] books.positions[i]).1.yes_cost_usdc.plus(books.positions[i].1.no_cost_usdc),
            );
        assert(max_notional.at_most(notional(books.positions[i].1)));
        largest_notional_bounds_each(books.positions, i);
    }
}

/// While the limit of the day or of losses is told as reached, no trade is made.
pub proof fn told_limit_stops_trading(b: BreakerStates, books: Books, config: Config)
    requires
        are_breakers(
            b,
            books,
            config.daily_loss_limit_usdc,
            config.max_consecutive_losses,
            config.max_notional_per_market_usdc,
        ),
        b.drawdown_active || b.streak_active,
    ensures
        cycle_block(books, config) is Some,
{
}

/// Any change of a limit is noticed: limits with the same text stand the same.
pub proof fn change_of_a_limit_is_noticed(a: BreakerStates, b: BreakerStates)
    requires
        breaker_text(a) == breaker_text(b),
    ensures
        a.drawdown_active == b.drawdown_active,
        a.streak_active == b.streak_active,
        a.notional_active == b.notional_active,
{
    reveal_strlit("drawdown:");
    reveal_strlit("|streak:");
    reveal_strlit("|notional:");
    reveal_strlit("true");
    reveal_strlit("false");
    let (x, y) = (breaker_text(a), breaker_text(b));
    assert(x[9] == truth_text(a.drawdown_active)[0]);
    assert(y[9] == truth_text(b.drawdown_active)[0]);
    let n = 9 + truth_text(a.drawdown_active).len() + 8;
    assert(x[n as int] == truth_text(a.streak_active)[0]);
    assert(y[n as int] == truth_text(b.streak_active)[0]);
    let m = n + truth_text(a.streak_active).len() + 10;
    assert(x[m as int] == truth_text(a.notional_active)[0]);
    assert(y[m as int] == truth_text(b.notional_active)[0]);
}

/// Every spike is a reason that was counted at least as often as the threshold. They
/// come with the most frequent first, and in the order of their names where they are
/// equally frequent, and are at most five. A reason that reaches the threshold is left
/// out only where there are five.
pub proof fn frequent_reasons_are_told(
    spikes: Seq<Spike>,
    counts: Seq<(Seq<char>, usize)>,
    threshold: usize,
    i: int,
    j: int,
    k: int,
)
    requires
        are_spikes(spikes, counts, threshold),
        0 <= i < spikes.len(),
        0 <= k < counts.len(),
    ensures
        spikes.len() <= 5,
        counts.contains((spikes[i].reason@, spikes[i].count)),
        spikes[i].count >= threshold,
        i < j < spikes.len() ==> {
            &&& spikes[i].count >= spikes[j].count
            &&& spikes[i].count == spikes[j].count ==> !precedes(spikes[j].reason@, spikes[i].reason@)
        },
        counts[k].1 >= threshold && spikes.len() < 5 ==> spike_pairs(spikes).contains(counts[k]),
{
    let all = choose|all: Seq<Spike>|
        #[trigger] spike_pairs(all) == reaching(counts, threshold) && spikes == at_most_first(ranking(all), 5);
    let keep = |e: (Seq<char>, usize)| e.1 >= threshold;
    lemma_ranking_len(all);
    ranking_rearranges(all);
    assert(spikes[i] == ranking(all)[i]);
    lemma_same_items(ranking(all), all, spikes[i]);
    let n = all.index_of(spikes[i]);
    assert(spike_pairs(all)[n] == (spikes[i].reason@, spikes[i].count));
    assert(counts.filter(keep)[n] == (spikes[i].reason@, spikes[i].count));
    lemma_kept_was_counted(counts, threshold, n);
    if i < j < spikes.len() {
        spikes_are_ranked(spikes, counts, threshold, i, j);
    }
    if counts[k].1 >= threshold && spikes.len() < 5 {
        lemma_kept_count(counts, threshold, k);
        let m = counts.filter(keep).index_of(counts[k]);
        assert(spike_pairs(all)[m] == counts[k]);
        lemma_same_items(ranking(all), all, all[m]);
        let r = ranking(all).index_of(all[m]);
        assert(spikes == ranking(all));
        assert(spike_pairs(spikes)[r] == counts[k]);
    }
}

/// Without a reason that reaches the threshold there is no spike.
pub proof fn no_spike_without_a_reason(spikes: Seq<Spike>, counts: Seq<(Seq<char>, usize)>, threshold: usize)
    requires
        are_spikes(spikes, counts, threshold),
    ensures
        (forall|k: int| 0 <= k < counts.len() ==> (#[trigger] counts[k]).1 < threshold) ==> spikes.len() == 0,
{
    if spikes.len() > 0 {
        if counts.len() > 0 {
            frequent_reasons_are_told(spikes, counts, threshold, 0, 0, 0);
            let i = counts.index_of((spikes[0].reason@, spikes[0].count));
            assert(counts[i].1 >= threshold);
        } else {
            let all = choose|all: Seq<Spike>|
                #[trigger] spike_pairs(all) == reaching(counts, threshold) && spikes == at_most_first(
                    ranking(all),
                    5,
                );
            lemma_ranking_len(all);
            reveal(Seq::filter);
            assert(spike_pairs(all).len() == 0);
        }
    }
}

/// What a filter keeps was there.
proof fn lemma_kept_was_counted(counts: Seq<(Seq<char>, usize)>, threshold: usize, n: int)
    requires
        0 <= n < counts.filter(|e: (Seq<char>, usize)| e.1 >= threshold).len(),
    ensures
        counts.contains(counts.filter(|e: (Seq<char>, usize)| e.1 >= threshold)[n]),
        counts.filter(|e: (Seq<char>, usize)| e.1 >= threshold)[n].1 >= threshold,
    decreases counts.len(),
{
    let keep = |e: (Seq<char>, usize)| e.1 >= threshold;
    reveal(Seq::filter);
    if counts.len() > 0 {
        let rest = counts.drop_last();
        let kept = rest.filter(keep);
        if n < kept.len() {
            lemma_kept_was_counted(rest, threshold, n);
            let i = rest.index_of(kept[n]);
            assert(counts[i] == kept[n]);
        } else {
            assert(counts[counts.len() - 1] == counts.last());
        }
    }
}

/// What a filter keeps is there.
proof fn lemma_kept_count(counts: Seq<(Seq<char>, usize)>, threshold: usize, k: int)
    requires
        0 <= k < counts.len(),
        counts[k].1 >= threshold,
    ensures
        counts.filter(|e: (Seq<char>, usize)| e.1 >= threshold).contains(counts[k]),
    decreases counts.len(),
{
    let keep = |e: (Seq<char>, usize)| e.1 >= threshold;
    reveal(Seq::filter);
    let rest = counts.drop_last();
    let kept = rest.filter(keep);
    if k < rest.len() {
        assert(rest[k] == counts[k]);
        lemma_kept_count(rest, threshold, k);
        let i = kept.index_of(counts[k]);
        if keep(counts.last()) {
            assert(kept.push(counts.last())[i] == counts[k]);
        }
    } else {
        assert(counts.last() == counts[k]);
        assert(kept.push(counts.last())[kept.len() as int] == counts[k]);
    }
}

/// Lists with the same items hold the same.
proof fn lemma_same_items(a: Seq<Spike>, b: Seq<Spike>, item: Spike)
    requires
        a.to_multiset() == b.to_multiset(),
        a.contains(item) || b.contains(item),
    ensures
        a.contains(item),
        b.contains(item),
{
    broadcast use vstd::seq_lib::group_to_multiset_ensures;

    assert(a.to_multiset().count(item) > 0 || b.to_multiset().count(item) > 0);
    assert(a.contains(item) <==> a.to_multiset().count(item) > 0);
    assert(b.contains(item) <==> b.to_multiset().count(item) > 0);
}

/// Spikes are told if there are any and they differ from those told last, if none were
/// told yet, or if the cooldown has passed since; and not otherwise.
pub proof fn spikes_are_told_when_due(
    memory: AlertMemory,
    spikes: Seq<(Seq<char>, usize)>,
    cooldown_secs: u64,
    at: Timestamp,
)
    ensures
        spikes.len() == 0 ==> !spikes_due(memory, spikes, cooldown_secs, at),
        spikes.len() > 0 && spike_text(spikes) != memory.signature ==> spikes_due(
            memory,
            spikes,
            cooldown_secs,
            at,
        ),
        spikes.len() > 0 && memory.sent_at is None ==> spikes_due(memory, spikes, cooldown_secs, at),
        spikes.len() > 0 && memory.sent_at is Some && at@ - memory.sent_at->0@ >= cooldown_secs * 1_000_000_000
            ==> spikes_due(memory, spikes, cooldown_secs, at),
        memory.signature == spike_text(spikes) && memory.sent_at is Some && cooldown_secs > 0 && at@
            - memory.sent_at->0@ < cooldown_secs * 1_000_000_000 ==> !spikes_due(
            memory,
            spikes,
            cooldown_secs,
            at,
        ),
{
    if let Some(t) = memory.sent_at {
        let span = at@ - t@;
        if span >= 0 {
            vstd::arithmetic::div_mod::lemma_fundamental_div_mod(span, 1_000_000_000);
            vstd::arithmetic::div_mod::lemma_mod_bound(span, 1_000_000_000);
        } else {
            vstd::arithmetic::div_mod::lemma_fundamental_div_mod(-span, 1_000_000_000);
            vstd::arithmetic::div_mod::lemma_mod_bound(-span, 1_000_000_000);
        }
    }
}

/// Spikes that differ in their last reason, or only in how often it was counted, are
/// told apart; reasons of the same length are compared.
pub proof fn change_of_a_spike_is_noticed(
    spikes: Seq<(Seq<char>, usize)>,
    a: (Seq<char>, usize),
    b: (Seq<char>, usize),
)
    requires
        spike_text(spikes.push(a)) == spike_text(spikes.push(b)),
        a.0.len() == b.0.len(),
    ensures
        a == b,
{
    reveal_strlit(":");
    reveal_strlit("|");
    assert(spikes.push(a).drop_last() =~= spikes);
    assert(spikes.push(b).drop_last() =~= spikes);
    let (x, y) = (spike_text(spikes.push(a)), spike_text(spikes.push(b)));
    let start = if spikes.len() == 0 {
        0int
    } else {
        spike_text(spikes).len() as int + 1
    };
    let n = a.0.len() as int;
    assert(x.subrange(start, start + n) =~= a.0);
    assert(y.subrange(start, start + n) =~= b.0);
    assert(x.skip(start + n + 1) =~= decimal(a.1 as nat));
    assert(y.skip(start + n + 1) =~= decimal(b.1 as nat));
    assert(signed_decimal(a.1 as int) == decimal(a.1 as nat));
    assert(signed_decimal(b.1 as int) == decimal(b.1 as nat));
    decimals_differ(a.1 as int, b.1 as int);
}

/// A skipped signal is counted in every window that reaches back to it, under its own
/// reason and no other.
pub proof fn skip_is_counted_in_its_windows(
    books: Books,
    reason: Seq<char>,
    other: Seq<char>,
    at: Timestamp,
    now: Timestamp,
    secs: int,
)
    requires
        books.recent_skips.len() < 5000,
        other != reason,
    ensures
        ({
            let before = window_counts(books, now, secs);
            let after = window_counts(after_skip(books, reason, at), now, secs);
            &&& count_of(after, reason) == count_of(before, reason) + if now@ - at@ <= secs * 1_000_000_000 {
                1int
            } else {
                0
            }
            &&& count_of(after, other) == count_of(before, other)
        }),
{
    let cutoff = now@ - secs * 1_000_000_000;
    let after = after_skip(books, reason, at).recent_skips;
    assert(after =~= seq![(at, reason)] + books.recent_skips);
    tally_counts_occurrences(books.recent_skips, cutoff, reason);
    tally_counts_occurrences(books.recent_skips, cutoff, other);
    tally_counts_occurrences(after, cutoff, reason);
    tally_counts_occurrences(after, cutoff, other);
    lemma_front_occurrence((at, reason), books.recent_skips, cutoff, reason);
    lemma_front_occurrence((at, reason), books.recent_skips, cutoff, other);
}

/// The first delay is the base delay, and each of the first twelve that follow is twice
/// the one before; after that they stay the same. What the clock adds is less than the
/// base delay. This holds as long as the delays fit in 64 bits.
pub proof fn delays_double(base_ms: u64, attempt: usize, millis: u64)
    requires
        attempt < usize::MAX,
        base_ms * 8192 <= u64::MAX,
    ensures
        backoff(base_ms, 0, 0) == base_ms,
        attempt < 12 ==> backoff(base_ms, (attempt + 1) as usize, 0) == 2 * backoff(base_ms, attempt, 0),
        attempt >= 12 ==> backoff(base_ms, (attempt + 1) as usize, 0) == backoff(base_ms, attempt, 0),
        base_ms > 0 ==> backoff(base_ms, attempt, millis) == backoff(base_ms, attempt, 0) + millis % base_ms,
        base_ms > 0 && millis < base_ms ==> backoff(base_ms, attempt, millis) == backoff(base_ms, attempt, 0)
            + millis,
{
    lemma2_to64();
    let e = backoff_exponent(attempt);
    let f = backoff_exponent((attempt + 1) as usize);
    lemma_pow2_pos(e);
    lemma_pow2_unfold(e + 1);
    if e < 12 {
        vstd::arithmetic::power2::lemma_pow2_strictly_increases(e, 12);
    }
    if f < 12 {
        vstd::arithmetic::power2::lemma_pow2_strictly_increases(f, 12);
    }
    let spread: int = if base_ms > 1 {
        base_ms as int
    } else {
        1
    };
    vstd::arithmetic::div_mod::lemma_small_mod(0, spread as nat);
    vstd::arithmetic::div_mod::lemma_mod_bound(millis as int, spread);
    let (x, y) = (pow2(e), pow2(f));
    assert(base_ms * x <= base_ms * 4096 && base_ms * y <= base_ms * 4096 && base_ms * (2 * x) == 2 * (base_ms
        * x) && base_ms * x >= 0) by (nonlinear_arith)
        requires
            0 <= x <= 4096,
            0 <= y <= 4096,
            base_ms >= 0,
    ;
    assert(base_ms * pow2(0) == base_ms);
    if base_ms > 0 && millis < base_ms {
        vstd::arithmetic::div_mod::lemma_small_mod(millis as nat, base_ms as nat);
    }
}

/// A text is left whole up to the given length; of a longer one that many characters
/// are kept, and three dots follow.
pub proof fn long_text_is_cut(text: Seq<char>, max_chars: int, i: int)
    requires
        0 <= max_chars,
    ensures
        text.len() <= max_chars ==> abbreviated(text, max_chars) == text,
        text.len() > max_chars ==> {
            let cut = abbreviated(text, max_chars);
            &&& cut.len() == max_chars + 3
            &&& 0 <= i < max_chars ==> cut[i] == text[i]
            &&& max_chars <= i < max_chars + 3 ==> cut[i] == '.'
        },
{
    reveal_strlit("...");
}

/// The hexadecimal digits of a number below sixteen are its own.
proof fn lemma_hex_digit(a: int, b: int)
    requires
        0 <= a < 16,
        0 <= b < 16,
        hex_digit(a) == hex_digit(b),
    ensures
        a == b,
{
    assert(('0' as int + a) as char as int == '0' as int + a);
    assert(('0' as int + b) as char as int == '0' as int + b);
    assert(('a' as int + a - 10) as char as int == 'a' as int + a - 10);
    assert(('a' as int + b - 10) as char as int == 'a' as int + b - 10);
}

/// Different bytes have different hexadecimal notations, two digits each.
pub proof fn hexadecimal_digits_tell_bytes_apart(a: Seq<u8>, b: Seq<u8>)
    requires
        hex_text(a) == hex_text(b),
    ensures
        a == b,
        hex_text(a).len() == 2 * a.len(),
{
    let (x, y) = (hex_text(a), hex_text(b));
    assert(x.len() == 2 * a.len() && y.len() == 2 * b.len());
    assert forall|i: int| 0 <= i < a.len() implies a[i] == b[i] by {
        let (m, n) = (a[i] as int, b[i] as int);
        assert((2 * i) % 2 == 0 && (2 * i) / 2 == i && (2 * i + 1) % 2 == 1 && (2 * i + 1) / 2 == i);
        assert(x[2 * i] == hex_digit(m / 16));
        assert(y[2 * i] == hex_digit(n / 16));
        assert(x[2 * i + 1] == hex_digit(m % 16));
        assert(y[2 * i + 1] == hex_digit(n % 16));
        lemma_hex_digit(m / 16, n / 16);
        lemma_hex_digit(m % 16, n % 16);
    }
    assert(a =~= b);
}

/// A refused delivery is told with its status and its body, of which at most 400
/// characters are kept; an unanswered one with its error.
pub proof fn failure_is_told(d: Delivery, status: String, body: String, error: String)
    ensures
        d == (Delivery::Refused { status, body }) && body@.len() <= 400 ==> failure_text(d) == "status="@ + status@
            + " body="@ + body@,
        d == (Delivery::Refused { status, body }) && body@.len() > 400 ==> failure_text(d) == "status="@ + status@
            + " body="@ + (body@.subrange(0, 400) + "..."@),
        d == (Delivery::Unread { status, error }) ==> failure_text(d) == "status="@ + status@
            + " body=<failed reading response body: "@ + error@ + ">"@,
        d == (Delivery::Failed { error }) ==> failure_text(d) == error@,
{
    if body@.len() > 400 {
        assert(body@.take(400) =~= body@.subrange(0, 400));
    }
}

/// The hour and the day that are evaluated reach back 3600 and 86 400 seconds: a signal
/// skipped then or later is counted under its reason, and one skipped before is not.
pub proof fn evaluated_windows(
    books: Books,
    reason: Seq<char>,
    other: Seq<char>,
    at: Timestamp,
    now: Timestamp,
)
    requires
        books.recent_skips.len() < 5000,
        other != reason,
    ensures
        ({
            let after = after_skip(books, reason, at);
            let age = now@ - at@;
            let in_hour: int = if age <= 3_600_000_000_000 {
                1
            } else {
                0
            };
            let in_day: int = if age <= 86_400_000_000_000 {
                1
            } else {
                0
            };
            &&& count_of(hour_counts(after, now), reason) == count_of(hour_counts(books, now), reason) + in_hour
            &&& count_of(day_counts(after, now), reason) == count_of(day_counts(books, now), reason) + in_day
            &&& count_of(hour_counts(after, now), other) == count_of(hour_counts(books, now), other)
            &&& count_of(day_counts(after, now), other) == count_of(day_counts(books, now), other)
        }),
{
    skip_is_counted_in_its_windows(books, reason, other, at, now, 3600);
    skip_is_counted_in_its_windows(books, reason, other, at, now, 86_400);
}

/// The limits are told exactly when one stands otherwise than when they were last told.
/// Once they were delivered they are not told again while they stay the same; until
/// then they are told at every evaluation.
pub proof fn limits_are_told_once(memory: AlertMemory, b: BreakerStates, later: BreakerStates)
    ensures
        ({
            let told = limits_told(memory, b, true);
            let same = b.drawdown_active == later.drawdown_active && b.streak_active == later.streak_active
                && b.notional_active == later.notional_active;
            &&& after_evaluation(told, later) == if same {
                (AlertPhase::Deciding, AlertAction::Decide { save: false })
            } else {
                (AlertPhase::TellingBreakers, AlertAction::SendBreakers)
            }
            &&& limits_told(memory, b, false) == memory
            &&& told.signature == memory.signature
            &&& told.sent_at == memory.sent_at
            &&& memory.breaker_signature.len() == 0 ==> after_evaluation(memory, b).1
                == AlertAction::SendBreakers
        }),
{
    reveal_strlit("drawdown:");
    assert(breaker_text(b).len() > 0);
    if breaker_text(b) == breaker_text(later) {
        change_of_a_limit_is_noticed(b, later);
    }
}

/// Spikes that were delivered are told again only once they change or the cooldown has
/// passed; those that were not are told at the next evaluation. Without spikes nothing
/// is told.
pub proof fn spikes_are_told_once(
    memory: AlertMemory,
    spikes: Seq<(Seq<char>, usize)>,
    cooldown_secs: u64,
    told_at: Timestamp,
    at: Timestamp,
)
    requires
        spikes.len() > 0,
        cooldown_secs > 0,
    ensures
        ({
            let told = spikes_remembered(memory, spikes, true, told_at);
            &&& after_decision(told, spikes, cooldown_secs, at) == if at@ - told_at@ >= cooldown_secs
                * 1_000_000_000 {
                (AlertPhase::TellingSpikes, AlertAction::SendSpikes)
            } else {
                (AlertPhase::Idle, AlertAction::Wait { save: false })
            }
            &&& told.breaker_signature == memory.breaker_signature
            &&& spikes_remembered(memory, spikes, false, told_at) == memory
            &&& memory.sent_at is None ==> after_decision(memory, spikes, cooldown_secs, at).1
                == AlertAction::SendSpikes
            &&& after_decision(memory, Seq::empty(), cooldown_secs, at) == (
                AlertPhase::Idle,
                AlertAction::Wait { save: false },
            )
        }),
{
    let told = spikes_remembered(memory, spikes, true, told_at);
    spikes_are_told_when_due(told, spikes, cooldown_secs, at);
    spikes_are_told_when_due(memory, spikes, cooldown_secs, at);
    spikes_are_told_when_due(memory, Seq::empty(), cooldown_secs, at);
}

} // verus!
