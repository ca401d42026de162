//! Properties of alert admission and delivery that hold across operations.
use vstd::prelude::*;
use crate::assoc::lemma_assoc_len;
use crate::notifier::{admissible, admission, advisor_key, begin_spec, commit_spec, confirm_spec, delivered, enqueue_outcome, give_up_spec, id_of, key_of, merged, next_generation, pending_pairs, pop_spec, record_or_empty, recover_key_spec, recover_target_spec, record_of, stale_at, with_incident, DeliveryStart, DeliveryState, EventView, GenerationRecord, IdView, KeyView, StateView, COOLDOWN_MS, MAX_PENDING};
use crate::config::TelegramAlertSettings;

verus! {

/// At most 64 alerts ever wait for delivery.
pub proof fn pending_is_bounded(s: &DeliveryState)
    requires
        s.wf(),
    ensures
        s@.pending.dom().len() <= MAX_PENDING,
{
    lemma_assoc_len(pending_pairs(s.pending@));
}

/// A recovery always starts a generation different from the current one.
pub proof fn recovery_changes_generation(g: u64)
    ensures
        next_generation(g) != g,
{
}

/// Late acknowledgement: once a probe has recovered, confirming delivery of an alert stamped
/// with the generation that was current before the recovery does not count as a delivery of
/// the new current generation.
pub proof fn late_ack_after_recovery_is_historical(s: StateView, e: EventView, target: Seq<char>, now: u64)
    requires
        s.incidents.contains_key(key_of(e)),
        e.generation == s.incidents[key_of(e)].current_generation,
        e.target_id == Some(target),
    ensures
        !commit_spec(recover_target_spec(s, target), e, now).1,
{
}

/// An alert stamped before its incident moved on is refused.
pub proof fn outdated_generation_is_refused(s: StateView, e: EventView, now: u64)
    requires
        s.incidents.contains_key(key_of(e)),
        e.generation < s.incidents[key_of(e)].current_generation,
    ensures
        !admissible(s, e, now),
{
}

/// A closed notifier admits nothing.
pub proof fn closed_admits_nothing(s: StateView, e: EventView, now: u64)
    requires
        s.is_closed,
    ensures
        !admissible(s, e, now),
{
}

/// Deduplication: right after a confirmed delivery, a repeat of the same generation at no
/// higher severity is refused for five minutes.
pub proof fn delivered_generation_suppresses_repeats(s: StateView, e: EventView, repeat: EventView, now: u64, later: u64)
    requires
        s.incidents.contains_key(key_of(e)),
        id_of(repeat) == id_of(e),
        repeat.severity.rank_spec() <= e.severity.rank_spec(),
        now <= later,
        later - now < COOLDOWN_MS,
    ensures
        !admissible(commit_spec(s, e, now).0, repeat, later),
{
    let s2 = commit_spec(s, e, now).0;
    let k = key_of(e);
    assert(key_of(repeat) == k);
    assert(s2.incidents.contains_key(k));
    assert(s2.incidents[k].records.contains_key(e.generation));
    assert(record_of(s2, k, e.generation) == Some(delivered(record_or_empty_of(s, e), e.severity, now)));
}

/// The record that a commit of `e` starts from.
pub open spec fn record_or_empty_of(s: StateView, e: EventView) -> GenerationRecord {
    let inc = s.incidents[key_of(e)];
    if inc.records.contains_key(e.generation) { inc.records[e.generation] } else { GenerationRecord::empty_spec() }
}

/// Escalation: a delivered generation does not hold back a more severe alert for it.
pub proof fn escalation_passes_cooldown(s: StateView, e: EventView, worse: EventView, now: u64, later: u64)
    requires
        !s.is_closed,
        s.incidents.contains_key(key_of(e)),
        e.generation == s.incidents[key_of(e)].current_generation,
        !record_or_empty_of(s, e).exhausted,
        id_of(worse) == id_of(e),
        worse.severity.rank_spec() > e.severity.rank_spec(),
    ensures
        admissible(commit_spec(s, e, now).0, worse, later),
{
    let s2 = commit_spec(s, e, now).0;
    let k = key_of(e);
    assert(key_of(worse) == k);
    assert(s2.incidents.contains_key(k));
    assert(record_of(s2, k, e.generation) == Some(delivered(record_or_empty_of(s, e), e.severity, now)));
}

/// A waiting repeat of a generation becomes stale as soon as a delivery of that generation at
/// no lower severity is confirmed, so it is never sent twice.
pub proof fn confirmed_delivery_makes_waiting_repeat_stale(s: StateView, e: EventView, now: u64, later: u64)
    requires
        s.incidents.contains_key(key_of(e)),
        s.pending.contains_key(id_of(e)),
        s.pending[id_of(e)].severity.rank_spec() <= e.severity.rank_spec(),
        now <= later,
        later - now < COOLDOWN_MS,
    ensures
        commit_spec(s, e, now).0.pending == s.pending,
        stale_at(commit_spec(s, e, now).0, id_of(e), later),
{
    let s2 = commit_spec(s, e, now).0;
    let k = key_of(e);
    assert(s2.incidents.contains_key(k));
    assert(record_of(s2, k, e.generation) == Some(delivered(record_or_empty_of(s, e), e.severity, now)));
}

/// Recovery changes no delivery record, so it never makes a covered repeat deliverable again.
pub proof fn recovery_keeps_staleness(s: StateView, target: Seq<char>, id: IdView, now: u64)
    requires
        s.pending.contains_key(id),
    ensures
        stale_at(recover_target_spec(s, target), id, now) == stale_at(s, id, now),
        recover_target_spec(s, target).pending == s.pending,
{
    let s2 = recover_target_spec(s, target);
    if s.incidents.contains_key(id.key) {
        assert(s2.incidents[id.key].records == s.incidents[id.key].records);
    }
}

/// The advisor's recovery leaves every other incident, in particular the elevated-risk
/// cooldown, untouched.
pub proof fn advisor_recovery_keeps_other_incidents(s: StateView, k: KeyView)
    requires
        k != advisor_key(),
        s.incidents.contains_key(k),
    ensures
        recover_key_spec(s, advisor_key()).incidents[k] == s.incidents[k],
        recover_key_spec(s, advisor_key()).pending == s.pending,
{
}

/// Coalescing keeps the peak: the merged event is as severe as the more severe of the two, and
/// a less severe refresh keeps the earlier title and message.
pub proof fn coalescing_keeps_peak_severity(existing: EventView, e: EventView)
    ensures
        merged(existing, e).severity.rank_spec() >= existing.severity.rank_spec(),
        merged(existing, e).severity.rank_spec() >= e.severity.rank_spec(),
        e.severity.rank_spec() < existing.severity.rank_spec() ==> merged(existing, e).title == existing.title
            && merged(existing, e).message == existing.message && merged(existing, e).severity == existing.severity,
{
}

/// Repeated admissions of one incident generation occupy a single waiting slot.
pub proof fn repeats_coalesce_into_one_slot(old: StateView, new: StateView, e: EventView, now: u64, r: bool)
    requires
        admission(old, new, e, now, r),
        old.pending.contains_key(id_of(e)),
    ensures
        new.pending.dom() == old.pending.dom(),
{
    if r {
        assert(new.pending.dom() =~= old.pending.dom());
    }
}


/// Once admission is closed it stays closed: a later enqueue is refused and changes nothing,
/// and no other operation on the bookkeeping opens admission again.
pub proof fn closed_stays_closed(
    s: StateView,
    settings: Option<TelegramAlertSettings>,
    e: EventView,
    now: u64,
    after: StateView,
    admitted: bool,
    popped: Option<EventView>,
    target: Seq<char>,
    k: KeyView,
    count: nat,
    hash: u64,
    confirmed: usize,
)
    requires
        s.is_closed,
    ensures
        enqueue_outcome(settings, s, after, e, now, admitted) ==> !admitted && after == s,
        pop_spec(s, after, popped, now) ==> after.is_closed,
        commit_spec(s, e, now).0.is_closed,
        recover_target_spec(s, target).is_closed,
        recover_key_spec(s, k).is_closed,
        begin_spec(s, e, count, hash).0.is_closed,
        confirm_spec(s, e, confirmed).is_closed,
        give_up_spec(s, e).is_closed,
{
}

/// Generations count recoveries: a new incident starts at generation zero; a recovery of its
/// probe, or of its own key, moves it on by one (wrapping); a recovery of another probe or
/// another key leaves it as it was.
pub proof fn generations_count_recoveries(s: StateView, k: KeyView, target: Seq<char>, other: KeyView)
    ensures
        !s.incidents.contains_key(k) ==> with_incident(s, k).incidents[k].current_generation == 0,
        s.incidents.contains_key(k) && k.target_id == Some(target) ==> recover_target_spec(s, target).incidents[k].current_generation
            == next_generation(s.incidents[k].current_generation),
        s.incidents.contains_key(k) && k.target_id != Some(target) ==> recover_target_spec(s, target).incidents[k]
            == s.incidents[k],
        s.incidents.contains_key(k) ==> recover_key_spec(s, k).incidents[k].current_generation
            == next_generation(s.incidents[k].current_generation),
        s.incidents.contains_key(k) && other != k ==> recover_key_spec(s, other).incidents[k] == s.incidents[k],
{
}

/// A repeated delivery of the same chunk plan (same chunk count and plan hash) resumes after
/// the chunks already confirmed and never sends them again; with every chunk confirmed it
/// sends nothing. A different plan starts again from its first chunk.
pub proof fn delivery_resumes_after_confirmed_chunks(s: StateView, e: EventView, count: nat, hash: u64, confirmed: usize, other_hash: u64)
    requires
        s.incidents.contains_key(key_of(e)),
        !record_or_empty(s, key_of(e), e.generation).exhausted,
    ensures
        ({
            let s2 = confirm_spec(begin_spec(s, e, count, hash).0, e, confirmed);
            &&& begin_spec(s2, e, count, hash).1 == (if confirmed >= count {
                DeliveryStart::AlreadyDelivered
            } else {
                DeliveryStart::From(confirmed)
            })
            &&& other_hash != hash ==> begin_spec(s2, e, count, other_hash).1 == (if count == 0 {
                DeliveryStart::AlreadyDelivered
            } else {
                DeliveryStart::From(0)
            })
        }),
{
    let k = key_of(e);
    let s1 = begin_spec(s, e, count, hash).0;
    let s2 = confirm_spec(s1, e, confirmed);
    assert(record_of(s1, k, e.generation).is_some());
    assert(record_or_empty(s2, k, e.generation).confirmed_chunks == confirmed);
    assert(record_or_empty(s2, k, e.generation).plan_hash == hash);
    assert(!record_or_empty(s2, k, e.generation).exhausted);
}

/// Giving up exhausts the generation: a later delivery of it sends nothing, and a later alert
/// of the same incident generation is refused, at any time and severity. Giving up on an event
/// whose incident is not known records nothing.
pub proof fn giving_up_exhausts_the_generation(s: StateView, e: EventView, again: EventView, count: nat, hash: u64, now: u64)
    requires
        key_of(again) == key_of(e),
        again.generation == e.generation,
    ensures
        s.incidents.contains_key(key_of(e)) ==> begin_spec(give_up_spec(s, e), e, count, hash).1 == DeliveryStart::Exhausted,
        s.incidents.contains_key(key_of(e)) ==> !admissible(give_up_spec(s, e), again, now),
        !s.incidents.contains_key(key_of(e)) ==> give_up_spec(s, e) == s,
{
    let k = key_of(e);
    if s.incidents.contains_key(k) {
        let g = give_up_spec(s, e);
        assert(record_of(g, k, e.generation).is_some());
        assert(record_or_empty(g, k, e.generation).exhausted);
        assert(with_incident(g, k) == g);
    }
}

/// Every event that selecting the next one hands out leaves the waiting set, which therefore
/// shrinks: with at most 64 waiting, at most 64 selections in a row hand out an event.
pub proof fn popping_shrinks_pending(old: StateView, new: StateView, e: EventView, now: u64)
    requires
        old.pending.dom().finite(),
        pop_spec(old, new, Some(e), now),
    ensures
        new.pending.dom().finite(),
        new.pending.dom().len() < old.pending.dom().len(),
{
    let id = choose|id: IdView| {
        &&& #[trigger] old.pending.contains_key(id)
        &&& old.pending[id] == e
        &&& !new.pending.contains_key(id)
        &&& !stale_at(old, id, now)
    };
    assert(new.pending.dom().subset_of(old.pending.dom().remove(id)));
    vstd::set_lib::lemma_len_subset(new.pending.dom(), old.pending.dom().remove(id));
}

} // verus!
