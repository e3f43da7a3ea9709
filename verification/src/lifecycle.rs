//! What each operation of a controller does to what the controller holds.
//!
//! The laws name everything that an operation changes, in numbers, and
//! everything that it leaves alone.

use crate::controller::{
    Completion, ControllerChanges, Endpoint, EndpointConfig, FeedbackEpoch, Outcome, Tuning,
};
use crate::latency::Latency;
use crate::routing::{at_most_last, maximum, vacancy};
use crate::time::{Duration, Instant};
use vstd::prelude::*;

verus! {

/// Whether a queue keeps to a pacer: its first slot is the next one that the
/// pacer allows, and the others follow in steps of an interval.
pub open spec fn slotted(endpoint: Endpoint, now: Instant) -> bool {
    forall|j: int|
        0 <= j < endpoint.pending.len() ==> (#[trigger] endpoint.pending[j]).scheduled_at.nanos
            == at_most_last(
            maximum(endpoint.pacer.tat.nanos as int, now.nanos as int)
                + endpoint.pacer.interval.nanos * j,
        )
}

/// Whether what was learned, counted and set is the same at two controllers.
pub open spec fn learned_alike(a: Endpoint, b: Endpoint) -> bool {
    &&& a.id == b.id
    &&& a.config == b.config
    &&& a.tuning == b.tuning
    &&& a.latency == b.latency
    &&& a.gradient == b.gradient
    &&& a.completed == b.completed
    &&& a.failures == b.failures
    &&& a.probe == b.probe
    &&& a.words == b.words
}

/// A new controller holds nothing, expects the configured RTT, and can dispatch
/// at once, at the rate that follows from its initial concurrency.
pub proof fn law_new_controllers_are_empty(
    id: u64,
    config: EndpointConfig,
    tuning: Tuning,
    now: Instant,
    words: Map<nat, u32>,
)
    ensures
        ({
            let fresh = Endpoint::fresh(id, config, tuning, now, words);
            &&& fresh.id == id
            &&& fresh.config == config
            &&& fresh.tuning == tuning
            &&& fresh.words == words
            &&& fresh.pending.len() == 0
            &&& fresh.next_id == 0
            &&& fresh.inflight == 0
            &&& fresh.completed == 0
            &&& fresh.failures == 0
            &&& fresh.feedback_epoch is None
            &&& fresh.probe.active is None
            &&& fresh.probe.next_probe_at is None
            &&& !fresh.changes.admission && !fresh.changes.dispatch
            &&& fresh.pacer.tat == now
            &&& fresh.pacer.interval == crate::gcra::spacing(fresh.base_rate())
            &&& fresh.gradient.concurrency == tuning.gradient.initial_concurrency
            &&& fresh.gradient.updates == 0
            &&& fresh.gradient.next_update_at is None
            &&& fresh.latency.short == tuning.latency.initial_rtt.in_seconds()
            &&& fresh.latency.long == tuning.latency.initial_rtt.in_seconds()
            &&& fresh.latency.samples == 0
            &&& fresh.latency.baseline is None
        }),
{
}

/// A reservation is appended to the queue with the next number, in the next free
/// slot. Nothing else changes.
pub proof fn law_reserving_appends(endpoint: Endpoint, now: Instant)
    requires
        endpoint.next_id < u64::MAX,
    ensures
        ({
            let after = endpoint.reserved(now);
            let n = endpoint.pending.len();
            &&& after.pending.len() == n + 1
            &&& forall|i: int|
                0 <= i < n ==> #[trigger] after.pending[i] == endpoint.pending[i]
            &&& after.pending[n as int].id == endpoint.next_id
            &&& after.pending[n as int].scheduled_at.nanos == vacancy(endpoint, now)
            &&& !after.pending[n as int].was_paced
            &&& after.next_id == endpoint.next_id + 1
            &&& after.inflight == endpoint.inflight
            &&& after.pacer == endpoint.pacer
            &&& after.feedback_epoch == endpoint.feedback_epoch
            &&& after.changes == endpoint.changes
            &&& learned_alike(after, endpoint)
        }),
{
}

/// A cancelled reservation leaves the queue, and those behind it move up: their
/// order stays, and their slots follow the pacer. The pacer, the requests that
/// are inflight and all that was learned stay, and everyone is asked to look
/// again.
pub proof fn law_cancelling_removes_one(endpoint: Endpoint, i: int, now: Instant)
    requires
        0 <= i < endpoint.pending.len(),
    ensures
        ({
            let after = endpoint.dropped(i, now);
            &&& after.pending.len() == endpoint.pending.len() - 1
            &&& forall|j: int|
                0 <= j < after.pending.len() ==> {
                    let from = endpoint.pending[if j < i { j } else { j + 1 }];
                    &&& (#[trigger] after.pending[j]).id == from.id
                    &&& after.pending[j].was_paced == from.was_paced
                }
            &&& slotted(after, now)
            &&& after.next_id == endpoint.next_id
            &&& after.inflight == endpoint.inflight
            &&& after.pacer == endpoint.pacer
            &&& after.feedback_epoch == endpoint.feedback_epoch
            &&& after.changes.admission && after.changes.dispatch
            &&& learned_alike(after, endpoint)
        }),
{
}

/// A dispatch takes the head of the queue into flight and commits one interval
/// of the pacer. The first request that flies starts the clock of silence.
/// Nothing is learned from it.
pub proof fn law_dispatching_takes_the_head(endpoint: Endpoint, now: Instant)
    requires
        endpoint.pending.len() > 0,
        endpoint.inflight < usize::MAX,
    ensures
        ({
            let after = endpoint.dispatched(now);
            &&& after.pending.len() == endpoint.pending.len() - 1
            &&& forall|j: int|
                0 <= j < after.pending.len() ==> {
                    &&& (#[trigger] after.pending[j]).id == endpoint.pending[j + 1].id
                    &&& after.pending[j].was_paced == endpoint.pending[j + 1].was_paced
                }
            &&& after.inflight == endpoint.inflight + 1
            &&& after.pacer.tat.nanos == at_most_last(
                maximum(endpoint.pacer.tat.nanos as int, now.nanos as int)
                    + endpoint.pacer.interval.nanos,
            )
            &&& after.pacer.interval == endpoint.pacer.interval
            &&& slotted(after, now)
            &&& endpoint.inflight > 0 ==> after.feedback_epoch == endpoint.feedback_epoch
            &&& endpoint.inflight == 0 ==> {
                &&& after.feedback_epoch is Some
                &&& after.feedback_epoch.unwrap().last_feedback_at == now
                &&& after.feedback_epoch.unwrap().expected_rtt == endpoint.latency.expected_rtt()
            }
            &&& after.next_id == endpoint.next_id
            &&& after.changes.admission && after.changes.dispatch
            &&& learned_alike(after, endpoint)
        }),
{
}

/// Deriving the rate anew changes the pacing alone: the interval becomes that
/// of the effective rate, and the head does not keep a slot that it has lost.
proof fn lemma_repaced(endpoint: Endpoint, now: Instant)
    ensures
        ({
            let after = endpoint.repaced(now);
            &&& after.pacer.interval == crate::gcra::spacing(after.effective_rate(now))
            &&& same_queue(after, endpoint)
            &&& after.inflight == endpoint.inflight
            &&& after.feedback_epoch == endpoint.feedback_epoch
            &&& after.next_id == endpoint.next_id
            &&& after.latency == endpoint.latency
            &&& after.gradient == endpoint.gradient
            &&& after.completed == endpoint.completed
            &&& after.failures == endpoint.failures
            &&& after.changes.admission == endpoint.changes.admission
            &&& endpoint.changes.dispatch ==> after.changes.dispatch
        }),
{
    let after = endpoint.repaced(now);
    assert(after.effective_rate(now) == endpoint.effective_rate(now));
}

/// Whether the same reservations are queued, with the same marks.
pub open spec fn same_queue(a: Endpoint, b: Endpoint) -> bool {
    &&& a.pending.len() == b.pending.len()
    &&& forall|j: int|
        0 <= j < a.pending.len() ==> (#[trigger] a.pending[j]).id == b.pending[j].id
            && a.pending[j].was_paced == b.pending[j].was_paced
}

/// What every end of a request does: it leaves flight, the queue keeps its
/// reservations, dispatch is paced at the new rate, and those who wait for
/// dispatch are asked to look again.
pub open spec fn landed(before: Endpoint, after: Endpoint, now: Instant) -> bool {
    &&& after.inflight == before.inflight - 1
    &&& same_queue(after, before)
    &&& after.next_id == before.next_id
    &&& after.pacer.interval == crate::gcra::spacing(after.pictured(now).effective_rate)
    &&& after.changes.dispatch
    &&& after.changes.admission == before.changes.admission
}

/// A success is learned from: its latency is a sample of both averages and of
/// the baseline, and what comes out of it, the short-term RTT against the
/// baseline, moves the operating point, with the requests in flight counted
/// before it landed. It ends the silence, or the clock where nothing flies.
pub proof fn law_successes_are_learned_from(
    endpoint: Endpoint,
    latency: Duration,
    was_paced: bool,
    now: Instant,
)
    requires
        endpoint.inflight > 0,
        endpoint.completed < u64::MAX,
    ensures
        ({
            let after = endpoint.completed_with(Outcome::Success, latency, was_paced, now);
            &&& landed(endpoint, after, now)
            &&& after.completed == endpoint.completed + 1
            &&& after.failures == endpoint.failures
            &&& after.latency == endpoint.latency.observed(latency, now)
            &&& after.gradient == endpoint.gradient.sampled(
                after.pictured(now).short_rtt,
                after.pictured(now).baseline_rtt,
                endpoint.inflight,
                was_paced,
                now,
            )
            &&& rested(endpoint, after, now)
        }),
{
    let estimates = endpoint.latency.observed(latency, now);
    let before = Endpoint {
        latency: estimates,
        gradient: endpoint.gradient.sampled(
            Duration::of_seconds(estimates.short),
            estimates.baseline_rtt(),
            endpoint.inflight,
            was_paced,
            now,
        ),
        completed: (endpoint.completed + 1) as u64,
        inflight: (endpoint.inflight - 1) as usize,
        changes: ControllerChanges { dispatch: true, ..endpoint.changes },
        feedback_epoch: if endpoint.inflight > 1 {
            Some(
                FeedbackEpoch { last_feedback_at: now, expected_rtt: estimates.expected_rtt() },
            )
        } else {
            None
        },
        ..endpoint
    };
    lemma_repaced(before, now);
    let after = endpoint.completed_with(Outcome::Success, latency, was_paced, now);
    assert(after == before.repaced(now));
}

/// Whether the clock of silence starts again with feedback, and runs only while
/// requests are in flight.
pub open spec fn rested(before: Endpoint, after: Endpoint, now: Instant) -> bool {
    &&& before.inflight == 1 ==> after.feedback_epoch is None
    &&& before.inflight > 1 ==> {
        &&& after.feedback_epoch is Some
        &&& after.feedback_epoch.unwrap().last_feedback_at == now
        &&& after.feedback_epoch.unwrap().expected_rtt == after.latency.expected_rtt()
    }
}

/// A failure is feedback without a sample: it lowers the operating point and
/// ends the silence, and the estimates stay.
pub proof fn law_failures_are_feedback(
    endpoint: Endpoint,
    latency: Duration,
    was_paced: bool,
    now: Instant,
)
    requires
        endpoint.inflight > 0,
        endpoint.completed < u64::MAX,
        endpoint.failures < u64::MAX,
    ensures
        ({
            let after = endpoint.completed_with(Outcome::Failure, latency, was_paced, now);
            &&& landed(endpoint, after, now)
            &&& after.completed == endpoint.completed + 1
            &&& after.failures == endpoint.failures + 1
            &&& after.latency == endpoint.latency
            &&& after.gradient == endpoint.gradient.failed(now)
            &&& rested(endpoint, after, now)
        }),
{
    let before = Endpoint {
        gradient: endpoint.gradient.failed(now),
        failures: (endpoint.failures + 1) as u64,
        completed: (endpoint.completed + 1) as u64,
        inflight: (endpoint.inflight - 1) as usize,
        changes: ControllerChanges { dispatch: true, ..endpoint.changes },
        feedback_epoch: if endpoint.inflight > 1 {
            Some(
                FeedbackEpoch {
                    last_feedback_at: now,
                    expected_rtt: endpoint.latency.expected_rtt(),
                },
            )
        } else {
            None
        },
        ..endpoint
    };
    lemma_repaced(before, now);
    let after = endpoint.completed_with(Outcome::Failure, latency, was_paced, now);
    assert(after == before.repaced(now));
}

/// An abandoned request is a failure without feedback: it is no completion, and
/// the clock of silence goes on while others are in flight.
pub proof fn law_abandoned_requests_are_no_feedback(endpoint: Endpoint, now: Instant)
    requires
        endpoint.inflight > 0,
        endpoint.failures < u64::MAX,
    ensures
        ({
            let after = endpoint.abandoned(now);
            &&& landed(endpoint, after, now)
            &&& after.completed == endpoint.completed
            &&& after.failures == endpoint.failures + 1
            &&& after.latency == endpoint.latency
            &&& after.gradient == endpoint.gradient.failed(now)
            &&& endpoint.inflight > 1 ==> after.feedback_epoch == endpoint.feedback_epoch
            &&& endpoint.inflight == 1 ==> after.feedback_epoch is None
        }),
{
    let before = Endpoint {
        failures: (endpoint.failures + 1) as u64,
        gradient: endpoint.gradient.failed(now),
        inflight: (endpoint.inflight - 1) as usize,
        changes: ControllerChanges { dispatch: true, ..endpoint.changes },
        feedback_epoch: if endpoint.inflight > 1 {
            endpoint.feedback_epoch
        } else {
            None
        },
        ..endpoint
    };
    lemma_repaced(before, now);
    assert(endpoint.abandoned(now) == before.repaced(now));
}

/// A failure to become ready lowers the operating point and is counted. No
/// request lands with it, and the clock of silence goes on.
pub proof fn law_unready_transports_are_penalized(endpoint: Endpoint, now: Instant)
    requires
        endpoint.failures < u64::MAX,
    ensures
        ({
            let after = endpoint.admission_failed(now);
            &&& after.failures == endpoint.failures + 1
            &&& after.completed == endpoint.completed
            &&& after.inflight == endpoint.inflight
            &&& same_queue(after, endpoint)
            &&& after.latency == endpoint.latency
            &&& after.gradient == endpoint.gradient.failed(now)
            &&& after.feedback_epoch == endpoint.feedback_epoch
            &&& after.pacer.interval == crate::gcra::spacing(after.pictured(now).effective_rate)
        }),
{
    let before = Endpoint {
        failures: (endpoint.failures + 1) as u64,
        gradient: endpoint.gradient.failed(now),
        ..endpoint
    };
    lemma_repaced(before, now);
}

/// How a request ended decides what it counts as, and its latency is the time
/// since its dispatch.
pub proof fn law_completions_are_told_apart(
    endpoint: Endpoint,
    sent_at: Instant,
    was_paced: bool,
    now: Instant,
)
    requires
        sent_at.nanos <= now.nanos <= sent_at.nanos + crate::time::MAX_NANOS,
    ensures
        ({
            let latency = Duration { nanos: (now.nanos - sent_at.nanos) as u128 };
            &&& endpoint.finished(Completion::Success, sent_at, was_paced, now)
                == endpoint.completed_with(Outcome::Success, latency, was_paced, now)
            &&& endpoint.finished(Completion::Failure, sent_at, was_paced, now)
                == endpoint.completed_with(Outcome::Failure, latency, was_paced, now)
            &&& endpoint.finished(Completion::Abandoned, sent_at, was_paced, now)
                == endpoint.abandoned(now)
        }),
{
}

/// A snapshot shows what the controller holds.
pub proof fn law_snapshots_show_the_controller(endpoint: Endpoint, now: Instant)
    requires
        endpoint.pending.len() <= usize::MAX,
    ensures
        ({
            let shown = endpoint.pictured(now);
            &&& shown.queued == endpoint.pending.len()
            &&& shown.inflight == endpoint.inflight
            &&& shown.queue_capacity == endpoint.config.queue_capacity
            &&& shown.max_inflight == endpoint.config.max_inflight
            &&& shown.completed == endpoint.completed
            &&& shown.failures == endpoint.failures
            &&& shown.latency_samples == endpoint.latency.samples
            &&& shown.active_probe == endpoint.probe.active
            &&& shown.target_concurrency == endpoint.gradient.concurrency
            &&& shown.committed_tat == endpoint.pacer.tat
            &&& shown.virtual_tail_tat is Some <==> endpoint.pending.len() > 0
            &&& endpoint.pending.len() > 0 ==> shown.virtual_tail_tat.unwrap().nanos
                == at_most_last(
                endpoint.pending[endpoint.pending.len() - 1].scheduled_at.nanos
                    + endpoint.pacer.interval.nanos,
            )
            &&& shown.short_rtt == Duration::of_seconds(endpoint.latency.short)
            &&& shown.long_rtt == Duration::of_seconds(endpoint.latency.long)
            &&& shown.expected_rtt == endpoint.latency.expected_rtt()
            &&& shown.baseline_rtt == endpoint.latency.baseline_rtt()
            &&& shown.feedback_silence is Some <==> endpoint.feedback_epoch is Some
            &&& endpoint.feedback_epoch matches Some(epoch) ==> epoch.last_feedback_at.nanos
                <= now.nanos <= epoch.last_feedback_at.nanos + crate::time::MAX_NANOS
                ==> shown.feedback_silence.unwrap().nanos == now.nanos
                - epoch.last_feedback_at.nanos
        }),
{
}

/// The baseline RTT is the smallest of the window, to the nearest nanosecond,
/// and the initial estimate before the first sample.
pub proof fn law_baseline_rtt_is_the_smallest_seen(latency: Latency)
    requires
        latency.config.valid(),
        latency.config.initial_rtt.nanos < crate::samples::RESOLVED_NANOS,
    ensures
        latency.baseline is None ==> latency.baseline_rtt() == latency.config.initial_rtt,
        latency.baseline matches Some(least) ==> least.bits
            >= latency.config.min_rtt.in_seconds().bits ==> latency.baseline_rtt()
            == Duration::of_seconds(least),
{
    crate::samples::law_seconds_are_read_back(latency.config.initial_rtt);
    crate::precision::lemma_seconds_monotone(latency.config.min_rtt, latency.config.initial_rtt);
}

/// Two slots of the pacer are an interval apart: a dispatch moves the time up to
/// which dispatches are committed on by exactly one.
pub proof fn law_a_dispatch_commits_one_interval(pacer: crate::gcra::Pacing, at: Instant)
    ensures
        pacer.committed(at).tat.nanos == at_most_last(
            maximum(pacer.tat.nanos as int, at.nanos as int) + pacer.interval.nanos,
        ),
        pacer.committed(at).interval == pacer.interval,
        pacer.next_at(at).nanos == maximum(pacer.tat.nanos as int, at.nanos as int),
{
}

/// Bringing a controller up to date moves slots only where it has to: the queue
/// keeps its slots while the interval stays and the head has not lost its own,
/// and otherwise takes consecutive ones from the pacer. The pacer keeps its phase.
pub proof fn law_slots_move_with_the_pacing(endpoint: Endpoint, now: Instant)
    ensures
        ({
            let after = endpoint.refreshed(now);
            let kept = after.pacer.interval == endpoint.pacer.interval && (endpoint.pending.len()
                == 0 || endpoint.pending[0].scheduled_at.nanos >= maximum(
                endpoint.pacer.tat.nanos as int,
                now.nanos as int,
            ));
            &&& same_queue(after, endpoint)
            &&& kept ==> after.pending == endpoint.pending && after.pacer == endpoint.pacer
            &&& !kept ==> slotted(after, now) && after.changes.dispatch
            &&& after.pacer == endpoint.pacer.respaced(after.pacer.interval, now)
            &&& after.feedback_epoch == endpoint.feedback_epoch
            &&& after.changes.admission == endpoint.changes.admission
        }),
{
    reveal(Endpoint::refreshed);
}

/// The same holds of whatever changes the rate: a success, a failure, an
/// abandoned request or an unready transport.
pub proof fn law_new_rates_move_the_slots(endpoint: Endpoint, now: Instant)
    ensures
        ({
            let after = endpoint.repaced(now);
            let kept = after.pacer.interval == endpoint.pacer.interval && (endpoint.pending.len()
                == 0 || endpoint.pending[0].scheduled_at.nanos >= maximum(
                endpoint.pacer.tat.nanos as int,
                now.nanos as int,
            ));
            &&& kept ==> after.pending == endpoint.pending && after.pacer == endpoint.pacer
            &&& !kept ==> slotted(after, now) && after.changes.dispatch
            &&& after.pacer == endpoint.pacer.respaced(after.pacer.interval, now)
            &&& after.pacer.interval == crate::gcra::spacing(after.pictured(now).effective_rate)
        }),
{
    lemma_repaced(endpoint, now);
}

/// A probe that is started on demand applies at once, until it ends, and puts no
/// scheduled decision off. Whoever waits is asked to look again.
pub proof fn law_started_probes_apply_at_once(
    endpoint: Endpoint,
    probe: crate::probe::Probe,
    now: Instant,
)
    ensures
        ({
            let after = endpoint.probing(probe, now);
            &&& probe.until.nanos > now.nanos ==> after.probe.active == Some(probe)
            &&& probe.until.nanos <= now.nanos ==> after.probe.active is None
            &&& after.probe.next_probe_at == endpoint.probe.next_probe_at
            &&& after.words == endpoint.words
            &&& after.changes.dispatch
            &&& after.pacer.interval == crate::gcra::spacing(after.pictured(now).effective_rate)
            &&& same_queue(after, endpoint)
            &&& after.inflight == endpoint.inflight
            &&& after.latency == endpoint.latency
            &&& after.gradient == endpoint.gradient
        }),
{
    let before = Endpoint {
        probe: crate::probe::Probing { active: Some(probe), ..endpoint.probe },
        changes: ControllerChanges { dispatch: true, ..endpoint.changes },
        ..endpoint
    };
    lemma_repaced(before, now);
}

/// Asking marks the head of the queue as paced where it has to wait for its slot,
/// and changes nothing else beyond what bringing the controller up to date does.
pub proof fn law_waiting_heads_are_marked(endpoint: Endpoint, now: Instant)
    requires
        endpoint.pending.len() > 0,
    ensures
        ({
            let fresh = endpoint.refreshed(now);
            let after = endpoint.head_asked(now);
            let waits = endpoint.inflight < endpoint.config.max_inflight
                && fresh.pending[0].scheduled_at.nanos > now.nanos;
            &&& after.pending.len() == endpoint.pending.len()
            &&& waits ==> after.pending[0].was_paced
            &&& !waits ==> after == fresh
            &&& after.pending[0].id == fresh.pending[0].id
            &&& after.pending[0].scheduled_at == fresh.pending[0].scheduled_at
            &&& forall|i: int|
                0 < i < fresh.pending.len() ==> #[trigger] after.pending[i] == fresh.pending[i]
            &&& after.pacer == fresh.pacer
            &&& after.inflight == fresh.inflight
            &&& after.next_id == fresh.next_id
            &&& after.feedback_epoch == fresh.feedback_epoch
            &&& after.changes == fresh.changes
            &&& learned_alike(after, fresh)
        }),
{
    crate::simulator::model::lemma_refresh_keeps(endpoint, now);
}

} // verus!
