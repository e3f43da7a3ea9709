//! What holds of every endpoint controller, whatever happens to it.

use crate::controller::{
    Completion, ControllerChanges, DispatchReservation, DispatchState, Endpoint, FeedbackEpoch,
    Outcome,
};
use crate::double::{Double, ONE};
use crate::time::{Duration, Instant};
use vstd::arithmetic::power2::pow2;
use vstd::prelude::*;

verus! {

/// Tokens of another controller are told that they do not exist, and change
/// nothing.
pub proof fn law_foreign_tokens_change_nothing(
    endpoint: Endpoint,
    reservation: DispatchReservation,
    now: Instant,
)
    requires
        reservation.owner() != endpoint.id,
    ensures
        !endpoint.holds(reservation),
        endpoint.state_of(reservation, now) == DispatchState::Cancelled,
        endpoint.asked(reservation, now) == endpoint,
{
}

/// Dispatch is first in, first out: a reservation is ready exactly when it is
/// the head of the queue, its slot is due, and inflight capacity is left.
pub proof fn law_only_the_due_head_is_ready(
    endpoint: Endpoint,
    reservation: DispatchReservation,
    now: Instant,
)
    ensures
        endpoint.state_of(reservation, now) == DispatchState::Ready <==> {
            let fresh = endpoint.refreshed(now);
            &&& endpoint.queued_at(reservation, 0)
            &&& fresh.inflight < fresh.config.max_inflight
            &&& fresh.pending[0].scheduled_at.nanos <= now.nanos
        },
{
    reveal(Endpoint::refreshed);
}

/// A ready head never overtakes the pacer: its dispatch time is not before the
/// time up to which dispatches are committed, so two dispatches at an
/// unchanged spacing are at least an interval apart.
pub proof fn law_dispatches_keep_their_distance(
    endpoint: Endpoint,
    reservation: DispatchReservation,
    now: Instant,
)
    requires
        endpoint.wf(),
        endpoint.state_of(reservation, now) == DispatchState::Ready,
    ensures
        ({
            let fresh = endpoint.refreshed(now);
            let after = endpoint.asked(reservation, now).dispatched(now);
            &&& now.nanos >= fresh.pacer.tat.nanos
            &&& after.pacer.tat == now.later(after.pacer.interval)
            &&& after.pacer.interval == fresh.pacer.interval
        }),
{
    reveal(Endpoint::refreshed);
    let fresh = endpoint.refreshed(now);
    let decided = endpoint.decided(now);
    let moved = Endpoint { probe: decided.probe.expired(now), ..decided };
    let pacer = moved.pacer.respaced(crate::gcra::spacing(moved.effective_rate(now)), now);
    crate::simulator::model::lemma_refresh_keeps(endpoint, now);
    crate::controller::lemma_rebuilt(
        Endpoint { pacer, probe: moved.probe.expired(now), ..moved },
        now,
    );
    assert(fresh.pending[0].scheduled_at.nanos >= fresh.pacer.tat.nanos);
}

/// An idle endpoint makes nobody wait: what is reserved while the queue is
/// empty and the pacer has nothing committed is ready at once, and stays so. In
/// particular the first slot of a new controller is available immediately.
pub proof fn law_idle_endpoints_dispatch_at_once(
    endpoint: Endpoint,
    token: DispatchReservation,
    now: Instant,
    later: Instant,
)
    requires
        endpoint.wf(),
        endpoint.pending.len() == 0,
        endpoint.inflight < endpoint.config.max_inflight,
        endpoint.pacer.tat.nanos <= now.nanos <= later.nanos,
        token.owner() == endpoint.id,
        token.number() == endpoint.next_id,
    ensures
        endpoint.reserved(now).state_of(token, later) == DispatchState::Ready,
{
    reveal(Endpoint::refreshed);
    let queued = endpoint.reserved(now);
    let decided = queued.decided(later);
    let moved = Endpoint { probe: decided.probe.expired(later), ..decided };
    let interval = crate::gcra::spacing(moved.effective_rate(later));
    crate::gcra::law_idle_stays_available(moved.pacer, interval, later);
    crate::simulator::model::lemma_refresh_keeps(queued, later);
    crate::controller::lemma_first_slot(later, interval);
}

/// A reservation that is told to wait is given a time that is still to come.
pub proof fn law_deadlines_lie_ahead(
    endpoint: Endpoint,
    reservation: DispatchReservation,
    now: Instant,
)
    requires
        endpoint.tuning.valid(),
    ensures
        endpoint.state_of(reservation, now) matches DispatchState::WaitUntil(at) ==> at.nanos
            > now.nanos,
{
    reveal(Endpoint::refreshed);
    if endpoint.state_of(reservation, now) is WaitUntil {
        let fresh = endpoint.refreshed(now);
        let schedule = endpoint.tuning.probe_schedule;
        crate::simulator::model::lemma_refresh_keeps(endpoint, now);
        assert(now.nanos < u128::MAX);
        assert(fresh.demand() == endpoint.demand());
        assert(fresh.probe == endpoint.decided(now).probe.expired(now).expired(now));
        if fresh.probe.active is None && fresh.demand() {
            assert(endpoint.probe.due(now) ==> fresh.probe.next_probe_at == schedule.decided(
                crate::entropy::wide_word(endpoint.words),
                crate::entropy::wide_word(
                    crate::entropy::dropped(
                        endpoint.words,
                        (schedule.words_taken() - 2) as nat,
                    ),
                ),
                now,
            ).next_probe_at);
        }
    }
}

/// The effects that were taken are gone: taking again without a change gives
/// none, and nothing else has changed.
pub proof fn law_effects_are_taken_once(endpoint: Endpoint)
    ensures
        ({
            let taken = Endpoint { changes: ControllerChanges::none(), ..endpoint };
            &&& taken.changes == ControllerChanges::none()
            &&& (Endpoint { changes: ControllerChanges::none(), ..taken }) == taken
            &&& (Endpoint { changes: endpoint.changes, ..taken }) == endpoint
        }),
{
}

/// Bringing a controller up to date twice at the same time is the same as once,
/// and the second time asks nobody to look again.
pub proof fn law_refreshing_again_changes_nothing(endpoint: Endpoint, now: Instant)
    requires
        endpoint.tuning.valid(),
        now.nanos < u128::MAX,
    ensures
        endpoint.refreshed(now).refreshed(now) == endpoint.refreshed(now),
        ({
            let taken = Endpoint {
                changes: ControllerChanges::none(),
                ..endpoint.refreshed(now)
            };
            taken.refreshed(now) == taken
        }),
{
    lemma_settled(endpoint, now);
    let fresh = endpoint.refreshed(now);
    lemma_stays(fresh, now);
    lemma_stays(Endpoint { changes: ControllerChanges::none(), ..fresh }, now);
}

/// Whether a controller is up to date at a point in time: no probe decision is
/// due, no probe has ended, the pacer has the interval of the current rate, and
/// the head of the queue has not lost its slot.
pub open spec fn settled(endpoint: Endpoint, now: Instant) -> bool {
    &&& endpoint.demand() ==> !endpoint.probe.due(now)
    &&& endpoint.probe.expired(now) == endpoint.probe
    &&& endpoint.pacer.interval == crate::gcra::spacing(endpoint.effective_rate(now))
    &&& endpoint.pending.len() > 0 ==> endpoint.pending[0].scheduled_at.nanos
        >= endpoint.pacer.next_at(now).nanos
}

/// A controller that was brought up to date is up to date.
pub proof fn lemma_settled(endpoint: Endpoint, now: Instant)
    requires
        endpoint.tuning.valid(),
        now.nanos < u128::MAX,
    ensures
        settled(endpoint.refreshed(now), now),
{
    reveal(Endpoint::refreshed);
    crate::simulator::model::lemma_refresh_keeps(endpoint, now);
    let decided = endpoint.decided(now);
    let moved = Endpoint { probe: decided.probe.expired(now), ..decided };
    let pacer = moved.pacer.respaced(crate::gcra::spacing(moved.effective_rate(now)), now);
    let fresh = endpoint.refreshed(now);
    let schedule = endpoint.tuning.probe_schedule;
    assert(fresh.probe == moved.probe.expired(now));
    assert(fresh.probe == moved.probe);
    assert(fresh.pacer == pacer);
    assert(fresh.demand() == endpoint.demand());
    assert(fresh.effective_rate(now) == moved.effective_rate(now));
    if endpoint.demand() && endpoint.probe.due(now) {
        assert(decided.probe.next_probe_at matches Some(at) && at.nanos > now.nanos);
    }
    crate::controller::lemma_first_slot(pacer.next_at(now), pacer.interval);
}

/// What is up to date stays as it is.
pub proof fn lemma_stays(endpoint: Endpoint, now: Instant)
    requires
        settled(endpoint, now),
    ensures
        endpoint.refreshed(now) == endpoint,
{
    reveal(Endpoint::refreshed);
    let decided = endpoint.decided(now);
    assert(decided.probe == endpoint.probe);
    assert(decided.words == endpoint.words);
    assert(decided =~= endpoint);
    let moved = Endpoint { probe: decided.probe.expired(now), ..decided };
    assert(moved =~= endpoint);
    assert(moved.repaced(now) =~= endpoint);
}

/// Cancelling the reservation that was just made leaves the queue as it was,
/// with its slots counted anew from the pacer.
pub proof fn law_cancelled_reservations_leave_no_hole(endpoint: Endpoint, now: Instant)
    ensures
        ({
            let last = endpoint.pending.len() as int;
            let after = endpoint.reserved(now).dropped(last, now);
            &&& after.pending == endpoint.rebuilt(now).pending
            &&& after.pacer == endpoint.pacer
            &&& after.next_slot(now) == endpoint.rebuilt(now).next_slot(now)
        }),
{
    let last = endpoint.pending.len() as int;
    let after = endpoint.reserved(now).dropped(last, now);
    assert(endpoint.reserved(now).pending.remove(last) =~= endpoint.pending);
    assert(after.pending =~= endpoint.rebuilt(now).pending);
}

/// Silence of up to one expected RTT does not slow an endpoint down, and no
/// silence ever speeds it up.
pub proof fn law_silence_has_a_grace_period(epoch: Option<FeedbackEpoch>, now: Instant, rate: Double)
    ensures
        epoch is None ==> crate::controller::silence_factor(epoch, now, rate).bits == ONE,
        epoch matches Some(e) ==> (now.since(e.last_feedback_at).nanos <= e.expected_rtt.nanos
            ==> crate::controller::silence_factor(epoch, now, rate).bits == ONE),
        crate::controller::silence_factor(epoch, now, rate).bits <= ONE,
        rate.product(crate::controller::silence_factor(epoch, now, rate)).bits <= rate.bits,
{
    if let Some(e) = epoch {
        let excess = now.since(e.last_feedback_at).lessened(e.expected_rtt);
        let half_lives = excess.in_seconds().quotient(e.expected_rtt.in_seconds());
        crate::double::lemma_halved_at_most(half_lives);
    }
    crate::double::lemma_product_at_most(
        rate,
        crate::controller::silence_factor(epoch, now, rate),
    );
}

/// Silence slows an endpoint down and never stops it: the multiplier stays above
/// zero for every rate below two to the power 1012, and the slowed rate stays at
/// or above two to the power -64, or at the rate itself where that is lower.
pub proof fn law_silence_never_stops_dispatch(
    epoch: Option<FeedbackEpoch>,
    now: Instant,
    rate: Double,
)
    requires
        rate.bits < 0x7F30_0000_0000_0000,
    ensures
        ({
            let factor = crate::controller::silence_factor(epoch, now, rate);
            &&& factor.bits > 0
            &&& rate.product(factor).bits >= rate.lesser(
                Double { bits: 0x3BF0_0000_0000_0000 },
            ).bits
        }),
{
    let one = Double { bits: ONE };
    let least = Double { bits: crate::controller::MINIMUM_RATE };
    let half = Double { bits: 0x3BF0_0000_0000_0000 };
    let share = least.quotient(rate);
    let factor = crate::controller::silence_factor(epoch, now, rate);
    let p = pow2(1074);
    vstd::arithmetic::power2::lemma_pow2_pos(1074);
    crate::double::lemma_product_at_most(rate, one);
    law_silence_has_a_grace_period(epoch, now, rate);
    crate::double::lemma_power(960);
    crate::double::lemma_power(959);
    crate::double::lemma_power(2035);
    crate::double::lemma_order(Double { bits: 0 }, rate);
    vstd::arithmetic::power2::lemma_pow2_adds(1011, 1074);
    vstd::arithmetic::power2::lemma_pow2_unfold(2086);
    if rate.bits > 0 {
        let num = least.units() * p;
        let den = rate.units();
        assert(least.bits == 960 * crate::double::LEADING);
        assert(half.bits == 959 * crate::double::LEADING);
        crate::double::lemma_order(rate, Double { bits: 0x7F30_0000_0000_0000 });
        assert(num == pow2(2085) && den < pow2(2086));
        crate::precision::lemma_more_than_half(num, den);
        if share.bits < ONE && factor.bits < ONE {
            lemma_kept_rate(rate, share, factor);
        }
    }
}

proof fn lemma_kept_rate(rate: Double, share: Double, factor: Double)
    requires
        rate.bits > 0,
        share.bits > 0,
        share == (Double { bits: crate::controller::MINIMUM_RATE }).quotient(rate),
        share.bits <= factor.bits,
        share.bits < ONE,
    ensures
        rate.product(factor).bits >= 0x3BF0_0000_0000_0000,
{
    let p = pow2(1074);
    let one = Double { bits: ONE };
    let least = Double { bits: crate::controller::MINIMUM_RATE };
    let half = Double { bits: 0x3BF0_0000_0000_0000 };
    let den = rate.units();
    let num = least.units() * p;
    assert(least.bits == 960 * crate::double::LEADING);
    assert(half.bits == 959 * crate::double::LEADING);
    crate::double::lemma_power(960);
    crate::double::lemma_power(959);
    crate::double::lemma_one();
    crate::double::lemma_order(Double { bits: 0 }, rate);
    crate::double::lemma_order(share, factor);
    crate::double::lemma_order(one, share);
    vstd::arithmetic::power2::lemma_pow2_pos(1074);
    vstd::arithmetic::power2::lemma_pow2_adds(1011, 1074);
    vstd::arithmetic::power2::lemma_pow2_strictly_increases(2085, 4000);
    crate::precision::lemma_at_least_half(num, den);
    vstd::arithmetic::power2::lemma_pow2_unfold(1011);
    crate::double::lemma_itself(half, p);
    // Half of the least rate is at most the product.
    let exact = rate.units() * factor.units();
    assert(half.units() * p <= exact) by (nonlinear_arith)
        requires
            2 * half.units() == least.units(),
            num == least.units() * p,
            num <= 2 * (share.units() * den),
            share.units() <= factor.units(),
            exact == den * factor.units(),
    ;
    vstd::arithmetic::mul::lemma_mul_inequality(
        (half.units() * p) as int,
        exact as int,
        p as int,
    );
    crate::double::lemma_monotone(half.units() * p, p, exact, p);
}

/// The figures of a snapshot agree: rates and concurrencies are related by the
/// expected RTT, the effective rate is the probed rate slowed by silence, and
/// what is optional is there exactly while there is something to tell. The
/// slowing never reaches zero for a probed rate below two to the power 1012.
pub proof fn law_snapshots_agree(endpoint: Endpoint, now: Instant)
    requires
        endpoint.wf(),
    ensures
        ({
            let s = endpoint.refreshed(now).pictured(now);
            let rtt = s.expected_rtt.in_seconds();
            &&& s.base_rate == s.target_concurrency.quotient(rtt)
            &&& s.effective_rate == s.probed_rate.product(s.feedback_factor)
            &&& s.effective_concurrency == s.effective_rate.product(rtt)
            &&& s.feedback_factor.bits <= ONE
            &&& s.probed_rate.bits < 0x7F30_0000_0000_0000 ==> s.feedback_factor.bits > 0
            &&& s.feedback_silence is Some <==> s.inflight > 0
            &&& s.virtual_tail_tat is Some <==> s.queued > 0
            &&& s.active_probe is None ==> s.probed_rate == s.base_rate
        }),
{
    reveal(Endpoint::refreshed);
    crate::simulator::model::lemma_refresh_keeps(endpoint, now);
    let fresh = endpoint.refreshed(now);
    assert(fresh.feedback_epoch == endpoint.feedback_epoch);
    let rate = fresh.probed_rate(now);
    law_silence_has_a_grace_period(fresh.feedback_epoch, now, rate);
    if rate.bits < 0x7F30_0000_0000_0000 {
        law_silence_never_stops_dispatch(fresh.feedback_epoch, now, rate);
    }
}

/// After the grace period the rate halves with every expected RTT: a silence
/// that exceeds it by a whole number of expected RTTs leaves two to the power
/// of minus that number, or more only where that keeps up the least rate.
pub proof fn law_silence_halves_the_rate(epoch: FeedbackEpoch, now: Instant, rate: Double, k: nat)
    requires
        k > 0,
        k <= 1074,
        now.since(epoch.last_feedback_at).nanos > epoch.expected_rtt.nanos,
        now.since(epoch.last_feedback_at).lessened(epoch.expected_rtt).in_seconds().quotient(
            epoch.expected_rtt.in_seconds(),
        ).units() == k * pow2(1074),
    ensures
        ({
            let factor = crate::controller::silence_factor(Some(epoch), now, rate);
            let least = (Double { bits: crate::controller::MINIMUM_RATE }).quotient(rate);
            ||| factor.units() * pow2(k) == pow2(1074)
            ||| factor.units() * pow2(k) > pow2(1074) && factor == least.lesser(
                Double { bits: ONE },
            )
        }),
{
    let excess = now.since(epoch.last_feedback_at).lessened(epoch.expected_rtt);
    let half_lives = excess.in_seconds().quotient(epoch.expected_rtt.in_seconds());
    let half = half_lives.halved();
    let factor = crate::controller::silence_factor(Some(epoch), now, rate);
    crate::double::lemma_halved_whole(half_lives, k);
    crate::double::lemma_order(half, factor);
    vstd::arithmetic::power2::lemma_pow2_pos(k);
    if half.units() < factor.units() {
        vstd::arithmetic::mul::lemma_mul_strict_inequality(
            half.units() as int,
            factor.units() as int,
            pow2(k) as int,
        );
    }
}

/// Feedback of either kind ends the silence: the multiplier is one again.
pub proof fn law_feedback_ends_the_silence(
    endpoint: Endpoint,
    outcome: Outcome,
    latency: Duration,
    was_paced: bool,
    now: Instant,
)
    requires
        endpoint.inflight > 0,
    ensures
        ({
            let after = endpoint.completed_with(outcome, latency, was_paced, now);
            &&& after.feedback_factor(now).bits == ONE
            &&& after.inflight == endpoint.inflight - 1
            &&& after.feedback_epoch matches Some(epoch) ==> epoch.last_feedback_at == now
        }),
{
}

/// Abandoned work is no feedback: while other requests are inflight the
/// silence goes on as it was, and no sample is recorded.
pub proof fn law_abandonment_is_no_feedback(endpoint: Endpoint, now: Instant)
    requires
        endpoint.inflight > 0,
    ensures
        ({
            let after = endpoint.abandoned(now);
            &&& endpoint.inflight > 1 ==> after.feedback_epoch == endpoint.feedback_epoch
            &&& endpoint.inflight == 1 ==> after.feedback_epoch is None
            &&& after.latency == endpoint.latency
            &&& after.completed == endpoint.completed
            &&& after.inflight == endpoint.inflight - 1
        }),
{
}

/// Failures are counted and never raise the operating point, and none of them
/// is taken for a latency sample.
pub proof fn law_failures_only_penalize(
    endpoint: Endpoint,
    completion: Completion,
    sent_at: Instant,
    was_paced: bool,
    now: Instant,
)
    requires
        endpoint.gradient.wf(),
        endpoint.inflight > 0,
        endpoint.countable(),
        completion != Completion::Success,
    ensures
        ({
            let after = endpoint.finished(completion, sent_at, was_paced, now);
            &&& after.latency == endpoint.latency
            &&& after.failures == endpoint.failures + 1
            &&& after.gradient.concurrency.bits <= endpoint.gradient.concurrency.bits
        }),
        ({
            let after = endpoint.admission_failed(now);
            &&& after.latency == endpoint.latency
            &&& after.failures == endpoint.failures + 1
            &&& after.inflight == endpoint.inflight
            &&& after.gradient.concurrency.bits <= endpoint.gradient.concurrency.bits
        }),
{
    crate::gradient::law_failure_never_raises(endpoint.gradient, now);
}

/// A finished request is measured from its dispatch: what happened before,
/// while it was queued, has no influence.
pub proof fn law_latency_is_measured_from_dispatch(
    endpoint: Endpoint,
    sent_at: Instant,
    was_paced: bool,
    now: Instant,
)
    ensures
        endpoint.finished(Completion::Success, sent_at, was_paced, now)
            == endpoint.completed_with(Outcome::Success, now.since(sent_at), was_paced, now),
        endpoint.finished(Completion::Success, sent_at, was_paced, now).latency
            == endpoint.latency.observed(now.since(sent_at), now),
{
}

/// Reading an endpoint's load or metrics reserves nothing and finishes nothing.
pub proof fn law_reading_reserves_nothing(endpoint: Endpoint, now: Instant)
    ensures
        ({
            let after = endpoint.refreshed(now);
            &&& after.pending.len() == endpoint.pending.len()
            &&& after.next_id == endpoint.next_id
            &&& after.inflight == endpoint.inflight
            &&& after.completed == endpoint.completed
            &&& after.failures == endpoint.failures
            &&& after.latency == endpoint.latency
            &&& after.gradient == endpoint.gradient
            &&& after.changes.admission == endpoint.changes.admission
        }),
{
    reveal(Endpoint::refreshed);
    crate::simulator::model::lemma_refresh_keeps(endpoint, now);
}

/// A change of the pacing interval is never silent: it asks queued requests to
/// look at their state again.
pub proof fn law_changed_pacing_wakes_the_queue(endpoint: Endpoint, now: Instant)
    ensures
        endpoint.refreshed(now).pacer.interval != endpoint.pacer.interval ==> endpoint.refreshed(
            now,
        ).changes.dispatch,
        endpoint.refreshed(now).recheck_at() != endpoint.recheck_at() ==> endpoint.refreshed(
            now,
        ).changes.dispatch,
        endpoint.changes.dispatch ==> endpoint.refreshed(now).changes.dispatch,
{
    reveal(Endpoint::refreshed);
}

/// The window forgets: once all of its buckets have passed, only the new
/// sample counts.
pub proof fn law_stale_samples_are_forgotten(
    latency: crate::latency::Latency,
    sample: Duration,
    now: Instant,
)
    requires
        latency.wf(),
        latency.started is None ==> latency.buckets == Seq::new(8, |i: int| None::<Double>),
        latency.started is Some ==> latency.steps(now) >= 8,
    ensures
        ({
            let value = sample.longer_of(latency.config.min_rtt).in_seconds();
            latency.observed(sample, now).baseline == Some(
                value.greater(latency.config.min_rtt.in_seconds()),
            )
        }),
{
    let value = sample.longer_of(latency.config.min_rtt).in_seconds();
    let moved = latency.advanced(now);
    let empty = Seq::new(8, |i: int| None::<Double>);
    let buckets = empty.update(moved.bucket as int, Some(value));
    assert(moved.buckets =~= empty);
    lemma_single_sample(buckets, moved.bucket as int, value);
}

/// The only sample that is there is the lowest one.
proof fn lemma_single_sample(samples: Seq<Option<Double>>, i: int, value: Double)
    requires
        0 <= i < samples.len(),
        samples[i] == Some(value),
        forall|j: int| 0 <= j < samples.len() && j != i ==> samples[j] is None,
    ensures
        crate::latency::lowest(samples) == Some(value),
    decreases samples.len(),
{
    let rest = samples.drop_last();
    if i == samples.len() - 1 {
        lemma_no_sample(rest);
    } else {
        lemma_single_sample(rest, i, value);
    }
}

proof fn lemma_no_sample(samples: Seq<Option<Double>>)
    requires
        forall|j: int| 0 <= j < samples.len() ==> samples[j] is None,
    ensures
        crate::latency::lowest(samples) is None,
    decreases samples.len(),
{
    if samples.len() > 0 {
        lemma_no_sample(samples.drop_last());
    }
}

/// No sample of the window is below the baseline, up to the smallest RTT that
/// is accepted.
pub proof fn law_baseline_is_a_minimum(
    latency: crate::latency::Latency,
    sample: Duration,
    now: Instant,
    i: int,
)
    requires
        latency.wf(),
        0 <= i < 8,
        latency.observed(sample, now).buckets[i] is Some,
    ensures
        ({
            let after = latency.observed(sample, now);
            let least = latency.config.min_rtt.in_seconds();
            after.baseline matches Some(baseline) && baseline.bits
                <= after.buckets[i].unwrap().greater(least).bits
        }),
{
    lemma_lowest(latency.observed(sample, now).buckets, i);
}

pub proof fn lemma_lowest(samples: Seq<Option<Double>>, i: int)
    requires
        0 <= i < samples.len(),
        samples[i] is Some,
    ensures
        crate::latency::lowest(samples) matches Some(least) && least.bits <= samples[i].unwrap().bits,
    decreases samples.len(),
{
    if i < samples.len() - 1 {
        lemma_lowest(samples.drop_last(), i);
    }
}

} // verus!
