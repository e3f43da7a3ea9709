//! What routing by predicted completion promises.
//!
//! The prediction of an endpoint is made of what its snapshot shows: the slots
//! that are taken, and the RTT that was learned from responses. Of two
//! endpoints the one that is predicted to answer earlier gets the request.

use crate::controller::Endpoint;
use crate::latency::Latency;
use crate::p2c::{accepts, refusal, selected, PairChoice};
use crate::time::{Instant, MAX_NANOS};
use crate::ScheduleError;
use vstd::arithmetic::power2::pow2;
use vstd::prelude::*;

verus! {

/// The larger of two numbers.
pub open spec fn maximum(a: int, b: int) -> int {
    if a >= b {
        a
    } else {
        b
    }
}

/// The smaller of two numbers.
pub open spec fn minimum(a: int, b: int) -> int {
    if a <= b {
        a
    } else {
        b
    }
}

/// A point in time as a number, at most the last one there is.
pub open spec fn at_most_last(nanos: int) -> int {
    minimum(nanos, u128::MAX as int)
}

/// When one more request could be dispatched: an interval after the last slot
/// that is taken, or when the pacer allows it where none is, and not before
/// `now`.
pub open spec fn vacancy(endpoint: Endpoint, now: Instant) -> int {
    if endpoint.pending.len() == 0 {
        maximum(endpoint.pacer.tat.nanos as int, now.nanos as int)
    } else {
        maximum(
            at_most_last(
                endpoint.pending[endpoint.pending.len() - 1].scheduled_at.nanos
                    + endpoint.pacer.interval.nanos,
            ),
            now.nanos as int,
        )
    }
}

/// The expected RTT is the learned long-term average, read to the nearest
/// nanosecond; only an average below the smallest accepted RTT counts as that.
/// The initial estimate has no part in it.
pub proof fn law_expected_rtt_is_learned(latency: Latency)
    ensures
        ({
            let expected = latency.expected_rtt().nanos;
            let least = latency.config.min_rtt.in_seconds().units();
            let learned = maximum(latency.long.units() as int, least as int) * 1_000_000_000;
            let nanosecond = pow2(1074);
            &&& expected <= MAX_NANOS
            &&& 2 * (expected * nanosecond) <= 2 * learned + nanosecond
            &&& expected < MAX_NANOS ==> 2 * learned <= 2 * (expected * nanosecond) + nanosecond
        }),
{
    let least = latency.config.min_rtt.in_seconds();
    crate::double::lemma_order(latency.long, least);
    crate::double::lemma_order(least, latency.long);
    let larger = latency.long.greater(least);
    vstd::arithmetic::power2::lemma_pow2_pos(1074);
    crate::precision::lemma_rounded(larger.units() * 1_000_000_000, pow2(1074));
    let exact = crate::double::rounded(larger.units() * 1_000_000_000, pow2(1074)) as int;
    let expected = latency.expected_rtt().nanos as int;
    let p = pow2(1074) as int;
    assert(expected * p <= exact * p) by (nonlinear_arith)
        requires
            expected <= exact,
            p > 0,
    ;
}

/// Two estimators that learned the same long-term average expect the same RTT,
/// whatever they were started with.
pub proof fn law_initial_estimates_do_not_linger(a: Latency, b: Latency)
    requires
        a.long == b.long,
        a.config.min_rtt == b.config.min_rtt,
    ensures
        a.expected_rtt() == b.expected_rtt(),
{
}

/// A prediction is the next free slot plus the expected RTT that the snapshot
/// shows.
pub proof fn law_prediction_adds_the_expected_rtt(endpoint: Endpoint, now: Instant)
    ensures
        endpoint.predicted_completion(now).nanos == at_most_last(
            vacancy(endpoint, now) + endpoint.pictured(now).expected_rtt.nanos,
        ),
        endpoint.pictured(now).expected_rtt == endpoint.latency.expected_rtt(),
{
}

/// With the same queue and the same pacer, predictions differ by what the
/// expected RTTs differ by.
pub proof fn law_predictions_follow_the_learned_rtt(a: Endpoint, b: Endpoint, now: Instant)
    requires
        a.pending == b.pending,
        a.pacer == b.pacer,
        vacancy(a, now) + 2 * MAX_NANOS <= u128::MAX,
    ensures
        a.predicted_completion(now).nanos - b.predicted_completion(now).nanos
            == a.latency.expected_rtt().nanos - b.latency.expected_rtt().nanos,
{
    law_expected_rtt_is_learned(a.latency);
    law_expected_rtt_is_learned(b.latency);
}

/// An idle endpoint is predicted to answer after its expected RTT: that is its
/// load.
pub proof fn law_idle_load_is_the_expected_rtt(endpoint: Endpoint, now: Instant)
    requires
        endpoint.pending.len() == 0,
        endpoint.pacer.tat.nanos <= now.nanos,
        now.nanos + MAX_NANOS <= u128::MAX,
    ensures
        endpoint.predicted_completion(now).nanos == now.nanos
            + endpoint.latency.expected_rtt().nanos,
        endpoint.load(now) == endpoint.pictured(now).expected_rtt.in_seconds(),
{
    law_expected_rtt_is_learned(endpoint.latency);
    let rtt = endpoint.latency.expected_rtt();
    assert(endpoint.predicted_completion(now).since(now) == rtt);
}

/// The load is the time until the predicted completion, in seconds.
pub proof fn law_load_is_the_time_to_completion(endpoint: Endpoint, now: Instant)
    requires
        endpoint.predicted_completion(now).nanos <= now.nanos + MAX_NANOS,
    ensures
        endpoint.predicted_completion(now).nanos >= now.nanos,
        endpoint.load(now) == (crate::time::Duration {
            nanos: (endpoint.predicted_completion(now).nanos - now.nanos) as u128,
        }).in_seconds(),
{
}

/// One more queued request puts the prediction off by an interval.
pub proof fn law_queued_work_delays_the_prediction(endpoint: Endpoint, now: Instant)
    requires
        vacancy(endpoint, now) + endpoint.pacer.interval.nanos + MAX_NANOS <= u128::MAX,
    ensures
        endpoint.reserved(now).predicted_completion(now).nanos
            == endpoint.predicted_completion(now).nanos + endpoint.pacer.interval.nanos,
{
    law_expected_rtt_is_learned(endpoint.latency);
    let after = endpoint.reserved(now);
    assert(after.pending[after.pending.len() - 1].scheduled_at.nanos == vacancy(endpoint, now));
}

/// Whether a delay is resolved to the nanosecond as a number of seconds.
pub open spec fn resolved(endpoint: Endpoint, now: Instant) -> bool {
    endpoint.predicted_completion(now).nanos - now.nanos < crate::samples::RESOLVED_NANOS
}

/// Of two endpoints that both take a request, the one that is predicted to
/// complete it earlier gets it, in whichever order they are given.
pub proof fn law_earlier_completion_wins(first: Endpoint, second: Endpoint, now: Instant)
    requires
        accepts(first),
        accepts(second),
        first.predicted_completion(now).nanos < second.predicted_completion(now).nanos,
        resolved(second, now),
    ensures
        selected(first, second, now) == Some(PairChoice::First),
        selected(second, first, now) == Some(PairChoice::Second),
{
    let a = first.predicted_completion(now).since(now);
    let b = second.predicted_completion(now).since(now);
    assert(a.nanos < b.nanos);
    crate::precision::lemma_seconds_monotone(a, b);
    crate::samples::law_seconds_are_read_back(a);
    crate::samples::law_seconds_are_read_back(b);
}

/// An endpoint is passed over only where it refuses or the other one is
/// predicted to be no later, and a request is refused only where both refuse,
/// with the reason of one of them.
pub proof fn law_choices_have_a_reason(first: Endpoint, second: Endpoint, now: Instant)
    ensures
        selected(first, second, now) == Some(PairChoice::First) ==> accepts(first) && (!accepts(
            second,
        ) || first.load(now).bits <= second.load(now).bits),
        selected(first, second, now) == Some(PairChoice::Second) ==> accepts(second) && (!accepts(
            first,
        ) || second.load(now).bits < first.load(now).bits),
        selected(first, second, now) is None <==> !accepts(first) && !accepts(second),
        accepts(first) <==> first.pending.len() < first.config.queue_capacity && first.next_id
            < u64::MAX,
        refusal(first) == ScheduleError::QueueFull <==> first.pending.len()
            >= first.config.queue_capacity,
{
}

} // verus!
