//! Comparison and bounded reservation for two caller-sampled endpoints.

use crate::controller::{
    ControllerChanges, DispatchReservation, Endpoint, EndpointController,
};
use crate::entropy::thread_index;
use crate::time::Instant;
use crate::ScheduleError;
use vstd::prelude::*;

verus! {

/// Identifies the selected argument to [`reserve_pair`].
#[derive(Clone, Copy, Debug, PartialEq, Eq, Structural)]
pub enum PairChoice {
    /// The first controller supplied by the caller.
    First,
    /// The second controller supplied by the caller.
    Second,
}

/// Whether an endpoint would take one more reservation.
pub open spec fn accepts(endpoint: Endpoint) -> bool {
    endpoint.has_space() && endpoint.next_id < u64::MAX
}

/// Why an endpoint does not take one more reservation.
pub open spec fn refusal(endpoint: Endpoint) -> ScheduleError {
    if endpoint.has_space() {
        ScheduleError::IdExhausted
    } else {
        ScheduleError::QueueFull
    }
}

/// The endpoint with the lower load, the first one on equal loads.
pub open spec fn cheaper(first: Endpoint, second: Endpoint, now: Instant) -> PairChoice {
    if first.load(now).bits <= second.load(now).bits {
        PairChoice::First
    } else {
        PairChoice::Second
    }
}

/// The endpoint that takes the reservation: the cheaper one, the other one
/// where that refuses, and none where both refuse.
pub open spec fn selected(first: Endpoint, second: Endpoint, now: Instant) -> Option<PairChoice> {
    match cheaper(first, second, now) {
        PairChoice::First => if accepts(first) {
            Some(PairChoice::First)
        } else if accepts(second) {
            Some(PairChoice::Second)
        } else {
            None
        },
        PairChoice::Second => if accepts(second) {
            Some(PairChoice::Second)
        } else if accepts(first) {
            Some(PairChoice::First)
        } else {
            None
        },
    }
}

/// Reserves the cheaper of two endpoints, falling back to the other if needed.
///
/// Both loads are refreshed at `now`; equal costs prefer `first`. A successful
/// call reserves exactly one slot. The returned token belongs to the controller
/// identified by [`PairChoice`] and must be dispatched or cancelled there.
///
/// The caller owns sampling, endpoint identity, and synchronization. Sample two
/// distinct endpoints, acquire locks in a consistent order, then pass arguments
/// in sampled order to avoid biasing ties toward lock order. For a single
/// endpoint, use [`EndpointController::reserve`] directly.
///
/// This function leaves wakeup effects on **both** controllers, including when
/// neither accepts work. Drain their [`EndpointController::take_changes`] under
/// the locks and deliver notifications after releasing both locks.
///
/// # Errors
///
/// If both reservations fail, returns the fallback endpoint's scheduling error.
/// Rejection describes these two candidates, not the rest of the endpoint pool.
pub fn reserve_pair(
    first: &mut EndpointController,
    second: &mut EndpointController,
    now: Instant,
) -> (r: Result<(PairChoice, DispatchReservation), ScheduleError>)
    requires
        old(first)@.wf(),
        old(second)@.wf(),
    ensures
        final(first)@.wf(),
        final(second)@.wf(),
        ({
            let one = old(first)@.refreshed(now);
            let two = old(second)@.refreshed(now);
            match selected(one, two, now) {
                Some(PairChoice::First) => {
                    &&& r matches Ok((choice, token)) && choice == PairChoice::First
                        && token.owner() == one.id && token.number() == one.next_id
                    &&& final(first)@ == one.reserved(now)
                    &&& final(second)@ == two
                },
                Some(PairChoice::Second) => {
                    &&& r matches Ok((choice, token)) && choice == PairChoice::Second
                        && token.owner() == two.id && token.number() == two.next_id
                    &&& final(first)@ == one
                    &&& final(second)@ == two.reserved(now)
                },
                None => {
                    &&& r == Err::<(PairChoice, DispatchReservation), ScheduleError>(
                        match cheaper(one, two, now) {
                            PairChoice::First => refusal(two),
                            PairChoice::Second => refusal(one),
                        },
                    )
                    &&& final(first)@ == one
                    &&& final(second)@ == two
                },
            }
        }),
{
    let first_load = first.load(now);
    let second_load = second.load(now);
    if first_load.bits <= second_load.bits {
        if let Ok(reservation) = first.reserve(now) {
            return Ok((PairChoice::First, reservation));
        }
        match second.reserve(now) {
            Ok(reservation) => Ok((PairChoice::Second, reservation)),
            Err(error) => Err(error),
        }
    } else {
        if let Ok(reservation) = second.reserve(now) {
            return Ok((PairChoice::Second, reservation));
        }
        match first.reserve(now) {
            Ok(reservation) => Ok((PairChoice::First, reservation)),
            Err(error) => Err(error),
        }
    }
}

/// Turns a draw from the places that are left beside the first one into a
/// place, so that two samples are distinct.
pub fn distinct_second(first: usize, draw: usize) -> (r: usize)
    requires
        draw < usize::MAX,
    ensures
        r == (if draw >= first {
            draw + 1
        } else {
            draw as int
        }),
        r != first,
{
    if draw >= first {
        draw + 1
    } else {
        draw
    }
}

/// Samples two distinct places below a bound.
pub fn sample_pair(bound: usize) -> (r: (usize, usize))
    requires
        bound >= 2,
    ensures
        r.0 < bound,
        r.1 < bound,
        r.0 != r.1,
{
    let first: usize = thread_index(bound);
    let draw: usize = thread_index(bound - 1);
    (first, distinct_second(first, draw))
}

/// What a reservation at one of two endpoints comes to.
pub struct PairOutcome {
    /// The chosen sample and its token, or why both refused.
    pub result: Result<(PairChoice, DispatchReservation), ScheduleError>,
    /// The waiters to wake at the first sample.
    pub first_changes: ControllerChanges,
    /// The waiters to wake at the second sample.
    pub second_changes: ControllerChanges,
}

/// Reserves the cheaper of two samples whose controllers are given in the order
/// in which they were locked, and takes the effects of both.
///
/// `first_is_lower` tells whether the first sample is the one that was locked
/// first. The result is that of [`reserve_pair`] in sampled order: lock order
/// has no influence on it.
pub fn reserve_locked(
    lower: &mut EndpointController,
    upper: &mut EndpointController,
    first_is_lower: bool,
    now: Instant,
) -> (r: PairOutcome)
    requires
        old(lower)@.wf(),
        old(upper)@.wf(),
    ensures
        final(lower)@.wf(),
        final(upper)@.wf(),
        ({
            let (first, second) = if first_is_lower {
                (old(lower)@.refreshed(now), old(upper)@.refreshed(now))
            } else {
                (old(upper)@.refreshed(now), old(lower)@.refreshed(now))
            };
            let (first_after, second_after) = if first_is_lower {
                (final(lower)@, final(upper)@)
            } else {
                (final(upper)@, final(lower)@)
            };
            &&& r.first_changes == first.changes
            &&& r.second_changes == second.changes
            &&& match selected(first, second, now) {
                Some(PairChoice::First) => {
                    &&& r.result matches Ok((choice, token)) && choice == PairChoice::First
                        && token.owner() == first.id && token.number() == first.next_id
                    &&& first_after == crate::request::drained(first.reserved(now))
                    &&& second_after == crate::request::drained(second)
                },
                Some(PairChoice::Second) => {
                    &&& r.result matches Ok((choice, token)) && choice == PairChoice::Second
                        && token.owner() == second.id && token.number() == second.next_id
                    &&& first_after == crate::request::drained(first)
                    &&& second_after == crate::request::drained(second.reserved(now))
                },
                None => {
                    &&& r.result == Err::<(PairChoice, DispatchReservation), ScheduleError>(
                        match cheaper(first, second, now) {
                            PairChoice::First => refusal(second),
                            PairChoice::Second => refusal(first),
                        },
                    )
                    &&& first_after == crate::request::drained(first)
                    &&& second_after == crate::request::drained(second)
                },
            }
        }),
{
    let result = if first_is_lower {
        reserve_pair(lower, upper, now)
    } else {
        reserve_pair(upper, lower, now)
    };
    let lower_changes = lower.take_changes();
    let upper_changes = upper.take_changes();
    if first_is_lower {
        PairOutcome { result, first_changes: lower_changes, second_changes: upper_changes }
    } else {
        PairOutcome { result, first_changes: upper_changes, second_changes: lower_changes }
    }
}

/// A successful call makes exactly one reservation, at the chosen endpoint.
pub proof fn law_only_the_chosen_endpoint_gains(first: Endpoint, second: Endpoint, now: Instant)
    ensures
        match selected(first, second, now) {
            Some(PairChoice::First) => {
                &&& accepts(first)
                &&& first.reserved(now).pending.len() == first.pending.len() + 1
            },
            Some(PairChoice::Second) => {
                &&& accepts(second)
                &&& second.reserved(now).pending.len() == second.pending.len() + 1
            },
            None => !accepts(first) && !accepts(second),
        },
{
}

/// Where both endpoints accept, the lower load wins in either order of the
/// arguments, and equal loads go to the first argument.
pub proof fn law_lower_load_wins(first: Endpoint, second: Endpoint, now: Instant)
    requires
        accepts(first),
        accepts(second),
    ensures
        first.load(now).bits < second.load(now).bits ==> {
            &&& selected(first, second, now) == Some(PairChoice::First)
            &&& selected(second, first, now) == Some(PairChoice::Second)
        },
        first.load(now) == second.load(now) ==> {
            &&& selected(first, second, now) == Some(PairChoice::First)
            &&& selected(second, first, now) == Some(PairChoice::First)
        },
{
}

} // verus!
