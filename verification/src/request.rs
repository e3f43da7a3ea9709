//! The life of one request, from its reservation to its end.
//!
//! An adapter owns the waiting: it asks for the next step under its lock, waits
//! as the step says, and asks again. What each step does to the controller, and
//! which waiters it wakes, is decided here.

use crate::controller::{
    Completion, ControllerChanges, DispatchReservation, DispatchState, Endpoint,
    EndpointController, InFlightRequest,
};
use crate::time::Instant;
use crate::ScheduleError;
use vstd::prelude::*;

verus! {

/// Where a request is in its life.
pub enum RequestState {
    /// It holds a slot of the virtual queue.
    Queued(DispatchReservation),
    /// It was dispatched and awaits its end.
    InFlight(InFlightRequest),
    /// Its end was recorded.
    Finished,
}

/// What an adapter does next for a queued request.
#[derive(Clone, Copy, Debug, PartialEq, Eq, Structural)]
pub enum Step {
    /// The request may be sent now.
    Proceed,
    /// Ask again at this instant, or when dispatch waiters are woken.
    WaitUntil(Instant),
    /// Ask again when dispatch waiters are woken.
    WaitForChange,
    /// The reservation does not exist any more.
    Lost,
}

/// The step that a dispatch state asks for.
pub open spec fn step_for(state: DispatchState) -> Step {
    match state {
        DispatchState::Ready => Step::Proceed,
        DispatchState::WaitUntil(at) => Step::WaitUntil(at),
        DispatchState::WaitForPrevious => Step::WaitForChange,
        DispatchState::InflightLimit => Step::WaitForChange,
        DispatchState::Cancelled => Step::Lost,
    }
}

/// Returns the step that a dispatch state asks for.
pub fn to_step(state: DispatchState) -> (r: Step)
    ensures
        r == step_for(state),
{
    match state {
        DispatchState::Ready => Step::Proceed,
        DispatchState::WaitUntil(at) => Step::WaitUntil(at),
        DispatchState::WaitForPrevious => Step::WaitForChange,
        DispatchState::InflightLimit => Step::WaitForChange,
        DispatchState::Cancelled => Step::Lost,
    }
}

/// A controller whose wakeup effects were taken.
pub open spec fn drained(endpoint: Endpoint) -> Endpoint {
    Endpoint { changes: ControllerChanges::none(), ..endpoint }
}

/// Whether a state can be ended at a controller: a request that the controller
/// dispatched is one of those that it counts as inflight.
pub open spec fn endable(state: RequestState, endpoint: Endpoint) -> bool {
    state matches RequestState::InFlight(active) ==> active.owner() == endpoint.id
        ==> endpoint.inflight > 0 && endpoint.countable()
}

/// What becomes of a controller when a request in a given state ends: work in
/// flight is finished, a queued reservation is cancelled, and after the end
/// nothing is left to do.
pub open spec fn ended(
    before: Endpoint,
    state: RequestState,
    completion: Completion,
    now: Instant,
    after: Endpoint,
) -> bool {
    match state {
        RequestState::InFlight(active) => if active.owner() == before.id {
            after == before.finished(completion, active.sent_at(), active.paced(), now)
        } else {
            after == before
        },
        RequestState::Queued(reservation) => {
            &&& forall|i: int|
                #[trigger] before.queued_at(reservation, i) ==> after == before.dropped(i, now)
            &&& !before.holds(reservation) ==> after == before
        },
        RequestState::Finished => after == before,
    }
}

/// A request that owns its place at a controller.
pub struct PendingRequest {
    /// Where it is in its life.
    pub state: RequestState,
}

impl PendingRequest {
    /// Starts with a reservation.
    pub fn new(reservation: DispatchReservation) -> (r: PendingRequest)
        ensures
            r.state == RequestState::Queued(reservation),
    {
        PendingRequest { state: RequestState::Queued(reservation) }
    }

    /// Returns the reservation while the request is queued.
    pub fn reservation(&self) -> (r: Option<DispatchReservation>)
        ensures
            r == (match self.state {
                RequestState::Queued(reservation) => Some(reservation),
                _ => None,
            }),
    {
        match &self.state {
            RequestState::Queued(reservation) => Some(*reservation),
            RequestState::InFlight(_) => None,
            RequestState::Finished => None,
        }
    }

    /// Records that the controller has dispatched the request.
    pub fn mark_dispatched(&mut self, active: InFlightRequest)
        ensures
            final(self).state == RequestState::InFlight(active),
    {
        self.state = RequestState::InFlight(active);
    }

    /// Asks whether a queued request may proceed, without dispatching it.
    ///
    /// The head of the queue already observes its refreshed deadline, so the
    /// effects of the refresh are consumed; waking itself on each rate change
    /// would cause a busy loop.
    pub fn wait_until_dispatchable(&self, controller: &mut EndpointController, now: Instant) -> (r:
        Step)
        requires
            old(controller)@.wf(),
        ensures
            final(controller)@.wf(),
            match self.state {
                RequestState::Queued(reservation) => {
                    &&& r == step_for(old(controller)@.state_of(reservation, now))
                    &&& final(controller)@ == drained(old(controller)@.asked(reservation, now))
                },
                _ => r == Step::Lost && final(controller)@ == old(controller)@,
            },
    {
        match self.reservation() {
            Some(reservation) => {
                let state = controller.dispatch_state(reservation, now);
                let _ = controller.take_changes();
                to_step(state)
            },
            None => Step::Lost,
        }
    }

    /// Dispatches a queued request if its time has come.
    ///
    /// Returns the next step and the waiters to wake: those of a dispatch,
    /// which can make the next reservation eligible and leaves space in the
    /// queue, or those of the refresh that found the request too early.
    pub fn start(&mut self, controller: &mut EndpointController, now: Instant) -> (r: (
        Step,
        ControllerChanges,
    ))
        requires
            old(controller)@.wf(),
        ensures
            final(controller)@.wf(),
            match old(self).state {
                RequestState::Queued(reservation) => {
                    let state = old(controller)@.state_of(reservation, now);
                    let asked = old(controller)@.asked(reservation, now);
                    &&& r.0 == step_for(state)
                    &&& state == DispatchState::Ready ==> {
                        &&& final(controller)@ == drained(asked.dispatched(now))
                        &&& r.1 == (ControllerChanges { admission: true, dispatch: true })
                        &&& final(self).state matches RequestState::InFlight(active)
                            && active.owner() == old(controller)@.id && active.sent_at() == now
                            && active.paced() == old(controller)@.pending[0].was_paced
                    }
                    &&& state != DispatchState::Ready ==> {
                        &&& final(controller)@ == drained(asked)
                        &&& r.1 == asked.changes
                        &&& final(self).state == old(self).state
                    }
                },
                _ => {
                    &&& r == (Step::Lost, ControllerChanges::none())
                    &&& final(controller)@ == old(controller)@
                    &&& final(self).state == old(self).state
                },
            },
    {
        match self.reservation() {
            Some(reservation) => {
                match controller.on_dispatched(reservation, now) {
                    Ok(active) => {
                        self.mark_dispatched(active);
                        let changes = controller.take_changes();
                        (Step::Proceed, changes)
                    },
                    Err(state) => {
                        let changes = controller.take_changes();
                        (to_step(state), changes)
                    },
                }
            },
            None => (Step::Lost, ControllerChanges::default()),
        }
    }

    /// Dispatches a queued request if its time has come, without waking anyone
    /// where it has not.
    ///
    /// The head of the queue that asks already observes its refreshed deadline.
    /// Broadcasting the effects of its own refresh would wake it in a loop, so
    /// only a dispatch wakes others.
    pub fn dispatch(&mut self, controller: &mut EndpointController, now: Instant) -> (r: (
        Step,
        ControllerChanges,
    ))
        requires
            old(controller)@.wf(),
        ensures
            final(controller)@.wf(),
            match old(self).state {
                RequestState::Queued(reservation) => {
                    let state = old(controller)@.state_of(reservation, now);
                    let asked = old(controller)@.asked(reservation, now);
                    &&& r.0 == step_for(state)
                    &&& state == DispatchState::Ready ==> {
                        &&& final(controller)@ == drained(asked.dispatched(now))
                        &&& r.1 == (ControllerChanges { admission: true, dispatch: true })
                        &&& final(self).state matches RequestState::InFlight(active)
                            && active.owner() == old(controller)@.id && active.sent_at() == now
                            && active.paced() == old(controller)@.pending[0].was_paced
                    }
                    &&& state != DispatchState::Ready ==> {
                        &&& final(controller)@ == drained(asked)
                        &&& r.1 == ControllerChanges::none()
                        &&& final(self).state == old(self).state
                    }
                },
                _ => {
                    &&& r == (Step::Lost, ControllerChanges::none())
                    &&& final(controller)@ == old(controller)@
                    &&& final(self).state == old(self).state
                },
            },
    {
        let (step, changes) = self.start(controller, now);
        match step {
            Step::Proceed => (step, changes),
            _ => (step, ControllerChanges::default()),
        }
    }

    /// Ends the request and returns the waiters to wake. A second end changes
    /// nothing.
    pub fn finish(
        &mut self,
        controller: &mut EndpointController,
        completion: Completion,
        now: Instant,
    ) -> (r: ControllerChanges)
        requires
            old(controller)@.wf(),
            endable(old(self).state, old(controller)@),
        ensures
            final(controller)@.wf(),
            final(self).state == RequestState::Finished,
            old(self).state == RequestState::Finished ==> {
                &&& r == ControllerChanges::none()
                &&& final(controller)@ == old(controller)@
            },
            old(self).state != RequestState::Finished ==> ended(
                old(controller)@,
                old(self).state,
                completion,
                now,
                (Endpoint { changes: r, ..final(controller)@ }),
            ) && final(controller)@.changes == ControllerChanges::none(),
    {
        let mut state = RequestState::Finished;
        std::mem::swap(&mut state, &mut self.state);
        match state {
            RequestState::InFlight(active) => {
                let _ = controller.finish(active, completion, now);
            },
            RequestState::Queued(reservation) => {
                let _ = controller.cancel(reservation, now);
            },
            RequestState::Finished => {
                return ControllerChanges::default();
            },
        }
        let ghost after = controller@;
        let changes = controller.take_changes();
        assert((Endpoint { changes, ..controller@ }) == after);
        changes
    }
}

/// How a finished response is classified.
pub fn completion_of(healthy: bool) -> (r: Completion)
    ensures
        r == (if healthy {
            Completion::Success
        } else {
            Completion::Failure
        }),
{
    if healthy {
        Completion::Success
    } else {
        Completion::Failure
    }
}

/// Brings a controller up to date, makes one reservation, and returns the
/// waiters to wake.
pub fn reserve_single(controller: &mut EndpointController, now: Instant) -> (r: (
    Result<DispatchReservation, ScheduleError>,
    ControllerChanges,
))
    requires
        old(controller)@.wf(),
    ensures
        final(controller)@.wf(),
        ({
            let fresh = old(controller)@.refreshed(now);
            &&& r.1 == fresh.changes
            &&& r.0 is Ok <==> crate::p2c::accepts(fresh)
            &&& r.0 matches Ok(token) ==> {
                &&& token.owner() == fresh.id
                &&& token.number() == fresh.next_id
                &&& final(controller)@ == drained(fresh.reserved(now))
            }
            &&& r.0 matches Err(error) ==> {
                &&& error == crate::p2c::refusal(fresh)
                &&& final(controller)@ == drained(fresh)
            }
        }),
{
    controller.refresh(now);
    let result = controller.reserve(now);
    let changes = controller.take_changes();
    (result, changes)
}

/// Ending a request twice is the same as ending it once.
pub proof fn law_a_request_ends_once(
    before: Endpoint,
    state: RequestState,
    first: Completion,
    second: Completion,
    now: Instant,
    later: Instant,
    after: Endpoint,
    again: Endpoint,
)
    requires
        ended(before, state, first, now, after),
        ended(after, RequestState::Finished, second, later, again),
    ensures
        again == after,
{
}

/// A request that is dropped while it is queued gives its slot back: the queue
/// is one shorter and nothing counts as failed.
pub proof fn law_dropped_requests_release_their_slot(
    before: Endpoint,
    reservation: DispatchReservation,
    completion: Completion,
    now: Instant,
    after: Endpoint,
)
    requires
        before.holds(reservation),
        ended(before, RequestState::Queued(reservation), completion, now, after),
    ensures
        after.pending.len() == before.pending.len() - 1,
        after.changes.admission,
        after.changes.dispatch,
        after.failures == before.failures,
        after.gradient == before.gradient,
        after.inflight == before.inflight,
{
    let i = choose|i: int| before.queued_at(reservation, i);
    assert(before.queued_at(reservation, i));
}

/// A reservation that is in the queue is never lost: it may proceed, or it is
/// told to wait. Only a request without a reservation in the queue is told that
/// it is lost.
pub proof fn law_only_missing_reservations_are_lost(
    endpoint: Endpoint,
    reservation: DispatchReservation,
    now: Instant,
)
    ensures
        step_for(endpoint.state_of(reservation, now)) == Step::Lost <==> !(reservation.owner()
            == endpoint.id && exists|i: int|
            0 <= i < endpoint.pending.len() && (#[trigger] endpoint.pending[i]).id
                == reservation.number()),
        endpoint.holds(reservation) ==> {
            let step = step_for(endpoint.state_of(reservation, now));
            step == Step::Proceed || step is WaitUntil || step == Step::WaitForChange
        },
{
    if reservation.owner() == endpoint.id && exists|i: int|
        0 <= i < endpoint.pending.len() && (#[trigger] endpoint.pending[i]).id
            == reservation.number() {
        let i = choose|i: int|
            0 <= i < endpoint.pending.len() && (#[trigger] endpoint.pending[i]).id
                == reservation.number();
        assert(endpoint.queued_at(reservation, i));
    }
    if endpoint.holds(reservation) {
        let i = choose|i: int| endpoint.queued_at(reservation, i);
        assert(endpoint.pending[i].id == reservation.number());
    }
}

/// What the head of the queue is told: to wait for a change while as many
/// requests are inflight as are allowed at all, to wait for its slot where that
/// lies ahead, at the latest until then, and to proceed otherwise.
pub proof fn law_the_head_waits_for_capacity_and_its_slot(
    endpoint: Endpoint,
    reservation: DispatchReservation,
    now: Instant,
)
    requires
        endpoint.pending.len() > 0,
        reservation.owner() == endpoint.id,
        endpoint.pending[0].id == reservation.number(),
    ensures
        ({
            let step = step_for(endpoint.state_of(reservation, now));
            let slot = endpoint.refreshed(now).pending[0].scheduled_at;
            &&& step == Step::WaitForChange <==> endpoint.inflight >= endpoint.config.max_inflight
            &&& step == Step::Proceed <==> endpoint.inflight < endpoint.config.max_inflight
                && slot.nanos <= now.nanos
            &&& step is WaitUntil <==> endpoint.inflight < endpoint.config.max_inflight
                && slot.nanos > now.nanos
            &&& step matches Step::WaitUntil(at) ==> at.nanos <= slot.nanos
        }),
{
    crate::simulator::model::lemma_refresh_keeps(endpoint, now);
    assert(endpoint.queued_at(reservation, 0));
}

/// Whoever is queued behind another is told to wait for a change, whatever the
/// time.
pub proof fn law_followers_wait_for_the_head(
    endpoint: Endpoint,
    reservation: DispatchReservation,
    i: int,
    now: Instant,
)
    requires
        0 < i < endpoint.pending.len(),
        reservation.owner() == endpoint.id,
        endpoint.pending[i].id == reservation.number(),
        endpoint.pending[0].id != reservation.number(),
    ensures
        step_for(endpoint.state_of(reservation, now)) == Step::WaitForChange,
        endpoint.asked(reservation, now) == endpoint,
{
    assert(endpoint.queued_at(reservation, i));
}

/// Taking the effects of a controller takes nothing else.
pub proof fn law_draining_takes_effects_alone(endpoint: Endpoint)
    ensures
        !drained(endpoint).changes.admission,
        !drained(endpoint).changes.dispatch,
        drained(endpoint).tallies_like(endpoint),
        drained(endpoint).pending == endpoint.pending,
        drained(endpoint).pacer == endpoint.pacer,
        drained(endpoint).probe == endpoint.probe,
        drained(endpoint).feedback_epoch == endpoint.feedback_epoch,
        drained(endpoint).words == endpoint.words,
        drained(endpoint).tuning == endpoint.tuning,
{
}

/// What the end of a request does: one that was sent leaves the inflight
/// requests, one that is queued leaves the queue alone, and a recorded end
/// changes nothing.
pub proof fn law_ends_release_what_was_held(
    before: Endpoint,
    state: RequestState,
    completion: Completion,
    now: Instant,
    after: Endpoint,
)
    requires
        ended(before, state, completion, now, after),
        endable(state, before),
    ensures
        state matches RequestState::InFlight(active) ==> (active.owner() == before.id ==> {
            &&& after.inflight == before.inflight - 1
            &&& after.pending.len() == before.pending.len()
            &&& after.changes.dispatch
            &&& after.completed == before.completed + if completion == Completion::Abandoned {
                0int
            } else {
                1int
            }
            &&& after.failures == before.failures + if completion == Completion::Success {
                0int
            } else {
                1int
            }
            &&& completion == Completion::Success && active.sent_at().nanos <= now.nanos
                <= active.sent_at().nanos + crate::time::MAX_NANOS ==> after.latency
                == before.latency.observed(
                crate::time::Duration { nanos: (now.nanos - active.sent_at().nanos) as u128 },
                now,
            )
            &&& completion != Completion::Success ==> after.latency == before.latency
        }),
        state matches RequestState::Queued(token) && before.holds(token) ==> {
            &&& after.inflight == before.inflight
            &&& after.pending.len() == before.pending.len() - 1
        },
        state == RequestState::Finished ==> after == before,
{
    if let RequestState::Queued(token) = state {
        if before.holds(token) {
            let i = choose|i: int| before.queued_at(token, i);
            assert(before.queued_at(token, i));
        }
    }
}

/// The head of the queue waits for its slot, or for the next change of the rate
/// where that comes first: the end of the active probe, or without one the next
/// probe decision, which is made before the first sample only while requests are
/// inflight.
pub proof fn law_waits_end_with_a_slot_or_a_probe(
    endpoint: Endpoint,
    reservation: DispatchReservation,
    now: Instant,
)
    requires
        endpoint.queued_at(reservation, 0),
    ensures
        ({
            let fresh = endpoint.refreshed(now);
            let slot = fresh.pending[0].scheduled_at.nanos as int;
            let decides = fresh.latency.samples > 0 || fresh.inflight > 0;
            step_for(endpoint.state_of(reservation, now)) matches Step::WaitUntil(at)
                ==> at.nanos == match (fresh.probe.active, fresh.probe.next_probe_at) {
                (Some(probe), _) => crate::routing::minimum(slot, probe.until.nanos as int),
                (None, Some(next)) if decides => crate::routing::minimum(slot, next.nanos as int),
                _ => slot,
            }
        }),
{
    crate::simulator::model::lemma_refresh_keeps(endpoint, now);
}

} // verus!
