//! Readiness and closure of one endpoint that fronts an inner service.
//!
//! Requests are admitted while the controller has space. When the inner service
//! fails to become ready, admission is closed for good: requests that are queued
//! and those that come later are told of the failure.

use crate::controller::{
    ControllerChanges, ControllerSnapshot, Endpoint, EndpointConfig, EndpointController,
};
use crate::double::Double;
use crate::history::{Call, Operation};
use crate::request::{PendingRequest, RequestState, Step};
use crate::time::Instant;
use crate::ScheduleError;
use vstd::prelude::*;

verus! {

/// A comparable predicted completion cost for endpoint selection.
///
/// Lower values are better. The value is measured in seconds from the moment
/// the metric was read and includes the endpoint's expected RTT.
#[derive(Clone, Copy, Debug, PartialEq, Eq, PartialOrd, Ord, Structural)]
pub struct LoadMetric(pub Double);

impl LoadMetric {
    /// Returns the predicted completion cost in seconds.
    pub fn as_secs(self) -> (r: Double)
        ensures
            r == self.0,
    {
        self.0
    }
}

/// The answer to a task that asks whether a request may be made.
#[derive(Clone, Copy, Debug, PartialEq, Eq, Structural)]
pub enum Readiness {
    /// The inner service has failed.
    Closed,
    /// A request may be made. No task is registered any more.
    Ready,
    /// The queue is full. The asking task is registered, to be woken when a
    /// slot is released.
    Wait,
}

/// Why a request is not accepted.
#[derive(Clone, Copy, Debug, PartialEq, Eq, Structural)]
pub enum Refusal {
    /// The inner service has failed.
    Closed,
    /// The controller did not accept it.
    Schedule(ScheduleError),
}

/// A controller, the failure of its inner service, and the task that waits for
/// a slot.
#[verifier::ext_equal]
pub struct Admitting<E, W> {
    /// The controller.
    pub endpoint: Endpoint,
    /// The error with which the inner service has failed, if it has.
    pub failed: Option<E>,
    /// What wakes the task that waits for a slot, if one does.
    pub waker: Option<W>,
}

impl<E, W> Admitting<E, W> {
    /// The answer to a task that asks whether a request may be made.
    pub open spec fn readiness(self) -> Readiness {
        if self.failed is Some {
            Readiness::Closed
        } else if self.endpoint.has_space() {
            Readiness::Ready
        } else {
            Readiness::Wait
        }
    }

    /// Admission after a task asked whether a request may be made. It brings
    /// its waker where that is not the one that is registered.
    pub open spec fn polled(self, waker: Option<W>) -> Admitting<E, W> {
        match self.readiness() {
            Readiness::Closed => self,
            Readiness::Ready => Admitting { waker: None, ..self },
            Readiness::Wait => if waker is Some {
                Admitting { waker, ..self }
            } else {
                self
            },
        }
    }

    /// Why a request is refused, if it is.
    pub open spec fn refusal(self) -> Option<Refusal> {
        if self.failed is Some {
            Some(Refusal::Closed)
        } else if crate::p2c::accepts(self.endpoint) {
            None
        } else {
            Some(Refusal::Schedule(crate::p2c::refusal(self.endpoint)))
        }
    }

    /// Admission after a request was made.
    pub open spec fn called(self, now: Instant) -> Admitting<E, W> {
        if self.refusal() is Some {
            self
        } else {
            Admitting { endpoint: self.endpoint.reserved(now), ..self }
        }
    }

    /// What a request is told that asks whether it may proceed.
    pub open spec fn told(self, request: RequestState, now: Instant) -> Option<Step> {
        if self.failed is Some {
            None
        } else {
            match request {
                RequestState::Queued(reservation) => Some(
                    crate::request::step_for(self.endpoint.state_of(reservation, now)),
                ),
                _ => Some(Step::Lost),
            }
        }
    }

    /// Admission after a request asked whether it may proceed.
    pub open spec fn asked(self, request: RequestState, now: Instant) -> Admitting<E, W> {
        match request {
            RequestState::Queued(reservation) if self.failed is None => Admitting {
                endpoint: crate::request::drained(self.endpoint.asked(reservation, now)),
                ..self
            },
            _ => self,
        }
    }

    /// Admission after the inner service failed.
    pub open spec fn failing(self, error: E, now: Instant) -> Admitting<E, W> {
        Admitting {
            endpoint: crate::request::drained(self.endpoint.admission_failed(now)),
            failed: Some(error),
            waker: None,
        }
    }

    /// Admission after its controller was read.
    pub open spec fn read(self, now: Instant) -> Admitting<E, W> {
        Admitting { endpoint: crate::request::drained(self.endpoint.refreshed(now)), ..self }
    }

    /// The waker to call for some changes of the controller.
    pub open spec fn awaited(self, changes: ControllerChanges) -> Option<W> {
        if changes.admission {
            self.waker
        } else {
            None
        }
    }

    /// Admission after the waker for some changes was taken.
    pub open spec fn woken(self, changes: ControllerChanges) -> Admitting<E, W> {
        Admitting {
            waker: if changes.admission {
                None
            } else {
                self.waker
            },
            ..self
        }
    }
}

/// Admission to one endpoint whose inner service fails with an `E`, for tasks
/// that are woken by a `W`.
#[derive(Debug)]
pub struct Admission<E, W> {
    controller: EndpointController,
    failed: Option<E>,
    waker: Option<W>,
}

impl<E, W> View for Admission<E, W> {
    type V = Admitting<E, W>;

    closed spec fn view(&self) -> Admitting<E, W> {
        Admitting { endpoint: self.controller@, failed: self.failed, waker: self.waker }
    }
}

impl<E, W> Admission<E, W> {
    /// Opens admission with a fresh controller.
    pub fn new_at(config: EndpointConfig, now: Instant, controller_id: u64) -> (r: Admission<E, W>)
        requires
            config.valid(),
        ensures
            r@.failed is None,
            r@.waker is None,
            r@.endpoint == Endpoint::fresh(
                controller_id,
                config,
                config.tuned(),
                now,
                r@.endpoint.words,
            ),
            r@.endpoint.wf(),
    {
        Admission {
            controller: EndpointController::new(config, now, controller_id),
            failed: None,
            waker: None,
        }
    }

    /// Returns whether the inner service has failed.
    pub fn is_closed(&self) -> (r: bool)
        ensures
            r == (self@.failed is Some),
    {
        self.failed.is_some()
    }

    /// Returns the error with which the inner service has failed, if it has.
    pub fn failure(&self) -> (r: Option<&E>)
        ensures
            match r {
                Some(error) => self@.failed == Some(*error),
                None => self@.failed is None,
            },
    {
        match &self.failed {
            Some(error) => Some(error),
            None => None,
        }
    }

    /// Returns the waker of the task that waits for a slot, if one does.
    pub fn waker(&self) -> (r: Option<&W>)
        ensures
            match r {
                Some(waker) => self@.waker == Some(*waker),
                None => self@.waker is None,
            },
    {
        match &self.waker {
            Some(waker) => Some(waker),
            None => None,
        }
    }

    /// Returns whether a request may be made, and registers the asking task
    /// where it has to wait. The task brings its waker, or nothing where
    /// [`Self::waker`] wakes it already.
    pub fn poll_ready(&mut self, waker: Option<W>) -> (r: Readiness)
        ensures
            r == old(self)@.readiness(),
            final(self)@ == old(self)@.polled(waker),
    {
        if self.failed.is_some() {
            Readiness::Closed
        } else if self.controller.may_schedule() {
            self.waker = None;
            Readiness::Ready
        } else {
            if waker.is_some() {
                self.waker = waker;
            }
            Readiness::Wait
        }
    }

    /// Makes a request. A failure of the inner service can arrive after
    /// readiness was reported, so closure is observed before a slot is
    /// reserved.
    pub fn call(&mut self, now: Instant) -> (r: Result<PendingRequest, Refusal>)
        requires
            old(self)@.endpoint.wf(),
        ensures
            final(self)@.endpoint.wf(),
            final(self)@ == old(self)@.called(now),
            match r {
                Ok(request) => {
                    &&& old(self)@.refusal() is None
                    &&& request.state matches RequestState::Queued(token) && token.owner() == old(
                        self,
                    )@.endpoint.id && token.number() == old(self)@.endpoint.next_id
                },
                Err(refusal) => old(self)@.refusal() == Some(refusal),
            },
    {
        if self.failed.is_some() {
            return Err(Refusal::Closed);
        }
        match self.controller.reserve(now) {
            Ok(reservation) => Ok(PendingRequest::new(reservation)),
            Err(error) => Err(Refusal::Schedule(error)),
        }
    }

    /// Asks whether a queued request may proceed; `None` when the inner
    /// service has failed.
    pub fn wait_until_dispatchable(&mut self, request: &PendingRequest, now: Instant) -> (r: Option<
        Step,
    >)
        requires
            old(self)@.endpoint.wf(),
        ensures
            final(self)@.endpoint.wf(),
            r == old(self)@.told(request.state, now),
            final(self)@ == old(self)@.asked(request.state, now),
    {
        if self.failed.is_some() {
            return None;
        }
        Some(request.wait_until_dispatchable(&mut self.controller, now))
    }

    /// Records that the inner service failed to become ready: the endpoint is
    /// penalized and admission is closed. Returns the waker of the task that
    /// waits for a slot; all other waiters are to be woken too.
    pub fn close(&mut self, error: E, now: Instant) -> (r: Option<W>)
        requires
            old(self)@.endpoint.wf(),
            old(self)@.endpoint.countable(),
        ensures
            final(self)@.endpoint.wf(),
            final(self)@ == old(self)@.failing(error, now),
            r == old(self)@.waker,
    {
        self.failed = Some(error);
        self.controller.on_admission_failure(now);
        let _ = self.controller.take_changes();
        self.waker.take()
    }

    /// Returns whether every counter of the controller can take one more.
    pub fn can_count(&self) -> (r: bool)
        ensures
            r == self@.endpoint.countable(),
    {
        self.controller.can_count()
    }

    /// Gives access to the controller, for the steps of a request.
    pub fn controller(&mut self) -> (r: &mut EndpointController)
        ensures
            r@ == old(self)@.endpoint,
            final(self)@ == (Admitting { endpoint: final(r)@, ..old(self)@ }),
    {
        &mut self.controller
    }

    /// Takes the waker to call for some changes that were taken from the
    /// controller.
    pub fn take_waker(&mut self, changes: ControllerChanges) -> (r: Option<W>)
        ensures
            r == old(self)@.awaited(changes),
            final(self)@ == old(self)@.woken(changes),
    {
        if changes.admission {
            self.waker.take()
        } else {
            None
        }
    }

    /// Returns the endpoint's predicted completion cost, and the waiters to
    /// wake. Reading the metric refreshes time-driven controller state.
    pub fn load_metric(&mut self, now: Instant) -> (r: (LoadMetric, ControllerChanges))
        requires
            old(self)@.endpoint.wf(),
        ensures
            final(self)@.endpoint.wf(),
            final(self)@ == old(self)@.read(now),
            ({
                let fresh = old(self)@.endpoint.refreshed(now);
                &&& r.0 == LoadMetric(fresh.load(now))
                &&& r.1 == fresh.changes
            }),
    {
        let load = self.controller.load(now);
        let changes = self.controller.take_changes();
        (LoadMetric(load), changes)
    }

    /// Returns a snapshot of the controller, and the waiters to wake.
    pub fn snapshot(&mut self, now: Instant) -> (r: (ControllerSnapshot, ControllerChanges))
        requires
            old(self)@.endpoint.wf(),
        ensures
            final(self)@.endpoint.wf(),
            final(self)@ == old(self)@.read(now),
            ({
                let fresh = old(self)@.endpoint.refreshed(now);
                &&& r.0 == fresh.pictured(now)
                &&& r.1 == fresh.changes
            }),
    {
        let snapshot = self.controller.snapshot(now);
        let changes = self.controller.take_changes();
        (snapshot, changes)
    }
}

/// A step of admission, as it is taken under the lock of an endpoint.
pub enum AdmissionStep<E, W> {
    /// [`Admission::poll_ready`].
    Poll {
        /// The waker of the asking task, unless it is the registered one.
        waker: Option<W>,
    },
    /// [`Admission::call`].
    Call {
        /// When.
        now: Instant,
    },
    /// [`Admission::wait_until_dispatchable`].
    Ask {
        /// What the request is at.
        request: RequestState,
        /// When.
        now: Instant,
    },
    /// [`Admission::close`].
    Close {
        /// The error of the inner service.
        error: E,
        /// When.
        now: Instant,
    },
    /// An operation of the controller. Its changes are taken, and the waker for
    /// them is.
    Use {
        /// The operation.
        call: Call,
    },
}

impl<E, W> Admitting<E, W> {
    /// Whether a step can be taken: who brings no waker is registered, and a
    /// request that ends was dispatched.
    pub open spec fn allows(self, step: AdmissionStep<E, W>) -> bool {
        match step {
            AdmissionStep::Poll { waker } => waker is Some || self.waker is Some,
            AdmissionStep::Use { call } => call.fits(self.endpoint),
            _ => true,
        }
    }

    /// Admission after one step.
    pub open spec fn stepped(self, step: AdmissionStep<E, W>) -> Admitting<E, W> {
        match step {
            AdmissionStep::Poll { waker } => self.polled(waker),
            AdmissionStep::Call { now } => self.called(now),
            AdmissionStep::Ask { request, now } => self.asked(request, now),
            AdmissionStep::Close { error, now } => self.failing(error, now),
            AdmissionStep::Use { call } => {
                let used = call.made(self.endpoint);
                (Admitting { endpoint: crate::request::drained(used), ..self }).woken(used.changes)
            },
        }
    }

    /// What one step hands out to be woken.
    pub open spec fn wakes(self, step: AdmissionStep<E, W>) -> Option<W> {
        match step {
            AdmissionStep::Close { .. } => self.waker,
            AdmissionStep::Use { call } => self.awaited(call.made(self.endpoint).changes),
            _ => None,
        }
    }

    /// Admission after all steps.
    pub open spec fn after(self, steps: Seq<AdmissionStep<E, W>>) -> Admitting<E, W>
        decreases steps.len(),
    {
        if steps.len() == 0 {
            self
        } else {
            self.after(steps.drop_last()).stepped(steps.last())
        }
    }

    /// Whether all steps can be taken.
    pub open spec fn allows_all(self, steps: Seq<AdmissionStep<E, W>>) -> bool
        decreases steps.len(),
    {
        steps.len() > 0 ==> self.allows_all(steps.drop_last()) && self.after(
            steps.drop_last(),
        ).allows(steps.last())
    }
}

/// Admission is closed if and only if the inner service has failed, however
/// long ago: no step opens it again.
pub proof fn law_closure_is_final<E, W>(start: Admitting<E, W>, steps: Seq<AdmissionStep<E, W>>)
    ensures
        start.after(steps).failed is Some <==> start.failed is Some || exists|i: int|
            0 <= i < steps.len() && #[trigger] steps[i] is Close,
    decreases steps.len(),
{
    if steps.len() > 0 {
        let rest = steps.drop_last();
        law_closure_is_final(start, rest);
        if steps.last() is Close {
            assert(steps[steps.len() - 1] is Close);
        }
        if exists|i: int| 0 <= i < rest.len() && #[trigger] rest[i] is Close {
            let i = choose|i: int| 0 <= i < rest.len() && #[trigger] rest[i] is Close;
            assert(steps[i] is Close);
        }
        if exists|i: int| 0 <= i < steps.len() && #[trigger] steps[i] is Close {
            let i = choose|i: int| 0 <= i < steps.len() && #[trigger] steps[i] is Close;
            if i < rest.len() {
                assert(rest[i] is Close);
            }
        }
    }
}

/// Once the inner service has failed, every answer says so, whatever is done
/// from there on, and the error is the one with which it failed: readiness is
/// closed, requests are refused for it and leave no trace, and requests that
/// wait are told that it is over.
pub proof fn law_closed_admission_refuses<E, W>(
    start: Admitting<E, W>,
    steps: Seq<AdmissionStep<E, W>>,
    failure: int,
    waker: Option<W>,
    request: RequestState,
    now: Instant,
)
    requires
        0 <= failure < steps.len(),
        steps[failure] is Close,
        forall|i: int| failure < i < steps.len() ==> !(#[trigger] steps[i] is Close),
    ensures
        ({
            let admitting = start.after(steps);
            &&& admitting.failed == Some(steps[failure]->error)
            &&& admitting.readiness() == Readiness::Closed
            &&& admitting.polled(waker) == admitting
            &&& admitting.refusal() == Some(Refusal::Closed)
            &&& admitting.called(now) == admitting
            &&& admitting.told(request, now) is None
            &&& admitting.asked(request, now) == admitting
        }),
    decreases steps.len(),
{
    let rest = steps.drop_last();
    if failure < rest.len() {
        assert forall|i: int| failure < i < rest.len() implies !(#[trigger] rest[i] is Close) by {
            assert(!(steps[i] is Close));
        }
        law_closed_admission_refuses(start, rest, failure, waker, request, now);
        assert(!(steps[steps.len() - 1] is Close));
    }
}

/// Before the inner service fails, a request may be made exactly while fewer
/// requests are queued than the horizon holds, and asking reserves nothing.
pub proof fn law_readiness_is_space<E, W>(admitting: Admitting<E, W>, waker: Option<W>)
    requires
        admitting.failed is None,
    ensures
        admitting.readiness() == Readiness::Ready <==> admitting.endpoint.pending.len()
            < admitting.endpoint.config.queue_capacity,
        admitting.readiness() != Readiness::Ready ==> admitting.readiness() == Readiness::Wait,
        admitting.polled(waker).endpoint == admitting.endpoint,
{
}

/// Readiness that is reported holds until a step is taken: a request that
/// follows at once is accepted, unless the controller has no identity left.
pub proof fn law_reported_readiness_is_kept<E, W>(admitting: Admitting<E, W>)
    requires
        admitting.readiness() == Readiness::Ready,
    ensures
        admitting.refusal() is None || admitting.refusal() == Some(
            Refusal::Schedule(ScheduleError::IdExhausted),
        ),
{
}

/// A task that is told to wait is registered, and the step that releases a
/// slot, or closes admission, hands out its waker: while a task is registered,
/// admission is open and the queue is full.
pub proof fn law_waiting_tasks_are_not_forgotten<E, W>(
    start: Admitting<E, W>,
    steps: Seq<AdmissionStep<E, W>>,
)
    requires
        start.waker is None,
        start.allows_all(steps),
    ensures
        ({
            let admitting = start.after(steps);
            admitting.waker is Some ==> admitting.readiness() == Readiness::Wait
        }),
    decreases steps.len(),
{
    if steps.len() > 0 {
        let rest = steps.drop_last();
        law_waiting_tasks_are_not_forgotten(start, rest);
        let before = start.after(rest);
        match steps.last() {
            AdmissionStep::Ask { request, now } => {
                if let RequestState::Queued(token) = request {
                    let call = Call { operation: Operation::Ask(token), now };
                    crate::history::law_released_space_is_announced(before.endpoint, call);
                }
            },
            AdmissionStep::Use { call } => {
                crate::history::law_released_space_is_announced(before.endpoint, call);
            },
            _ => {},
        }
    }
}

/// A task is registered when it is told to wait, and stays so until its waker
/// is handed out or a task asks again.
pub proof fn law_registered_tasks_are_woken<E, W>(
    admitting: Admitting<E, W>,
    step: AdmissionStep<E, W>,
)
    requires
        admitting.allows(step),
    ensures
        step matches AdmissionStep::Poll { waker } ==> (admitting.readiness() == Readiness::Wait
            ==> admitting.stepped(step).waker is Some && (waker is Some ==> admitting.stepped(
            step,
        ).waker == waker)),
        step !is Poll && admitting.waker is Some ==> admitting.stepped(step).waker
            == admitting.waker || admitting.wakes(step) == admitting.waker,
{
}

/// A request is refused for the failure of the inner service, for a full queue,
/// or because the controller has no identity left, in this order, and otherwise
/// takes one slot. A refused one leaves no trace.
pub proof fn law_calls_take_one_slot<E, W>(admitting: Admitting<E, W>, now: Instant)
    ensures
        ({
            let endpoint = admitting.endpoint;
            let full = endpoint.pending.len() >= endpoint.config.queue_capacity;
            let spent = endpoint.next_id == u64::MAX;
            let refusal = admitting.refusal();
            let after = admitting.called(now);
            &&& refusal == Some(Refusal::Closed) <==> admitting.failed is Some
            &&& refusal == Some(Refusal::Schedule(ScheduleError::QueueFull)) <==> admitting.failed
                is None && full
            &&& refusal == Some(Refusal::Schedule(ScheduleError::IdExhausted))
                <==> admitting.failed is None && !full && spent
            &&& refusal is None <==> admitting.failed is None && !full && !spent
            &&& refusal is None ==> {
                &&& after.endpoint.pending.len() == endpoint.pending.len() + 1
                &&& after.endpoint.next_id == endpoint.next_id + 1
                &&& after.endpoint.inflight == endpoint.inflight
            }
            &&& refusal is Some ==> after == admitting
            &&& after.failed == admitting.failed
            &&& after.waker == admitting.waker
        }),
{
}

/// A failure of the inner service is a failure of the endpoint and closes
/// admission with its error. Requests in the queue and in flight stay, and nobody
/// is registered any more.
pub proof fn law_failures_close_admission<E, W>(
    admitting: Admitting<E, W>,
    error: E,
    now: Instant,
)
    requires
        admitting.endpoint.failures < u64::MAX,
    ensures
        ({
            let after = admitting.failing(error, now);
            &&& after.failed == Some(error)
            &&& after.waker is None
            &&& after.endpoint.failures == admitting.endpoint.failures + 1
            &&& after.endpoint.gradient == admitting.endpoint.gradient.failed(now)
            &&& after.endpoint.pending.len() == admitting.endpoint.pending.len()
            &&& after.endpoint.inflight == admitting.endpoint.inflight
            &&& after.endpoint.completed == admitting.endpoint.completed
            &&& !after.endpoint.changes.admission && !after.endpoint.changes.dispatch
        }),
{
}

/// A task that is told to go on is not registered any more, and asking changes
/// nothing else.
pub proof fn law_ready_tasks_are_not_registered<E, W>(
    admitting: Admitting<E, W>,
    waker: Option<W>,
)
    ensures
        ({
            let after = admitting.polled(waker);
            let full = admitting.endpoint.pending.len()
                >= admitting.endpoint.config.queue_capacity;
            &&& after.endpoint == admitting.endpoint
            &&& after.failed == admitting.failed
            &&& admitting.failed is None && !full ==> after.waker is None
            &&& admitting.failed is None && full && waker is Some ==> after.waker == waker
            &&& admitting.failed is None && full && waker is None ==> after.waker
                == admitting.waker
            &&& admitting.failed is Some ==> after.waker == admitting.waker
        }),
{
}

/// Only released space wakes a task that waits for a slot, and it is woken once.
pub proof fn law_released_space_wakes_once<E, W>(
    admitting: Admitting<E, W>,
    changes: ControllerChanges,
)
    ensures
        changes.admission ==> admitting.awaited(changes) == admitting.waker && admitting.woken(
            changes,
        ).waker is None,
        !changes.admission ==> admitting.awaited(changes) is None && admitting.woken(changes)
            == admitting,
        admitting.woken(changes).endpoint == admitting.endpoint,
        admitting.woken(changes).failed == admitting.failed,
{
}

/// What a request is told follows from its controller, as long as the inner
/// service has not failed: nothing else is.
pub proof fn law_requests_are_told_of_failures<E, W>(
    admitting: Admitting<E, W>,
    request: RequestState,
    now: Instant,
)
    ensures
        ({
            let told = admitting.told(request, now);
            let after = admitting.asked(request, now);
            &&& told is None <==> admitting.failed is Some
            &&& told is None ==> after == admitting
            &&& request !is Queued ==> after == admitting
            &&& request matches RequestState::Queued(token) ==> {
                &&& told == Some(Step::Proceed) <==> admitting.failed is None
                    && admitting.endpoint.state_of(token, now)
                    == crate::controller::DispatchState::Ready
                &&& admitting.failed is None ==> after.endpoint.pending.len()
                    == admitting.endpoint.pending.len() && after.endpoint.inflight
                    == admitting.endpoint.inflight
            }
            &&& request !is Queued && told is Some ==> told == Some(Step::Lost)
            &&& after.failed == admitting.failed
            &&& after.waker == admitting.waker
        }),
{
    crate::simulator::model::lemma_refresh_keeps(admitting.endpoint, now);
    if let RequestState::Queued(token) = request {
        assert(admitting.endpoint.queued_at(token, 0) ==> admitting.endpoint.pending.len() > 0);
    }
}

} // verus!
