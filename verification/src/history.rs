//! What holds of one controller over any sequence of calls.

use crate::controller::{
    ControllerChanges, DispatchReservation, DispatchState, Endpoint, EndpointConfig, Outcome,
    PendingReservation, Tuning,
};
use crate::probe::Probe;
use crate::time::{Duration, Instant};
use vstd::prelude::*;

verus! {

/// An operation of a controller.
pub enum Operation {
    /// Reserves a slot.
    Reserve,
    /// Cancels a reservation.
    Cancel(DispatchReservation),
    /// Asks for the state of a reservation.
    Ask(DispatchReservation),
    /// Dispatches a reservation, if it is ready.
    Dispatch(DispatchReservation),
    /// Completes a dispatched request with feedback: the outcome, the latency,
    /// and whether the request waited for its slot.
    Complete(Outcome, Duration, bool),
    /// Ends a dispatched request without feedback.
    Abandon,
    /// Records a failure to become ready.
    FailAdmission,
    /// Brings the controller up to date, as reading its load or metrics does.
    Refresh,
    /// Starts a probe.
    StartProbe(Probe),
    /// Takes the wakeup effects.
    TakeChanges,
}

/// An operation and the time at which it is called.
pub struct Call {
    /// What is called.
    pub operation: Operation,
    /// The time that is passed, or the current time where none is passed.
    pub now: Instant,
}

/// The reservation that an operation asks about.
pub open spec fn asked_about(operation: Operation) -> Option<DispatchReservation> {
    match operation {
        Operation::Ask(token) => Some(token),
        Operation::Dispatch(token) => Some(token),
        _ => None,
    }
}

impl Call {
    /// Whether the call may be made: a request that ends was dispatched.
    pub open spec fn fits(self, endpoint: Endpoint) -> bool {
        match self.operation {
            Operation::Complete(_, _, _) => endpoint.inflight > 0,
            Operation::Abandon => endpoint.inflight > 0,
            _ => true,
        }
    }

    /// The controller after the call.
    pub open spec fn made(self, endpoint: Endpoint) -> Endpoint {
        let now = self.now;
        match self.operation {
            Operation::Reserve => if crate::p2c::accepts(endpoint) {
                endpoint.reserved(now)
            } else {
                endpoint
            },
            Operation::Cancel(token) => if endpoint.holds(token) {
                endpoint.dropped(choose|i: int| endpoint.queued_at(token, i), now)
            } else {
                endpoint
            },
            Operation::Ask(token) => endpoint.asked(token, now),
            Operation::Dispatch(token) => if endpoint.state_of(token, now)
                == DispatchState::Ready {
                endpoint.asked(token, now).dispatched(now)
            } else {
                endpoint.asked(token, now)
            },
            Operation::Complete(outcome, latency, was_paced) => endpoint.completed_with(
                outcome,
                latency,
                was_paced,
                now,
            ),
            Operation::Abandon => endpoint.abandoned(now),
            Operation::FailAdmission => endpoint.admission_failed(now),
            Operation::Refresh => endpoint.refreshed(now),
            Operation::StartProbe(probe) => endpoint.probing(probe, now),
            Operation::TakeChanges => Endpoint { changes: ControllerChanges::none(), ..endpoint },
        }
    }

    /// Whether the reservation with a number is told to wait until some time.
    pub open spec fn defers(self, endpoint: Endpoint, number: u64) -> bool {
        asked_about(self.operation) matches Some(token) && token.owner() == endpoint.id
            && token.number() == number && endpoint.state_of(token, self.now) is WaitUntil
    }
}

/// The controller after all calls.
pub open spec fn run(start: Endpoint, calls: Seq<Call>) -> Endpoint
    decreases calls.len(),
{
    if calls.len() == 0 {
        start
    } else {
        calls.last().made(run(start, calls.drop_last()))
    }
}

/// Whether all calls may be made.
pub open spec fn possible(start: Endpoint, calls: Seq<Call>) -> bool
    decreases calls.len(),
{
    calls.len() > 0 ==> {
        &&& possible(start, calls.drop_last())
        &&& calls.last().fits(run(start, calls.drop_last()))
    }
}

/// Whether time never goes back, from a start on.
pub open spec fn in_order(start: Instant, calls: Seq<Call>) -> bool
    decreases calls.len(),
{
    calls.len() > 0 ==> {
        &&& in_order(start, calls.drop_last())
        &&& clock(start, calls.drop_last()).nanos <= calls.last().now.nanos
    }
}

/// The time of the last call.
pub open spec fn clock(start: Instant, calls: Seq<Call>) -> Instant {
    if calls.len() == 0 {
        start
    } else {
        calls.last().now
    }
}

/// Whether some call told the reservation with a number to wait until some
/// time.
pub open spec fn deferred(start: Endpoint, calls: Seq<Call>, number: u64) -> bool
    decreases calls.len(),
{
    calls.len() > 0 && {
        ||| deferred(start, calls.drop_last(), number)
        ||| calls.last().defers(run(start, calls.drop_last()), number)
    }
}

/// Whether the queue keeps to the pacer at a point in time: its head is not
/// later than the pacer's next slot, and the others follow it in steps of an
/// interval, unless the head has lost its slot.
pub open spec fn tidy(endpoint: Endpoint, clock: Instant) -> bool {
    endpoint.pending.len() > 0 ==> {
        let head = endpoint.pending[0].scheduled_at;
        &&& head.nanos <= endpoint.pacer.next_at(clock).nanos
        &&& head.nanos < clock.nanos || forall|i: int|
            0 <= i < endpoint.pending.len() ==> (#[trigger] endpoint.pending[i]).scheduled_at
                == crate::controller::slot(head, endpoint.pacer.interval, i as nat)
    }
}

proof fn lemma_rebuilt_is_tidy(endpoint: Endpoint, now: Instant)
    ensures
        tidy(endpoint.rebuilt(now), now),
{
    crate::controller::lemma_first_slot(endpoint.pacer.next_at(now), endpoint.pacer.interval);
}

proof fn lemma_repaced_is_tidy(endpoint: Endpoint, before: Instant, now: Instant)
    requires
        tidy(endpoint, before),
        before.nanos <= now.nanos,
    ensures
        tidy(endpoint.repaced(now), now),
{
    let pacer = endpoint.pacer.respaced(
        crate::gcra::spacing(endpoint.effective_rate(now)),
        now,
    );
    lemma_rebuilt_is_tidy(
        Endpoint { pacer, probe: endpoint.probe.expired(now), ..endpoint },
        now,
    );
}

/// Bringing a controller up to date keeps its queue tidy.
pub proof fn lemma_refreshed_is_tidy(endpoint: Endpoint, before: Instant, now: Instant)
    requires
        tidy(endpoint, before),
        before.nanos <= now.nanos,
    ensures
        tidy(endpoint.refreshed(now), now),
        endpoint.pending.len() > 0 ==> tidy(endpoint.head_asked(now), now),
{
    crate::simulator::model::lemma_refresh_keeps(endpoint, now);
    reveal(Endpoint::refreshed);
    let decided = endpoint.decided(now);
    let moved = Endpoint { probe: decided.probe.expired(now), ..decided };
    lemma_repaced_is_tidy(moved, before, now);
    let fresh = endpoint.refreshed(now);
    assert(fresh.pending == moved.repaced(now).pending);
    assert(fresh.pacer == moved.repaced(now).pacer);
    if fresh.head_state(now) is WaitUntil && fresh.pending.len() > 0 {
        let asked = fresh.head_waited();
        assert forall|i: int| 0 <= i < asked.pending.len() implies (
        #[trigger] asked.pending[i]).scheduled_at == fresh.pending[i].scheduled_at by {}
        if fresh.pending[0].scheduled_at.nanos >= now.nanos {
            assert forall|i: int| 0 <= i < asked.pending.len() implies (
            #[trigger] asked.pending[i]).scheduled_at == crate::controller::slot(
                asked.pending[0].scheduled_at,
                asked.pacer.interval,
                i as nat,
            ) by {
                assert(asked.pending[i].scheduled_at == fresh.pending[i].scheduled_at);
            }
        }
    }
}

proof fn lemma_reserved_is_tidy(endpoint: Endpoint, before: Instant, now: Instant)
    requires
        tidy(endpoint, before),
        before.nanos <= now.nanos,
    ensures
        tidy(endpoint.reserved(now), now),
{
    let after = endpoint.reserved(now);
    let interval = endpoint.pacer.interval;
    if endpoint.pending.len() == 0 {
        crate::controller::lemma_first_slot(endpoint.pacer.next_at(now), interval);
    } else {
        let head = endpoint.pending[0].scheduled_at;
        let n = endpoint.pending.len();
        assert(after.pending[0] == endpoint.pending[0]);
        if head.nanos >= now.nanos {
            let last = (n - 1) as nat;
            assert(endpoint.pending[n - 1].scheduled_at == crate::controller::slot(
                head,
                interval,
                last,
            ));
            crate::controller::lemma_next_slot(head, interval, last);
            crate::controller::lemma_slots_ascend(head, interval, last, n);
            assert(endpoint.pending.last() == endpoint.pending[n - 1]);
            assert forall|i: int| 0 <= i < after.pending.len() implies (
            #[trigger] after.pending[i]).scheduled_at == crate::controller::slot(
                head,
                interval,
                i as nat,
            ) by {
                if i < n {
                    assert(after.pending[i] == endpoint.pending[i]);
                }
            }
        }
    }
}

proof fn lemma_made_is_tidy(call: Call, endpoint: Endpoint, before: Instant)
    requires
        tidy(endpoint, before),
        before.nanos <= call.now.nanos,
    ensures
        tidy(call.made(endpoint), call.now),
{
    let now = call.now;
    match call.operation {
        Operation::Reserve => {
            lemma_reserved_is_tidy(endpoint, before, now);
        },
        Operation::Cancel(token) => {
            if endpoint.holds(token) {
                let i = choose|i: int| endpoint.queued_at(token, i);
                lemma_rebuilt_is_tidy(
                    Endpoint {
                        pending: endpoint.pending.remove(i),
                        changes: ControllerChanges { admission: true, dispatch: true },
                        ..endpoint
                    },
                    now,
                );
            }
        },
        Operation::Ask(_) => {
            lemma_refreshed_is_tidy(endpoint, before, now);
        },
        Operation::Dispatch(token) => {
            lemma_refreshed_is_tidy(endpoint, before, now);
            let asked = endpoint.asked(token, now);
            let after = asked.dispatched(now);
            crate::controller::lemma_first_slot(after.pacer.next_at(now), after.pacer.interval);
        },
        Operation::Complete(outcome, latency, was_paced) => {
            let after = endpoint.completed_with(outcome, latency, was_paced, now);
            let learned = match outcome {
                Outcome::Success => {
                    let estimates = endpoint.latency.observed(latency, now);
                    Endpoint {
                        latency: estimates,
                        gradient: endpoint.gradient.sampled(
                            Duration::of_seconds(estimates.short),
                            estimates.baseline_rtt(),
                            endpoint.inflight,
                            was_paced,
                            now,
                        ),
                        ..endpoint
                    }
                },
                Outcome::Failure => Endpoint {
                    failures: (endpoint.failures + 1) as u64,
                    gradient: endpoint.gradient.failed(now),
                    ..endpoint
                },
            };
            let ended = Endpoint {
                completed: (endpoint.completed + 1) as u64,
                inflight: (endpoint.inflight - 1) as usize,
                changes: ControllerChanges { dispatch: true, ..endpoint.changes },
                feedback_epoch: if endpoint.inflight > 1 {
                    Some(
                        crate::controller::FeedbackEpoch {
                            last_feedback_at: now,
                            expected_rtt: learned.latency.expected_rtt(),
                        },
                    )
                } else {
                    None
                },
                ..learned
            };
            lemma_repaced_is_tidy(ended, before, now);
            assert(after == ended.repaced(now));
        },
        Operation::Abandon => {
            lemma_repaced_is_tidy(
                Endpoint {
                    failures: (endpoint.failures + 1) as u64,
                    gradient: endpoint.gradient.failed(now),
                    inflight: (endpoint.inflight - 1) as usize,
                    changes: ControllerChanges { dispatch: true, ..endpoint.changes },
                    feedback_epoch: if endpoint.inflight > 1 {
                        endpoint.feedback_epoch
                    } else {
                        None
                    },
                    ..endpoint
                },
                before,
                now,
            );
        },
        Operation::FailAdmission => {
            lemma_repaced_is_tidy(
                Endpoint {
                    failures: (endpoint.failures + 1) as u64,
                    gradient: endpoint.gradient.failed(now),
                    ..endpoint
                },
                before,
                now,
            );
        },
        Operation::Refresh => {
            lemma_refreshed_is_tidy(endpoint, before, now);
        },
        Operation::StartProbe(probe) => {
            lemma_repaced_is_tidy(
                Endpoint {
                    probe: crate::probe::Probing { active: Some(probe), ..endpoint.probe },
                    changes: ControllerChanges { dispatch: true, ..endpoint.changes },
                    ..endpoint
                },
                before,
                now,
            );
        },
        Operation::TakeChanges => {},
    }
}

proof fn lemma_run_is_tidy(start: Endpoint, at: Instant, calls: Seq<Call>)
    requires
        start.pending.len() == 0,
        in_order(at, calls),
    ensures
        tidy(run(start, calls), clock(at, calls)),
    decreases calls.len(),
{
    if calls.len() > 0 {
        let rest = calls.drop_last();
        lemma_run_is_tidy(start, at, rest);
        lemma_made_is_tidy(calls.last(), run(start, rest), clock(at, rest));
    }
}

/// A head that is told to wait is woken in time: while the clock never goes
/// back, it is not told to wait beyond the pacer's next slot.
pub proof fn law_waits_end_with_the_next_slot(
    start: Endpoint,
    at: Instant,
    calls: Seq<Call>,
    token: DispatchReservation,
    now: Instant,
)
    requires
        start.pending.len() == 0,
        in_order(at, calls),
        clock(at, calls).nanos <= now.nanos,
    ensures
        run(start, calls).state_of(token, now) matches DispatchState::WaitUntil(until)
            ==> until.nanos <= run(start, calls).asked(token, now).pacer.next_at(now).nanos,
{
    let endpoint = run(start, calls);
    lemma_run_is_tidy(start, at, calls);
    lemma_refreshed_is_tidy(endpoint, clock(at, calls), now);
    crate::simulator::model::lemma_refresh_keeps(endpoint, now);
}

/// A reservation that is cancelled at once gives everything back: on a
/// controller that is up to date, and whose clock never went back, the queue,
/// the pacer and the predicted completion are what they were before.
pub proof fn law_cancelling_restores_the_prediction(
    start: Endpoint,
    at: Instant,
    calls: Seq<Call>,
    now: Instant,
)
    requires
        start.pending.len() == 0,
        start.tuning.valid(),
        in_order(at, calls),
        clock(at, calls).nanos <= now.nanos < u128::MAX,
    ensures
        ({
            let fresh = run(start, calls).refreshed(now);
            let after = fresh.reserved(now).dropped(fresh.pending.len() as int, now);
            &&& after.pending == fresh.pending
            &&& after.pacer == fresh.pacer
            &&& after.refreshed(now).predicted_completion(now) == fresh.predicted_completion(now)
            &&& fresh.refreshed(now).predicted_completion(now) == fresh.predicted_completion(now)
        }),
{
    let endpoint = run(start, calls);
    let fresh = endpoint.refreshed(now);
    let last = fresh.pending.len() as int;
    let after = fresh.reserved(now).dropped(last, now);
    lemma_run_is_tidy(start, at, calls);
    lemma_run_keeps(start, calls);
    lemma_refreshed_is_tidy(endpoint, clock(at, calls), now);
    crate::laws::lemma_settled(endpoint, now);
    crate::laws::lemma_stays(fresh, now);
    assert(fresh.reserved(now).pending.remove(last) =~= fresh.pending);
    assert(fresh.rebuilt(now).pending =~= fresh.pending) by {
        if fresh.pending.len() > 0 {
            assert(fresh.pending[0].scheduled_at == fresh.pacer.next_at(now));
        }
    }
    assert(after.pending =~= fresh.pending);
    assert(crate::laws::settled(after, now));
    crate::laws::lemma_stays(after, now);
}

/// A reservation that is cancelled at once leaves no trace on a controller that
/// is not up to date either: whenever it is brought up to date at that time,
/// its queue, its pacer, its probes and its predicted completion are what they
/// would have been.
pub proof fn law_cancelling_leaves_no_trace(
    start: Endpoint,
    at: Instant,
    calls: Seq<Call>,
    now: Instant,
)
    requires
        start.pending.len() == 0,
        in_order(at, calls),
        clock(at, calls).nanos <= now.nanos,
    ensures
        ({
            let before = run(start, calls);
            let after = before.reserved(now).dropped(before.pending.len() as int, now);
            let (x, y) = (before.refreshed(now), after.refreshed(now));
            &&& y.pending == x.pending
            &&& y.pacer == x.pacer
            &&& y.probe == x.probe
            &&& y.words == x.words
            &&& y.predicted_completion(now) == x.predicted_completion(now)
            &&& y.load(now) == x.load(now)
        }),
{
    let before = run(start, calls);
    let last = before.pending.len() as int;
    let after = before.reserved(now).dropped(last, now);
    lemma_run_is_tidy(start, at, calls);
    assert(before.reserved(now).pending.remove(last) =~= before.pending);
    assert(after.pending =~= before.rebuilt(now).pending);
    lemma_rebuilt_refreshes_alike(before, after, clock(at, calls), now);
}

/// A queue that is rebuilt before the controller is brought up to date ends up
/// as one that is not.
proof fn lemma_rebuilt_refreshes_alike(before: Endpoint, after: Endpoint, at: Instant, now: Instant)
    requires
        tidy(before, at),
        at.nanos <= now.nanos,
        after == (Endpoint {
            pending: before.rebuilt(now).pending,
            next_id: after.next_id,
            changes: after.changes,
            ..before
        }),
    ensures
        ({
            let (x, y) = (before.refreshed(now), after.refreshed(now));
            &&& y.pending == x.pending
            &&& y.pacer == x.pacer
            &&& y.probe == x.probe
            &&& y.words == x.words
            &&& y.latency == x.latency
        }),
{
    reveal(Endpoint::refreshed);
    let first = before.decided(now);
    let second = after.decided(now);
    assert(second.probe == first.probe && second.words == first.words);
    let x = Endpoint { probe: first.probe.expired(now), ..first };
    let y = Endpoint { probe: second.probe.expired(now), ..second };
    assert(y.effective_rate(now) == x.effective_rate(now));
    let pacer = x.pacer.respaced(crate::gcra::spacing(x.effective_rate(now)), now);
    crate::controller::lemma_first_slot(before.pacer.next_at(now), before.pacer.interval);
    let moved = Endpoint { pacer, probe: x.probe.expired(now), ..x };
    let other = Endpoint { pacer, probe: y.probe.expired(now), ..y };
    assert(other.rebuilt(now).pending =~= moved.rebuilt(now).pending);
    if pacer.interval == before.pacer.interval && before.pending.len() > 0 {
        assert(pacer == before.pacer);
        assert(moved.rebuilt(now).pending =~= after.pending);
        if before.pending[0].scheduled_at.nanos >= pacer.next_at(now).nanos {
            assert(before.pending[0].scheduled_at == pacer.next_at(now));
            assert(before.pending =~= after.pending);
        }
    }
    assert(x.repaced(now).pending =~= y.repaced(now).pending);
}

/// Whether reservations are queued in the order in which they were made.
pub open spec fn numbered(endpoint: Endpoint) -> bool {
    &&& forall|i: int| 0 <= i < endpoint.pending.len() ==> (#[trigger] endpoint.pending[i]).id
        < endpoint.next_id
    &&& forall|i: int, j: int|
        0 <= i < j < endpoint.pending.len() ==> (#[trigger] endpoint.pending[i]).id < (
        #[trigger] endpoint.pending[j]).id
}

/// Whether two queues hold the same reservations with the same marks.
pub open spec fn alike(a: Seq<PendingReservation>, b: Seq<PendingReservation>) -> bool {
    &&& a.len() == b.len()
    &&& forall|i: int|
        0 <= i < a.len() ==> (#[trigger] a[i]).id == b[i].id && a[i].was_paced == b[i].was_paced
}

/// Deriving the rate anew changes neither the identity and the parameters nor
/// which reservations are queued.
proof fn lemma_repacing_keeps(endpoint: Endpoint, now: Instant)
    ensures
        keeps(endpoint, endpoint.repaced(now)),
{
}

/// Whether neither the identity and the parameters changed nor which
/// reservations are queued.
spec fn keeps(before: Endpoint, after: Endpoint) -> bool {
    &&& alike(after.pending, before.pending)
    &&& after.next_id == before.next_id
    &&& after.id == before.id
    &&& after.config == before.config
    &&& after.tuning == before.tuning
}

proof fn lemma_refreshing_keeps(endpoint: Endpoint, now: Instant)
    ensures
        keeps(endpoint, endpoint.refreshed(now)),
{
    reveal(Endpoint::refreshed);
    let decided = endpoint.decided(now);
    lemma_repacing_keeps(Endpoint { probe: decided.probe.expired(now), ..decided }, now);
}

/// Apart from reserving, cancelling, asking and dispatching, no call changes
/// which reservations are queued.
proof fn lemma_others_keep_the_queue(call: Call, endpoint: Endpoint)
    requires
        !(call.operation is Reserve),
        !(call.operation is Cancel),
        asked_about(call.operation) is None,
    ensures
        keeps(endpoint, call.made(endpoint)),
{
    let now = call.now;
    match call.operation {
        Operation::Refresh => {
            lemma_refreshing_keeps(endpoint, now);
        },
        Operation::TakeChanges => {},
        _ => {
            assert forall|e: Endpoint| keeps(e, #[trigger] e.repaced(now)) by {
                lemma_repacing_keeps(e, now);
            }
        },
    }
}

/// The identity and the parameters of a controller never change, and its
/// numbers never go back.
pub proof fn lemma_call_keeps(call: Call, endpoint: Endpoint)
    ensures
        call.made(endpoint).id == endpoint.id,
        call.made(endpoint).next_id >= endpoint.next_id,
        call.made(endpoint).tuning == endpoint.tuning,
{
    match call.operation {
        Operation::Reserve => {},
        Operation::Cancel(_) => {},
        Operation::Ask(_) => {
            lemma_refreshing_keeps(endpoint, call.now);
        },
        Operation::Dispatch(_) => {
            lemma_refreshing_keeps(endpoint, call.now);
        },
        _ => {
            lemma_others_keep_the_queue(call, endpoint);
        },
    }
}

proof fn lemma_run_keeps(start: Endpoint, calls: Seq<Call>)
    ensures
        run(start, calls).id == start.id,
        run(start, calls).tuning == start.tuning,
    decreases calls.len(),
{
    if calls.len() > 0 {
        lemma_run_keeps(start, calls.drop_last());
        lemma_call_keeps(calls.last(), run(start, calls.drop_last()));
    }
}

/// Whether an entry of the queue was there before a call, and has a mark
/// exactly where it had one or the call told it to wait.
spec fn inherited(call: Call, endpoint: Endpoint, entry: PendingReservation) -> bool {
    exists|j: int|
        0 <= j < endpoint.pending.len() && (#[trigger] endpoint.pending[j]).id == entry.id
            && entry.was_paced == (endpoint.pending[j].was_paced || call.defers(
            endpoint,
            entry.id,
        ))
}

/// Whether an entry of the queue was made by a call.
spec fn added(endpoint: Endpoint, after: Endpoint, entry: PendingReservation) -> bool {
    entry.id == endpoint.next_id && !entry.was_paced && endpoint.next_id < after.next_id
}

proof fn lemma_cancelling_marks(call: Call, endpoint: Endpoint, token: DispatchReservation)
    requires
        numbered(endpoint),
        call.operation == Operation::Cancel(token),
        endpoint.holds(token),
    ensures
        numbered(call.made(endpoint)),
        forall|i: int|
            0 <= i < call.made(endpoint).pending.len() ==> inherited(
                call,
                endpoint,
                #[trigger] call.made(endpoint).pending[i],
            ),
{
    let after = call.made(endpoint);
    let place = choose|i: int| endpoint.queued_at(token, i);
    assert(endpoint.queued_at(token, place));
    assert(after == endpoint.dropped(place, call.now));
    assert forall|i: int| 0 <= i < after.pending.len() implies inherited(
        call,
        endpoint,
        #[trigger] after.pending[i],
    ) && after.pending[i].id < endpoint.next_id by {
        let j = if i < place { i } else { i + 1 };
        assert(endpoint.pending[j].id == after.pending[i].id);
    }
    assert forall|i: int, j: int| 0 <= i < j < after.pending.len() implies (
    #[trigger] after.pending[i]).id < (#[trigger] after.pending[j]).id by {
        let k = if i < place { i } else { i + 1 };
        let l = if j < place { j } else { j + 1 };
        assert(endpoint.pending[k].id < endpoint.pending[l].id);
    }
}

proof fn lemma_dispatching_marks(call: Call, endpoint: Endpoint, token: DispatchReservation)
    requires
        numbered(endpoint),
        call.operation == Operation::Dispatch(token),
        endpoint.state_of(token, call.now) == DispatchState::Ready,
    ensures
        numbered(call.made(endpoint)),
        call.made(endpoint).next_id == endpoint.next_id,
        forall|i: int|
            0 <= i < call.made(endpoint).pending.len() ==> inherited(
                call,
                endpoint,
                #[trigger] call.made(endpoint).pending[i],
            ),
{
    let after = call.made(endpoint);
    let asked = endpoint.asked(token, call.now);
    lemma_asking_marks(call, endpoint, token);
    assert(after == asked.dispatched(call.now));
    assert forall|i: int| 0 <= i < after.pending.len() implies inherited(
        call,
        endpoint,
        #[trigger] after.pending[i],
    ) && after.pending[i].id < endpoint.next_id by {
        assert(after.pending[i].id == asked.pending[i + 1].id);
        assert(asked.pending[i + 1].id == endpoint.pending[i + 1].id);
    }
    assert forall|i: int, j: int| 0 <= i < j < after.pending.len() implies (
    #[trigger] after.pending[i]).id < (#[trigger] after.pending[j]).id by {
        assert(asked.pending[i + 1].id < asked.pending[j + 1].id);
    }
}

/// What one call does to the marks: only a head that is told to wait gains
/// one.
proof fn lemma_marks(call: Call, endpoint: Endpoint)
    requires
        numbered(endpoint),
    ensures
        numbered(call.made(endpoint)),
        call.made(endpoint).next_id >= endpoint.next_id,
        forall|number: u64|
            number >= endpoint.next_id ==> !#[trigger] call.defers(endpoint, number),
        forall|i: int|
            0 <= i < call.made(endpoint).pending.len() ==> {
                let entry = #[trigger] call.made(endpoint).pending[i];
                added(endpoint, call.made(endpoint), entry) || inherited(call, endpoint, entry)
            },
{
    let after = call.made(endpoint);
    assert forall|number: u64| number >= endpoint.next_id implies !#[trigger] call.defers(
        endpoint,
        number,
    ) by {
        if let Some(token) = asked_about(call.operation) {
            if token.number() == number && endpoint.queued_at(token, 0) {
                assert(endpoint.pending[0].id < endpoint.next_id);
            }
        }
    }
    match call.operation {
        Operation::Reserve => {
            assert forall|i: int| 0 <= i < after.pending.len() implies {
                let entry = #[trigger] after.pending[i];
                added(endpoint, after, entry) || inherited(call, endpoint, entry)
            } by {
                if i < endpoint.pending.len() {
                    assert(after.pending[i] == endpoint.pending[i]);
                }
            }
        },
        Operation::Cancel(token) => {
            if endpoint.holds(token) {
                lemma_cancelling_marks(call, endpoint, token);
            } else {
                assert forall|i: int| 0 <= i < after.pending.len() implies inherited(
                    call,
                    endpoint,
                    #[trigger] after.pending[i],
                ) by {
                    assert(endpoint.pending[i].id == after.pending[i].id);
                }
            }
        },
        Operation::Ask(token) => {
            lemma_asking_marks(call, endpoint, token);
            assert forall|i: int| 0 <= i < after.pending.len() implies inherited(
                call,
                endpoint,
                #[trigger] after.pending[i],
            ) by {
                assert(endpoint.pending[i].id == after.pending[i].id);
            }
        },
        Operation::Dispatch(token) => {
            if endpoint.state_of(token, call.now) == DispatchState::Ready {
                lemma_dispatching_marks(call, endpoint, token);
            } else {
                lemma_asking_marks(call, endpoint, token);
                assert forall|i: int| 0 <= i < after.pending.len() implies inherited(
                    call,
                    endpoint,
                    #[trigger] after.pending[i],
                ) by {
                    assert(endpoint.pending[i].id == after.pending[i].id);
                }
            }
        },
        _ => {
            lemma_others_keep_the_queue(call, endpoint);
            assert forall|i: int| 0 <= i < after.pending.len() implies inherited(
                call,
                endpoint,
                #[trigger] after.pending[i],
            ) by {
                assert(endpoint.pending[i].id == after.pending[i].id);
            }
        },
    }
}

/// What asking does to the marks.
proof fn lemma_asking_marks(call: Call, endpoint: Endpoint, token: DispatchReservation)
    requires
        numbered(endpoint),
        asked_about(call.operation) == Some(token),
    ensures
        ({
            let asked = endpoint.asked(token, call.now);
            &&& numbered(asked)
            &&& asked.next_id == endpoint.next_id
            &&& asked.id == endpoint.id
            &&& asked.pending.len() == endpoint.pending.len()
            &&& forall|i: int|
                0 <= i < asked.pending.len() ==> {
                    &&& (#[trigger] asked.pending[i]).id == endpoint.pending[i].id
                    &&& asked.pending[i].was_paced == (endpoint.pending[i].was_paced
                        || call.defers(endpoint, asked.pending[i].id))
                }
        }),
{
    let asked = endpoint.asked(token, call.now);
    crate::simulator::model::lemma_refresh_keeps(endpoint, call.now);
    if endpoint.queued_at(token, 0) {
        let fresh = endpoint.refreshed(call.now);
        assert forall|i: int| 0 <= i < asked.pending.len() implies {
            &&& (#[trigger] asked.pending[i]).id == endpoint.pending[i].id
            &&& asked.pending[i].was_paced == (endpoint.pending[i].was_paced || call.defers(
                endpoint,
                asked.pending[i].id,
            ))
        } by {
            assert(fresh.pending[i].id == endpoint.pending[i].id);
            if i > 0 {
                assert(endpoint.pending[0].id < endpoint.pending[i].id);
            }
        }
    }
}

proof fn lemma_marks_are_history(start: Endpoint, calls: Seq<Call>)
    requires
        start.pending.len() == 0,
        start.next_id == 0,
    ensures
        numbered(run(start, calls)),
        forall|i: int|
            0 <= i < run(start, calls).pending.len() ==> {
                let entry = #[trigger] run(start, calls).pending[i];
                entry.was_paced == deferred(start, calls, entry.id)
            },
        forall|number: u64|
            number >= run(start, calls).next_id ==> !#[trigger] deferred(start, calls, number),
    decreases calls.len(),
{
    if calls.len() > 0 {
        let rest = calls.drop_last();
        let before = run(start, rest);
        let after = run(start, calls);
        lemma_marks_are_history(start, rest);
        lemma_marks(calls.last(), before);
        assert forall|i: int| 0 <= i < after.pending.len() implies {
            let entry = #[trigger] after.pending[i];
            entry.was_paced == deferred(start, calls, entry.id)
        } by {
            let entry = after.pending[i];
            if inherited(calls.last(), before, entry) {
                let j = choose|j: int|
                    0 <= j < before.pending.len() && (#[trigger] before.pending[j]).id == entry.id
                        && entry.was_paced == (before.pending[j].was_paced
                        || calls.last().defers(before, entry.id));
                assert(before.pending[j].was_paced == deferred(start, rest, entry.id));
            } else {
                assert(!deferred(start, rest, entry.id));
                assert(!calls.last().defers(before, entry.id));
            }
        }
        assert forall|number: u64| number >= after.next_id implies !#[trigger] deferred(
            start,
            calls,
            number,
        ) by {
            assert(!deferred(start, rest, number));
            assert(!calls.last().defers(before, number));
        }
    }
}

/// A request counts as paced exactly where an earlier answer told its
/// reservation to wait: a slot that was only predicted to lie ahead does not
/// count. What is said of the head here is what its dispatch token holds.
pub proof fn law_paced_requests_were_told_to_wait(
    id: u64,
    config: EndpointConfig,
    tuning: Tuning,
    at: Instant,
    words: Map<nat, u32>,
    calls: Seq<Call>,
    token: DispatchReservation,
    now: Instant,
)
    requires
        possible(Endpoint::fresh(id, config, tuning, at, words), calls),
    ensures
        ({
            let start = Endpoint::fresh(id, config, tuning, at, words);
            let endpoint = run(start, calls);
            endpoint.state_of(token, now) == DispatchState::Ready
                ==> endpoint.pending[0].was_paced == deferred(start, calls, token.number())
        }),
{
    let start = Endpoint::fresh(id, config, tuning, at, words);
    lemma_marks_are_history(start, calls);
    lemma_run_keeps(start, calls);
    let endpoint = run(start, calls);
    crate::simulator::model::lemma_refresh_keeps(endpoint, now);
    if endpoint.state_of(token, now) == DispatchState::Ready {
        assert(endpoint.queued_at(token, 0));
        assert(endpoint.pending[0].id == token.number());
    }
}

/// The first calls of a sequence.
proof fn lemma_next_id_grows(start: Endpoint, calls: Seq<Call>, j: int)
    requires
        start.pending.len() == 0,
        start.next_id == 0,
        0 <= j <= calls.len(),
    ensures
        run(start, calls.take(j)).next_id <= run(start, calls).next_id,
    decreases calls.len(),
{
    if j == calls.len() {
        assert(calls.take(j) =~= calls);
    } else {
        let rest = calls.drop_last();
        lemma_next_id_grows(start, rest, j);
        assert(calls.take(j) =~= rest.take(j));
        lemma_marks_are_history(start, rest);
        lemma_marks(calls.last(), run(start, rest));
    }
}

/// Whether two controllers have the same room and have announced the same of it.
spec fn same_room(a: Endpoint, b: Endpoint) -> bool {
    &&& a.pending.len() == b.pending.len()
    &&& a.config == b.config
    &&& a.changes.admission == b.changes.admission
}

/// Deriving the rate anew releases nothing.
proof fn lemma_repaced_room(endpoint: Endpoint, now: Instant)
    ensures
        same_room(endpoint.repaced(now), endpoint),
{
}

/// Bringing a controller up to date releases nothing.
proof fn lemma_refreshed_room(endpoint: Endpoint, now: Instant)
    ensures
        same_room(endpoint.refreshed(now), endpoint),
{
    reveal(Endpoint::refreshed);
    let decided = endpoint.decided(now);
    lemma_repaced_room(Endpoint { probe: decided.probe.expired(now), ..decided }, now);
}

/// Asking for the state of a reservation releases nothing.
proof fn lemma_asked_room(endpoint: Endpoint, token: DispatchReservation, now: Instant)
    ensures
        same_room(endpoint.asked(token, now), endpoint),
{
    if endpoint.queued_at(token, 0) {
        lemma_refreshed_room(endpoint, now);
    }
}

/// A slot that is released is announced: where the horizon was full and is not
/// any more, those who wait for admission are asked to look again. What was
/// announced stays so until it is taken.
pub proof fn law_released_space_is_announced(endpoint: Endpoint, call: Call)
    ensures
        !endpoint.has_space() && call.made(endpoint).has_space() ==> call.made(
            endpoint,
        ).changes.admission,
        endpoint.changes.admission && !(call.operation is TakeChanges) ==> call.made(
            endpoint,
        ).changes.admission,
        call.operation is Ask ==> call.made(endpoint).has_space() == endpoint.has_space(),
{
    let now = call.now;
    match call.operation {
        Operation::Ask(token) => lemma_asked_room(endpoint, token, now),
        Operation::Dispatch(token) => lemma_asked_room(endpoint, token, now),
        Operation::Complete(outcome, latency, was_paced) => lemma_completed_room(
            endpoint,
            outcome,
            latency,
            was_paced,
            now,
        ),
        Operation::Abandon => {
            let ended = Endpoint {
                failures: (endpoint.failures + 1) as u64,
                gradient: endpoint.gradient.failed(now),
                inflight: (endpoint.inflight - 1) as usize,
                changes: ControllerChanges { dispatch: true, ..endpoint.changes },
                feedback_epoch: if endpoint.inflight > 1 {
                    endpoint.feedback_epoch
                } else {
                    None
                },
                ..endpoint
            };
            lemma_repaced_room(ended, now);
            assert(endpoint.abandoned(now) == ended.repaced(now));
        },
        Operation::FailAdmission => lemma_failed_room(endpoint, now),
        Operation::Refresh => lemma_refreshed_room(endpoint, now),
        Operation::StartProbe(probe) => {
            let started = Endpoint {
                probe: crate::probe::Probing { active: Some(probe), ..endpoint.probe },
                changes: ControllerChanges { dispatch: true, ..endpoint.changes },
                ..endpoint
            };
            lemma_repaced_room(started, now);
        },
        _ => {},
    }
}

/// Feedback of a request releases no slot.
proof fn lemma_completed_room(
    endpoint: Endpoint,
    outcome: Outcome,
    latency: Duration,
    was_paced: bool,
    now: Instant,
)
    ensures
        same_room(endpoint.completed_with(outcome, latency, was_paced, now), endpoint),
{
}

/// A failure to become ready releases no slot.
proof fn lemma_failed_room(endpoint: Endpoint, now: Instant)
    ensures
        same_room(endpoint.admission_failed(now), endpoint),
{
}

/// No two reservations get the same token: neither two of one controller, nor
/// two of controllers with different identities.
pub proof fn law_tokens_are_distinct(
    start: Endpoint,
    calls: Seq<Call>,
    j: int,
    k: int,
    first: DispatchReservation,
    second: DispatchReservation,
)
    requires
        start.pending.len() == 0,
        start.next_id == 0,
        0 <= j < k < calls.len(),
        calls[j].operation is Reserve,
        crate::p2c::accepts(run(start, calls.take(j))),
        first.owner() == start.id,
        first.number() == run(start, calls.take(j)).next_id,
        second.owner() != start.id || second.number() == run(start, calls.take(k)).next_id,
    ensures
        first != second,
{
    if second.owner() == start.id {
        let before = run(start, calls.take(j));
        assert(calls.take(j + 1).drop_last() =~= calls.take(j));
        assert(calls.take(j + 1).last() == calls[j]);
        assert(run(start, calls.take(j + 1)).next_id == before.next_id + 1);
        lemma_next_id_grows(start, calls.take(k), j + 1);
        assert(calls.take(k).take(j + 1) =~= calls.take(j + 1));
    }
}

} // verus!
