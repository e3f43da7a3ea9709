//! One simulated endpoint at work.

use super::model::{self, Due, Station};
use super::{EndpointReport, SimulatedEndpoint};
use crate::controller::{
    DispatchReservation, DispatchState, EndpointController, InFlightRequest, Outcome,
};
use crate::double::Double;
use crate::gcra::saturating_add;
use crate::time::{Duration, Instant};
use std::collections::VecDeque;
use vstd::prelude::*;

verus! {

broadcast use vstd::std_specs::vecdeque::group_vec_dequeue_axioms;

/// A simulated endpoint with its controller, the tokens of its queue and its
/// workers.
pub struct EndpointRuntime {
    controller: EndpointController,
    pending: VecDeque<DispatchReservation>,
    service_time: Duration,
    available_at: Vec<Instant>,
    dispatched: u64,
    completed: u64,
}

impl View for EndpointRuntime {
    type V = Station;

    closed spec fn view(&self) -> Station {
        Station {
            controller: self.controller@,
            service_time: self.service_time,
            available_at: self.available_at@,
            dispatched: self.dispatched as nat,
            completed: self.completed as nat,
        }
    }
}

/// A dispatched request that is being served.
pub struct Flight {
    /// When it is done.
    pub at: Instant,
    /// The endpoint that serves it.
    pub endpoint: usize,
    /// The dispatch token.
    pub request: InFlightRequest,
}

pub open spec fn due_of(flight: Flight) -> Due {
    Due {
        at: flight.at,
        endpoint: flight.endpoint as nat,
        sent_at: flight.request.sent_at(),
        was_paced: flight.request.paced(),
    }
}

pub open spec fn dues(flights: Seq<Flight>) -> Seq<Due> {
    Seq::new(flights.len(), |i: int| due_of(flights[i]))
}

/// How many requests an endpoint serves.
pub open spec fn served_by(flights: Seq<Flight>, index: int) -> nat
    decreases flights.len(),
{
    if flights.len() == 0 {
        0
    } else {
        served_by(flights.drop_last(), index) + if flights.last().endpoint == index {
            1nat
        } else {
            0nat
        }
    }
}

pub proof fn lemma_served_by_removed(flights: Seq<Flight>, k: int, index: int)
    requires
        0 <= k < flights.len(),
    ensures
        served_by(flights, index) == served_by(flights.remove(k), index) + if flights[k].endpoint
            == index {
            1nat
        } else {
            0nat
        },
    decreases flights.len(),
{
    let rest = flights.remove(k);
    if k == flights.len() - 1 {
        assert(rest =~= flights.drop_last());
    } else {
        assert(rest.drop_last() =~= flights.drop_last().remove(k));
        assert(rest.last() == flights.last());
        lemma_served_by_removed(flights.drop_last(), k, index);
    }
}

impl EndpointRuntime {
    /// Whether the tokens are those of the controller's queue.
    #[verifier::opaque]
    pub closed spec fn wf(self) -> bool {
        &&& self@.wf()
        &&& self.pending@.len() == self.controller@.pending.len()
        &&& forall|i: int|
            0 <= i < self.pending@.len() ==> (#[trigger] self.pending@[i]).owner()
                == self.controller@.id && self.pending@[i].number()
                == self.controller@.pending[i].id
    }

    /// The queue keeps to its horizon.
    pub proof fn lemma_horizon(self)
        requires
            self.wf(),
        ensures
            self@.controller.pending.len() <= self@.controller.config.queue_capacity,
    {
        reveal(EndpointRuntime::wf);
        reveal(Station::wf);
    }

    /// The station is well-formed.
    pub proof fn lemma_station(self)
        requires
            self.wf(),
        ensures
            self@.wf(),
    {
        reveal(EndpointRuntime::wf);
    }

    /// Prepares an endpoint.
    pub fn new(endpoint: &SimulatedEndpoint, index: usize, seed: u64) -> (r: EndpointRuntime)
        requires
            endpoint.workers > 0,
            endpoint.service_time.nanos > 0,
            endpoint.config.valid(),
        ensures
            r@ == Station::fresh(*endpoint, index as nat, seed),
            r.wf(),
            r@.controller.id == index,
            r@.controller.inflight == 0,
            r@.controller.next_id == 0,
            r@.controller.config == endpoint.config,
    {
        let start = Instant { nanos: 0 };
        let mut available_at: Vec<Instant> = Vec::new();
        while available_at.len() < endpoint.workers
            invariant
                available_at.len() <= endpoint.workers,
                forall|i: int| 0 <= i < available_at.len() ==> available_at[i] == start,
            decreases endpoint.workers - available_at.len(),
        {
            available_at.push(start);
        }
        reveal(EndpointRuntime::wf);
        reveal(Station::wf);
        let own_seed: u64 = seed.wrapping_add(index as u64);
        EndpointRuntime {
            controller: EndpointController::new_with_seed(
                endpoint.config,
                start,
                own_seed,
                index as u64,
            ),
            pending: VecDeque::new(),
            service_time: endpoint.service_time,
            available_at,
            dispatched: 0,
            completed: 0,
        }
    }

    /// Returns how many requests are queued.
    pub fn queued(&self) -> (r: usize)
        requires
            self.wf(),
        ensures
            r == self@.controller.pending.len(),
    {
        reveal(EndpointRuntime::wf);
        self.pending.len()
    }

    /// Returns whether the queue has space.
    pub fn has_space(&self) -> (r: bool)
        ensures
            r == self@.controller.has_space(),
    {
        self.controller.may_schedule()
    }

    /// Brings the controller up to a point in time.
    pub fn refresh(&mut self, now: Instant)
        requires
            old(self).wf(),
        ensures
            final(self).wf(),
            final(self)@ == old(self)@.refreshed(now),
            final(self)@.controller.id == old(self)@.controller.id,
            final(self)@.controller.next_id == old(self)@.controller.next_id,
            final(self)@.controller.config == old(self)@.controller.config,
            final(self)@.controller.inflight == old(self)@.controller.inflight,
    {
        let _ = self.load(now);
    }

    /// Brings the controller up to a point in time and returns its load.
    pub fn load(&mut self, now: Instant) -> (r: Double)
        requires
            old(self).wf(),
        ensures
            final(self).wf(),
            final(self)@ == old(self)@.refreshed(now),
            r == final(self)@.controller.load(now),
            final(self)@.controller.id == old(self)@.controller.id,
            final(self)@.controller.next_id == old(self)@.controller.next_id,
            final(self)@.controller.config == old(self)@.controller.config,
            final(self)@.controller.inflight == old(self)@.controller.inflight,
    {
        proof {
            model::lemma_refresh_keeps(self.controller@, now);
        }
        reveal(EndpointRuntime::wf);
        reveal(Station::wf);
        reveal(Station::refreshed);
        self.controller.load(now)
    }

    /// Asks the head of the queue when it should be looked at again.
    pub fn next_dispatch_at(&mut self, now: Instant) -> (r: Option<Instant>)
        requires
            old(self).wf(),
        ensures
            final(self).wf(),
            final(self)@ == old(self)@.asked(now),
            r == old(self)@.next_dispatch(now),
            final(self)@.controller.id == old(self)@.controller.id,
            final(self)@.controller.next_id == old(self)@.controller.next_id,
            final(self)@.controller.config == old(self)@.controller.config,
            final(self)@.controller.inflight == old(self)@.controller.inflight,
    {
        reveal(EndpointRuntime::wf);
        reveal(Station::wf);
        reveal(Station::asked);
        reveal(Station::next_dispatch);
        if self.pending.len() == 0 {
            return None;
        }
        proof {
            model::lemma_refresh_keeps(self.controller@, now);
        }
        let reservation = self.pending[0];
        assert(self.controller@.queued_at(reservation, 0));
        match self.controller.dispatch_state(reservation, now) {
            DispatchState::WaitUntil(at) => Some(at),
            DispatchState::Ready => Some(now),
            _ => None,
        }
    }

    /// Dispatches the head of the queue if it is due.
    fn dispatch_head(&mut self, index: usize, now: Instant) -> (r: Option<Flight>)
        requires
            old(self).wf(),
            old(self)@.controller.pending.len() > 0,
        ensures
            final(self).wf(),
            r is Some <==> old(self)@.ready(now),
            r matches Some(flight) ==> {
                &&& final(self)@ == old(self)@.dispatched_head(now)
                &&& due_of(flight) == old(self)@.started(index as nat, now)
                &&& flight.endpoint == index
                &&& flight.request.owner() == old(self)@.controller.id
                &&& final(self)@.controller.inflight == old(self)@.controller.inflight + 1
                &&& final(self)@.controller.pending.len() < old(self)@.controller.pending.len()
            },
            r is None ==> {
                &&& final(self)@ == old(self)@.asked(now)
                &&& final(self)@.controller.inflight == old(self)@.controller.inflight
            },
            final(self)@.controller.id == old(self)@.controller.id,
            final(self)@.controller.next_id == old(self)@.controller.next_id,
            final(self)@.controller.config == old(self)@.controller.config,
    {
        let ghost station = self@;
        proof {
            model::lemma_refresh_keeps(self.controller@, now);
        }
        reveal(EndpointRuntime::wf);
        reveal(Station::wf);
        reveal(Station::asked);
        reveal(Station::dispatched_head);
        reveal(Station::started);
        let reservation = self.pending[0];
        assert(self.controller@.queued_at(reservation, 0));
        match self.controller.on_dispatched(reservation, now) {
            Ok(request) => {
                let _ = self.pending.pop_front();
                let worker: usize = soonest_worker(&self.available_at);
                let at = saturating_add(
                    self.available_at[worker].later_of(now),
                    self.service_time,
                );
                self.available_at.set(worker, at);
                self.dispatched = self.dispatched + 1;
                assert(self@ =~= station.dispatched_head(now));
                Some(Flight { at, endpoint: index, request })
            },
            Err(_) => None,
        }
    }

    /// Dispatches every request of the queue that is due.
    pub fn drive(&mut self, index: usize, flights: &mut Vec<Flight>, now: Instant)
        requires
            old(self).wf(),
            served_by(old(flights)@, index as int) == old(self)@.controller.inflight,
        ensures
            final(self).wf(),
            (final(self)@, dues(final(flights)@)) == model::driven(
                old(self)@,
                index as nat,
                dues(old(flights)@),
                now,
            ),
            final(self)@.controller.id == old(self)@.controller.id,
            final(self)@.controller.next_id == old(self)@.controller.next_id,
            final(self)@.controller.config == old(self)@.controller.config,
            served_by(final(flights)@, index as int) == final(self)@.controller.inflight,
            forall|j: int|
                j != index ==> #[trigger] served_by(final(flights)@, j) == served_by(
                    old(flights)@,
                    j,
                ),
            old(flights)@.len() <= final(flights)@.len(),
            forall|k: int|
                0 <= k < old(flights)@.len() ==> (#[trigger] final(flights)@[k]) == old(
                    flights,
                )@[k],
            forall|k: int|
                old(flights)@.len() <= k < final(flights)@.len() ==> {
                    &&& (#[trigger] final(flights)@[k]).endpoint == index
                    &&& final(flights)@[k].request.owner() == old(self)@.controller.id
                },
    {
        let ghost before = self@;
        let ghost held = flights@;
        let ghost all = model::driven(before, index as nat, dues(held), now);
        loop
            invariant_except_break
                model::driven(self@, index as nat, dues(flights@), now) == all,
            invariant
                self.wf(),
                self@.controller.id == before.controller.id,
                self@.controller.next_id == before.controller.next_id,
                self@.controller.config == before.controller.config,
                served_by(flights@, index as int) == self@.controller.inflight,
                forall|j: int|
                    j != index ==> #[trigger] served_by(flights@, j) == served_by(held, j),
                held.len() <= flights@.len(),
                forall|k: int| 0 <= k < held.len() ==> (#[trigger] flights@[k]) == held[k],
                forall|k: int|
                    held.len() <= k < flights@.len() ==> {
                        &&& (#[trigger] flights@[k]).endpoint == index
                        &&& flights@[k].request.owner() == before.controller.id
                    },
            ensures
                (self@, dues(flights@)) == all,
            decreases self@.controller.pending.len(),
        {
            let ghost station = self@;
            let ghost flown = flights@;
            if self.queued() == 0 {
                reveal(Station::asked);
                break;
            }
            match self.dispatch_head(index, now) {
                Some(flight) => {
                    flights.push(flight);
                    proof {
                        assert(flights@.drop_last() =~= flown);
                        assert(dues(flights@) =~= dues(flown).push(
                            station.started(index as nat, now),
                        ));
                        assert forall|j: int| j != index implies #[trigger] served_by(flights@, j)
                            == served_by(held, j) by {
                            assert(served_by(flights@, j) == served_by(flights@.drop_last(), j));
                        }
                    }
                },
                None => {
                    break;
                },
            }
        }
    }

    /// Completes a request.
    pub fn complete(&mut self, flight: Flight, now: Instant)
        requires
            old(self).wf(),
            flight.request.owner() == old(self)@.controller.id,
            old(self)@.controller.inflight > 0,
        ensures
            final(self).wf(),
            final(self)@ == old(self)@.finished(due_of(flight), now),
            final(self)@.controller.id == old(self)@.controller.id,
            final(self)@.controller.next_id == old(self)@.controller.next_id,
            final(self)@.controller.config == old(self)@.controller.config,
            final(self)@.controller.inflight == old(self)@.controller.inflight - 1,
    {
        reveal(EndpointRuntime::wf);
        reveal(Station::wf);
        reveal(Station::finished);
        let latency = flight.at.saturating_duration_since(flight.request.dispatched_at());
        let _ = self.controller.on_complete(flight.request, Outcome::Success, latency, now);
        self.completed = self.completed + 1;
    }
}

/// Returns the worker that is free first.
fn soonest_worker(available_at: &Vec<Instant>) -> (r: usize)
    requires
        available_at.len() > 0,
    ensures
        r == model::soonest(available_at@),
        r < available_at.len(),
{
    let mut best: usize = 0;
    let mut i: usize = 1;
    assert(model::soonest(available_at@.take(1)) == 0);
    while i < available_at.len()
        invariant
            1 <= i <= available_at.len(),
            best < i,
            best == model::soonest(available_at@.take(i as int)),
        decreases available_at.len() - i,
    {
        proof {
            assert(available_at@.take(i + 1).drop_last() =~= available_at@.take(i as int));
        }
        if available_at[i].nanos < available_at[best].nanos {
            best = i;
        }
        i = i + 1;
    }
    proof {
        assert(available_at@.take(i as int) =~= available_at@);
    }
    best
}

impl EndpointRuntime {
    /// Makes a reservation, if the endpoint accepts it.
    pub fn reserve(&mut self, now: Instant) -> (r: bool)
        requires
            old(self).wf(),
        ensures
            final(self).wf(),
            r == crate::p2c::accepts(old(self)@.controller),
            r ==> final(self)@ == (Station {
                controller: old(self)@.controller.reserved(now),
                ..old(self)@
            }) && final(self)@.controller.next_id == old(self)@.controller.next_id + 1,
            !r ==> final(self)@ == old(self)@,
            final(self)@.controller.id == old(self)@.controller.id,
            final(self)@.controller.config == old(self)@.controller.config,
            final(self)@.controller.inflight == old(self)@.controller.inflight,
    {
        reveal(EndpointRuntime::wf);
        reveal(Station::wf);
        match self.controller.reserve(now) {
            Ok(reservation) => {
                self.pending.push_back(reservation);
                true
            },
            Err(_) => false,
        }
    }

    /// Reports what the endpoint did.
    pub fn report(&mut self, end: Instant) -> (r: EndpointReport)
        requires
            old(self).wf(),
        ensures
            r == model::reported(old(self)@, end),
            r.dispatched == old(self)@.dispatched,
            old(self)@.dispatched + old(self)@.controller.pending.len() == old(self)@.controller.next_id,
            r.snapshot.queued == old(self)@.controller.pending.len(),
            r.dispatched == r.completed + r.snapshot.inflight,
    {
        reveal(EndpointRuntime::wf);
        reveal(Station::wf);
        reveal(model::reported);
        proof {
            model::lemma_refresh_keeps(self.controller@, end);
        }
        EndpointReport {
            dispatched: self.dispatched,
            completed: self.completed,
            snapshot: self.controller.snapshot(end),
        }
    }
}

} // verus!
