//! A simulation from its first event to its last.

use super::ending;
use super::model::{self, Progress, Station};
use super::pool::{self, choose_p2c, complete_ready, drive_all};
use super::station::{self, EndpointRuntime, Flight};
use super::{EndpointReport, SimulatedEndpoint, SimulationReport};
use crate::entropy::seeded;
use crate::gcra::saturating_add;
use crate::time::{Duration, Instant};
use rand::rngs::StdRng;
use vstd::prelude::*;

verus! {

/// A simulation in progress.
pub struct Simulation {
    next_arrival: Instant,
    offered: u64,
    accepted: u64,
    backpressured: u64,
    max_queued: usize,
    rng: StdRng,
    endpoints: Vec<EndpointRuntime>,
    flights: Vec<Flight>,
}

impl View for Simulation {
    type V = Progress;

    closed spec fn view(&self) -> Progress {
        Progress {
            next_arrival: self.next_arrival,
            offered: self.offered as nat,
            accepted: self.accepted as nat,
            backpressured: self.backpressured as nat,
            max_queued: self.max_queued as nat,
            words: crate::entropy::upcoming(self.rng),
            stations: pool::stations(self.endpoints@),
            due: station::dues(self.flights@),
        }
    }
}

impl Simulation {
    /// What holds between events: one request arrives per interval, every
    /// request was accepted or not, and the accepted ones are the reservations
    /// that were made.
    #[verifier::opaque]
    pub closed spec fn wf(self, interval: Duration, endpoints: Seq<SimulatedEndpoint>) -> bool {
        &&& pool::linked(self.endpoints@, self.flights@)
        &&& self.endpoints@.len() == endpoints.len()
        &&& forall|i: int|
            0 <= i < endpoints.len() ==> (#[trigger] self.endpoints@[i])@.controller.config
                == endpoints[i].config
        &&& self.next_arrival.nanos == self.offered * interval.nanos
        &&& self.offered == self.accepted + self.backpressured
        &&& self.accepted == model::total(pool::made(self.endpoints@))
        &&& self.max_queued <= model::widest_horizon(endpoints)
    }

    /// Prepares a simulation.
    pub fn new(listed: &Vec<SimulatedEndpoint>, seed: u64, Ghost(interval): Ghost<Duration>) -> (r:
        Simulation)
        requires
            forall|i: int|
                0 <= i < listed@.len() ==> {
                    &&& (#[trigger] listed@[i]).workers > 0
                    &&& listed@[i].service_time.nanos > 0
                    &&& listed@[i].config.valid()
                },
        ensures
            r@ == Progress::fresh(listed@, seed),
            r.wf(interval, listed@),
    {
        let start = Instant { nanos: 0 };
        let mut endpoints: Vec<EndpointRuntime> = Vec::new();
        let mut i: usize = 0;
        while i < listed.len()
            invariant
                i <= listed@.len(),
                forall|i: int|
                    0 <= i < listed@.len() ==> {
                        &&& (#[trigger] listed@[i]).workers > 0
                        &&& listed@[i].service_time.nanos > 0
                        &&& listed@[i].config.valid()
                    },
                endpoints@.len() == i,
                forall|j: int|
                    0 <= j < i ==> {
                        &&& (#[trigger] endpoints@[j]).wf()
                        &&& endpoints@[j]@ == Station::fresh(listed@[j], j as nat, seed)
                        &&& endpoints@[j]@.controller.inflight == 0
                        &&& endpoints@[j]@.controller.next_id == 0
                        &&& endpoints@[j]@.controller.config == listed@[j].config
                    },
            decreases listed@.len() - i,
        {
            assert(listed@[i as int].config.valid());
            let endpoint = EndpointRuntime::new(&listed[i], i, seed);
            endpoints.push(endpoint);
            i = i + 1;
        }
        let simulation = Simulation {
            next_arrival: start,
            offered: 0,
            accepted: 0,
            backpressured: 0,
            max_queued: 0,
            rng: seeded(seed),
            endpoints,
            flights: Vec::new(),
        };
        proof {
            assert(simulation@ =~= Progress::fresh(listed@, seed));
            assert(0 * interval.nanos == 0) by (nonlinear_arith);
            model::lemma_total_zero(pool::made(simulation.endpoints@));
            reveal(Simulation::wf);
        }
        simulation
    }

    /// Asks for the time of the next event.
    fn next_event(&mut self, Ghost(interval): Ghost<Duration>, Ghost(endpoints): Ghost<
        Seq<SimulatedEndpoint>,
    >) -> (r: Instant)
        requires
            old(self).wf(interval, endpoints),
        ensures
            final(self).wf(interval, endpoints),
            final(self)@ == old(self)@.asked(),
            r == old(self)@.next_event(),
            r.nanos <= old(self)@.next_arrival.nanos,
    {
        reveal(Progress::asked);
        reveal(Progress::next_event);
        proof {
            reveal(Simulation::wf);
        }
        let ghost before = self@;
        let ghost ends = self.endpoints@;
        let ghost flown = self.flights@;
        let start = Instant { nanos: 0 };
        let mut dispatch: Option<Instant> = None;
        let mut i: usize = 0;
        while i < self.endpoints.len()
            invariant
                i <= self.endpoints@.len(),
                pool::linked(self.endpoints@, self.flights@),
                pool::made(self.endpoints@) == pool::made(ends),
                self.endpoints@.len() == endpoints.len(),
                forall|j: int|
                    0 <= j < endpoints.len() ==> (
                    #[trigger] self.endpoints@[j])@.controller.config == endpoints[j].config,
                start == (Instant { nanos: 0 }),
                before.stations == pool::stations(ends),
                ends.len() == self.endpoints@.len(),
                self@ == (Progress { stations: pool::stations(self.endpoints@), ..before }),
                self.flights@ == flown,
                forall|j: int|
                    0 <= j < i ==> (#[trigger] self.endpoints@[j])@ == ends[j]@.asked(start),
                forall|j: int| i <= j < ends.len() ==> (#[trigger] self.endpoints@[j]) == ends[j],
                dispatch == model::next_dispatch(pool::stations(ends).take(i as int), start),
            decreases self.endpoints@.len() - i,
        {
            let ghost held = self.endpoints@;
            let at = self.endpoints[i].next_dispatch_at(start);
            proof {
                pool::lemma_same_links(held, self.endpoints@, self.flights@);
                assert(pool::made(self.endpoints@) =~= pool::made(held));
                assert(pool::stations(ends).take(i + 1).drop_last() =~= pool::stations(ends).take(i as int));
            }
            dispatch = sooner_of(dispatch, at);
            i = i + 1;
        }
        proof {
            assert(pool::stations(ends).take(i as int) =~= before.stations);
            assert(pool::stations(self.endpoints@) =~= before.asked().stations);
        }
        let done = self.soonest_done();
        let other = sooner_of(done, dispatch);
        match other {
            Some(at) => self.next_arrival.earlier_of(at),
            None => self.next_arrival,
        }
    }

    /// Returns when the first request is done.
    fn soonest_done(&self) -> (r: Option<Instant>)
        ensures
            r == model::first_done(station::dues(self.flights@)),
    {
        let mut first: Option<Instant> = None;
        let mut i: usize = 0;
        while i < self.flights.len()
            invariant
                i <= self.flights@.len(),
                first == model::first_done(station::dues(self.flights@).take(i as int)),
            decreases self.flights@.len() - i,
        {
            proof {
                let all = station::dues(self.flights@);
                assert(all.take(i + 1).drop_last() =~= all.take(i as int));
            }
            first = sooner_of(first, Some(self.flights[i].at));
            i = i + 1;
        }
        proof {
            assert(station::dues(self.flights@).take(i as int) =~= station::dues(self.flights@));
        }
        first
    }

    /// Offers one request.
    fn arrive(&mut self, interval: Duration, now: Instant, Ghost(endpoints): Ghost<
        Seq<SimulatedEndpoint>,
    >)
        requires
            pool::linked(old(self).endpoints@, old(self).flights@),
            old(self).endpoints@.len() == endpoints.len(),
            forall|i: int|
                0 <= i < endpoints.len() ==> (#[trigger] old(self).endpoints@[i])@.controller.config == endpoints[i].config,
            old(self).offered == old(self).accepted + old(self).backpressured,
            old(self).offered < u64::MAX,
            old(self).accepted == model::total(pool::made(old(self).endpoints@)),
        ensures
            final(self)@ == old(self)@.arrived(interval, now),
            final(self).flights@ == old(self).flights@,
            pool::linked(final(self).endpoints@, final(self).flights@),
            final(self).endpoints@.len() == endpoints.len(),
            forall|i: int|
                0 <= i < endpoints.len() ==> (#[trigger] final(self).endpoints@[i])@.controller.config == endpoints[i].config,
            final(self).offered == old(self).offered + 1,
            final(self).offered == final(self).accepted + final(self).backpressured,
            final(self).accepted == model::total(pool::made(final(self).endpoints@)),
            final(self).next_arrival == old(self).next_arrival.later(interval),
            final(self).max_queued == old(self).max_queued,
    {
        reveal(Progress::arrived);
        let ghost before = self@;
        let ghost ends = self.endpoints@;
        self.offered = self.offered + 1;
        let choice = choose_p2c(&mut self.endpoints, &mut self.rng, now, Ghost(self.flights@));
        let ghost heard = self.endpoints@;
        proof {
            assert(pool::made(heard) =~= pool::made(ends));
        }
        let mut taken = false;
        if let Some(index) = choice {
            if self.endpoints[index].reserve(now) {
                taken = true;
                proof {
                    model::lemma_total_update(
                        pool::made(heard),
                        index as int,
                        self.endpoints@[index as int]@.controller.next_id as nat,
                    );
                    assert(pool::made(self.endpoints@) =~= pool::made(heard).update(
                        index as int,
                        self.endpoints@[index as int]@.controller.next_id as nat,
                    ));
                    assert(pool::stations(self.endpoints@) =~= pool::stations(heard).update(
                        index as int,
                        self.endpoints@[index as int]@,
                    ));
                }
            } else {
                assert(pool::stations(self.endpoints@) =~= pool::stations(heard));
                assert(pool::made(self.endpoints@) =~= pool::made(heard));
            }
            proof {
                pool::lemma_same_links(heard, self.endpoints@, self.flights@);
            }
        }
        if taken {
            self.accepted = self.accepted + 1;
        } else {
            self.backpressured = self.backpressured + 1;
        }
        self.next_arrival = saturating_add(self.next_arrival, interval);
        assert(self@ =~= before.arrived(interval, now));
    }

    /// Handles all that happens at one time.
    #[verifier::rlimit(40)]
    #[verifier::spinoff_prover]
    fn step(&mut self, interval: Duration, now: Instant, Ghost(endpoints): Ghost<
        Seq<SimulatedEndpoint>,
    >)
        requires
            old(self).wf(interval, endpoints),
            now.nanos <= old(self)@.next_arrival.nanos,
            now.nanos + interval.nanos < u128::MAX,
            now == old(self)@.next_arrival ==> old(self)@.offered < u64::MAX,
            0 < interval.nanos <= crate::time::MAX_NANOS,
        ensures
            final(self).wf(interval, endpoints),
            final(self)@ == old(self)@.stepped(interval, now),
            final(self)@.next_arrival.nanos == final(self)@.offered * interval.nanos,
            final(self)@.next_arrival.nanos == old(self)@.next_arrival.nanos + if now == old(
                self,
            )@.next_arrival {
                interval.nanos as int
            } else {
                0int
            },
            final(self)@.offered == old(self)@.offered + if now == old(self)@.next_arrival {
                1nat
            } else {
                0nat
            },
    {
        reveal(Progress::stepped);
        reveal(Progress::served);
        proof {
            reveal(Simulation::wf);
        }
        let ghost before = self@;
        let ghost ends = self.endpoints@;
        complete_ready(&mut self.endpoints, &mut self.flights, now);
        drive_all(&mut self.endpoints, &mut self.flights, now);
        proof {
            assert(self@ =~= before.served(now));
            assert(pool::made(self.endpoints@) =~= pool::made(ends));
        }
        if now == self.next_arrival {
            self.arrive(interval, now, Ghost(endpoints));
            proof {
                assert((self.offered - 1) * interval.nanos + interval.nanos == self.offered
                    * interval.nanos) by (nonlinear_arith);
            }
        }
        let ghost heard = self.endpoints@;
        drive_all(&mut self.endpoints, &mut self.flights, now);
        proof {
            assert(pool::made(self.endpoints@) =~= pool::made(heard));
        }
        let queued: usize = self.longest_of_queues();
        proof {
            pool::lemma_horizons(self.endpoints@, endpoints);
        }
        if queued > self.max_queued {
            self.max_queued = queued;
        }
        assert(self@ =~= before.stepped(interval, now));
    }

    /// Returns the length of the longest queue.
    fn longest_of_queues(&self) -> (r: usize)
        requires
            forall|i: int| 0 <= i < self.endpoints@.len() ==> (#[trigger] self.endpoints@[i]).wf(),
        ensures
            r == model::longest_queue(pool::stations(self.endpoints@)),
    {
        let mut longest: usize = 0;
        let mut i: usize = 0;
        while i < self.endpoints.len()
            invariant
                i <= self.endpoints@.len(),
                forall|i: int|
                    0 <= i < self.endpoints@.len() ==> (#[trigger] self.endpoints@[i]).wf(),
                longest == model::longest_queue(pool::stations(self.endpoints@).take(i as int)),
            decreases self.endpoints@.len() - i,
        {
            proof {
                let all = pool::stations(self.endpoints@);
                assert(all.take(i + 1).drop_last() =~= all.take(i as int));
            }
            let queued: usize = self.endpoints[i].queued();
            if queued >= longest {
                longest = queued;
            }
            i = i + 1;
        }
        proof {
            assert(pool::stations(self.endpoints@).take(i as int) =~= pool::stations(self.endpoints@));
        }
        longest
    }
}

/// Returns the earlier of two instants, where either may be missing.
fn sooner_of(a: Option<Instant>, b: Option<Instant>) -> (r: Option<Instant>)
    ensures
        r == model::sooner(a, b),
{
    match (a, b) {
        (Some(x), Some(y)) => Some(x.earlier_of(y)),
        (Some(x), None) => Some(x),
        (None, y) => y,
    }
}

impl Simulation {
    /// Every station is well-formed, and serves what is said to be served by
    /// it.
    proof fn lemma_stations(self, interval: Duration, endpoints: Seq<SimulatedEndpoint>)
        requires
            self.wf(interval, endpoints),
        ensures
            forall|i: int| 0 <= i < self@.stations.len() ==> (#[trigger] self@.stations[i]).wf(),
            forall|k: int|
                0 <= k < self@.due.len() ==> (#[trigger] self@.due[k]).endpoint
                    < self@.stations.len(),
    {
        reveal(Simulation::wf);
        assert forall|i: int| 0 <= i < self@.stations.len() implies (
        #[trigger] self@.stations[i]).wf() by {
            self.endpoints@[i].lemma_station();
        }
        assert forall|k: int| 0 <= k < self@.due.len() implies (#[trigger] self@.due[k]).endpoint
            < self@.stations.len() by {
            assert(self@.due[k] == station::due_of(self.flights@[k]));
        }
    }

    /// Handles one event after the other, up to the end.
    pub fn run(&mut self, interval: Duration, end: Instant, Ghost(endpoints): Ghost<
        Seq<SimulatedEndpoint>,
    >)
        requires
            old(self).wf(interval, endpoints),
            old(self)@.offered == 0,
            old(self)@.next_arrival.nanos == 0,
            end.nanos <= crate::time::MAX_NANOS,
            end.nanos / interval.nanos < u64::MAX,
            0 < interval.nanos <= crate::time::MAX_NANOS,
        ensures
            final(self).wf(interval, endpoints),
            final(self)@ == old(self)@.run(interval, end),
            final(self)@.next_arrival.nanos == final(self)@.offered * interval.nanos,
            final(self)@.next_arrival.nanos > end.nanos,
            final(self)@.offered > 0 ==> (final(self)@.offered - 1) * interval.nanos <= end.nanos,
            forall|k: int|
                0 <= k < final(self)@.due.len() ==> (#[trigger] final(self)@.due[k]).at.nanos
                    > end.nanos,
    {
        let ghost last = self@.run(interval, end);
        assert(0 * interval.nanos == 0) by (nonlinear_arith);
        loop
            invariant_except_break
                self@.run(interval, end) == last,
            invariant
                self.wf(interval, endpoints),
                end.nanos <= crate::time::MAX_NANOS,
                end.nanos / interval.nanos < u64::MAX,
                0 < interval.nanos <= crate::time::MAX_NANOS,
                self@.next_arrival.nanos == self@.offered * interval.nanos,
                self@.offered > 0 ==> (self@.offered - 1) * interval.nanos <= end.nanos,
            ensures
                self@ == last,
                self@.next_arrival.nanos > end.nanos,
                forall|k: int|
                    0 <= k < self@.due.len() ==> (#[trigger] self@.due[k]).at.nanos > end.nanos,
            decreases self@.time_left(end), self@.work_left(end),
        {
            let done = match self.soonest_done() {
                Some(at) => at.nanos > end.nanos,
                None => true,
            };
            proof {
                ending::lemma_first_done(self@.due);
            }
            if self.next_arrival.nanos > end.nanos && done {
                break;
            }
            let ghost before = self@;
            proof {
                self.lemma_stations(interval, endpoints);
            }
            let now = self.next_event(Ghost(interval), Ghost(endpoints));
            proof {
                reveal(Progress::asked);
                self.lemma_stations(interval, endpoints);
            }
            if now.nanos > end.nanos {
                proof {
                    reveal(Progress::next_event);
                }
                break;
            }
            proof {
                if now == before.next_arrival {
                    vstd::arithmetic::div_mod::lemma_div_is_ordered(
                        self@.offered * interval.nanos,
                        end.nanos as int,
                        interval.nanos as int,
                    );
                    vstd::arithmetic::div_mod::lemma_div_by_multiple(
                        self@.offered as int,
                        interval.nanos as int,
                    );
                } else {
                    ending::lemma_event_moves(before, interval, end);
                }
            }
            self.step(interval, now, Ghost(endpoints));
            assert(self@.closer(before, end));
        }
    }

    /// Reports what every endpoint did.
    pub fn report(&mut self, end: Instant, Ghost(interval): Ghost<Duration>, Ghost(endpoints): Ghost<
        Seq<SimulatedEndpoint>,
    >) -> (r: SimulationReport)
        requires
            old(self).wf(interval, endpoints),
        ensures
            r.offered == old(self)@.offered,
            r.accepted == old(self)@.accepted,
            r.backpressured == old(self)@.backpressured,
            r.max_queued == old(self)@.max_queued,
            r.endpoints@ == Seq::new(
                old(self)@.stations.len(),
                |i: int| model::reported(old(self)@.stations[i], end),
            ),
            r.dispatched == model::total(model::dispatched_by(r.endpoints@)),
            r.completed == model::total(model::completed_by(r.endpoints@)),
            r.offered == r.accepted + r.backpressured,
            r.accepted == r.dispatched + model::total(model::queued_at(r.endpoints@)),
            r.completed <= r.dispatched,
            forall|i: int|
                0 <= i < r.endpoints@.len() ==> (#[trigger] r.endpoints@[i]).dispatched
                    == r.endpoints@[i].completed + r.endpoints@[i].snapshot.inflight,
            forall|i: int|
                0 <= i < r.endpoints@.len() ==> (#[trigger] r.endpoints@[i]).completed == old(
                    self,
                )@.stations[i].completed,
            r.max_queued <= model::widest_horizon(endpoints),
            r.endpoints@.len() == endpoints.len(),
    {
        let ghost ends = self.endpoints@;
        let (offered, accepted, backpressured, max_queued) = (
            self.offered,
            self.accepted,
            self.backpressured,
            self.max_queued,
        );
        proof {
            reveal(Simulation::wf);
        }
        let mut reports: Vec<EndpointReport> = Vec::new();
        let mut dispatched: u64 = 0;
        let mut completed: u64 = 0;
        let mut i: usize = 0;
        while i < self.endpoints.len()
            invariant
                i <= ends.len(),
                self.endpoints@.len() == ends.len(),
                accepted == model::total(pool::made(ends)),
                reports@.len() == i,
                forall|j: int| i <= j < ends.len() ==> (#[trigger] self.endpoints@[j]) == ends[j],
                forall|j: int| 0 <= j < ends.len() ==> (#[trigger] ends[j]).wf(),
                forall|j: int|
                    0 <= j < i ==> {
                        &&& (#[trigger] reports@[j]) == model::reported(ends[j]@, end)
                        &&& reports@[j].dispatched + reports@[j].snapshot.queued
                            == ends[j]@.controller.next_id
                        &&& reports@[j].dispatched == reports@[j].completed
                            + reports@[j].snapshot.inflight
                        &&& reports@[j].completed == ends[j]@.completed
                    },
                dispatched == model::total(model::dispatched_by(reports@)),
                completed == model::total(model::completed_by(reports@)),
                completed <= dispatched,
            decreases ends.len() - i,
        {
            let ghost sofar = reports@;
            let report = self.endpoints[i].report(end);
            reports.push(report);
            proof {
                assert(ends[i as int].wf());
                ends[i as int].lemma_station();
                reveal(model::Station::wf);
                reveal(model::reported);
                assert(model::dispatched_by(reports@).drop_last() =~= model::dispatched_by(sofar));
                assert(model::completed_by(reports@).drop_last() =~= model::completed_by(sofar));
                model::lemma_reports_fit(reports@, pool::made(ends));
            }
            dispatched = dispatched + report.dispatched;
            completed = completed + report.completed;
            i = i + 1;
        }
        proof {
            model::lemma_total_adds(model::dispatched_by(reports@), model::queued_at(reports@), pool::made(ends));
        }
        SimulationReport {
            offered,
            accepted,
            backpressured,
            dispatched,
            completed,
            max_queued,
            endpoints: reports,
        }
    }
}

} // verus!
