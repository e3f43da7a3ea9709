//! A small deterministic event-driven simulator for controller changes.
//!
//! The simulator is deliberately kept in the library so algorithm changes can
//! be compared against the same scenarios in unit and integration tests. It is
//! not intended to model a particular protocol or network; endpoints use a
//! fixed service time and a configurable worker pool to expose saturation.

mod ending;
pub mod model;
mod pool;
mod run;
mod station;
pub mod timeline;
pub mod workers;

use crate::controller::{ControllerSnapshot, EndpointConfig};
use crate::double::{Double, ONE};
use crate::gcra::{rate_to_interval, saturating_add};
use crate::time::{Duration, Instant};
use model::Progress;
use run::Simulation;
use vstd::prelude::*;

verus! {

/// A fixed-service-time endpoint used by [`simulate`].
#[derive(Clone, Copy, Debug)]
pub struct SimulatedEndpoint {
    /// The controller's configuration.
    pub config: EndpointConfig,
    /// Number of parallel workers available at the endpoint.
    pub workers: usize,
    /// Time spent by one worker processing a request.
    pub service_time: Duration,
}

/// Configuration for a deterministic offered-load simulation.
#[derive(Clone, Debug)]
pub struct SimulationConfig {
    /// How long load is offered.
    pub duration: Duration,
    /// Requests offered per second.
    pub offered_rate: Double,
    /// The endpoints that share the load.
    pub endpoints: Vec<SimulatedEndpoint>,
    /// The seed of all random choices.
    pub seed: u64,
}

/// Aggregate simulation results.
#[derive(Clone, Debug, PartialEq)]
pub struct SimulationReport {
    /// Requests that arrived.
    pub offered: u64,
    /// Requests that an endpoint accepted.
    pub accepted: u64,
    /// Requests that no endpoint accepted.
    pub backpressured: u64,
    /// Requests that were dispatched.
    pub dispatched: u64,
    /// Requests that were completed.
    pub completed: u64,
    /// The longest queue seen.
    pub max_queued: usize,
    /// The results of each endpoint.
    pub endpoints: Vec<EndpointReport>,
}

/// Per-endpoint simulation results.
#[derive(Clone, Copy, Debug, PartialEq)]
pub struct EndpointReport {
    /// Requests dispatched to the endpoint.
    pub dispatched: u64,
    /// Requests completed by the endpoint.
    pub completed: u64,
    /// The controller at the end.
    pub snapshot: ControllerSnapshot,
}

impl SimulationConfig {
    /// Whether the simulation can be run: its arrival interval can be
    /// represented, its arrivals can be counted, there is at least one
    /// endpoint, and each has a valid configuration, a worker and a positive
    /// service time.
    pub open spec fn valid(self) -> bool {
        &&& crate::gcra::representable(self.offered_rate)
        &&& self.duration.nanos <= crate::time::MAX_NANOS
        &&& self.duration.nanos / self.arrival_interval().nanos < u64::MAX
        &&& self.endpoints@.len() > 0
        &&& forall|i: int|
            0 <= i < self.endpoints@.len() ==> {
                &&& (#[trigger] self.endpoints@[i]).workers > 0
                &&& self.endpoints@[i].service_time.nanos > 0
                &&& self.endpoints@[i].config.valid()
            }
    }

    /// The time between two arrivals.
    pub open spec fn arrival_interval(self) -> Duration {
        crate::gcra::spacing(self.offered_rate)
    }

    /// The time of the last possible event.
    pub open spec fn end(self) -> Instant {
        (Instant { nanos: 0 }).later(self.duration)
    }

    /// The simulation after its last event.
    pub open spec fn outcome(self) -> Progress {
        Progress::fresh(self.endpoints@, self.seed).run(self.arrival_interval(), self.end())
    }

    /// The results of each endpoint.
    pub open spec fn reports(self) -> Seq<EndpointReport> {
        let stations = self.outcome().stations;
        Seq::new(stations.len(), |i: int| model::reported(stations[i], self.end()))
    }

    /// Returns whether the simulation can be run.
    pub fn is_valid(&self) -> (r: bool)
        ensures
            r == self.valid(),
    {
        let one = Double { bits: ONE };
        if self.offered_rate.bits == 0 || self.offered_rate.bits >= crate::double::INFINITY
            || one.over(self.offered_rate).bits >= crate::gcra::SECONDS_LIMIT {
            return false;
        }
        let interval = rate_to_interval(self.offered_rate);
        if self.duration.nanos > crate::time::MAX_NANOS || self.duration.nanos / interval.nanos
            >= u64::MAX as u128 || self.endpoints.len() == 0 {
            return false;
        }
        let mut i: usize = 0;
        while i < self.endpoints.len()
            invariant
                i <= self.endpoints@.len(),
                forall|j: int|
                    0 <= j < i ==> {
                        &&& (#[trigger] self.endpoints@[j]).workers > 0
                        &&& self.endpoints@[j].service_time.nanos > 0
                        &&& self.endpoints@[j].config.valid()
                    },
            decreases self.endpoints@.len() - i,
        {
            let endpoint = &self.endpoints[i];
            if endpoint.workers == 0 || endpoint.service_time.is_zero()
                || !endpoint.config.is_valid() {
                return false;
            }
            i = i + 1;
        }
        true
    }
}

impl Default for SimulationConfig {
    fn default() -> (r: SimulationConfig)
        ensures
            r.duration.nanos == 10_000_000_000,
            r.offered_rate.bits == ONE,
            r.endpoints@.len() == 1,
            r.endpoints@[0].workers == 1,
            r.endpoints@[0].service_time.nanos == 50_000_000,
            r.endpoints@[0].config.expected_rtt.nanos == 50_000_000,
            r.endpoints@[0].config.initial_concurrency == 1,
            r.endpoints@[0].config.queue_tolerance.nanos == 25_000_000,
            r.endpoints@[0].config.queue_capacity == 4,
            r.endpoints@[0].config.max_inflight == 1024,
            r.endpoints@[0].config.valid(),
            r.seed == 1,
            r.valid(),
    {
        proof {
            // One request per second has an interval of one second.
            vstd::arithmetic::power2::lemma_pow2_pos(1074);
            crate::double::lemma_one();
            crate::double::lemma_itself(
                Double { bits: ONE },
                vstd::arithmetic::power2::pow2(1074),
            );
        }
        let endpoint = SimulatedEndpoint {
            config: EndpointConfig::new(Duration::from_millis(50), 1),
            workers: 1,
            service_time: Duration::from_millis(50),
        };
        let mut endpoints: Vec<SimulatedEndpoint> = Vec::new();
        endpoints.push(endpoint);
        SimulationConfig {
            duration: Duration::from_secs(10),
            offered_rate: Double { bits: ONE },
            endpoints,
            seed: 1,
        }
    }
}

/// Runs a fixed offered-rate workload through adaptive endpoints and P2C.
///
/// The same configuration always gives the same report.
pub fn simulate(config: SimulationConfig) -> (r: SimulationReport)
    requires
        config.valid(),
    ensures
        r.offered == config.outcome().offered,
        r.accepted == config.outcome().accepted,
        r.backpressured == config.outcome().backpressured,
        r.max_queued == config.outcome().max_queued,
        r.endpoints@ == config.reports(),
        r.dispatched == model::total(model::dispatched_by(r.endpoints@)),
        r.completed == model::total(model::completed_by(r.endpoints@)),
        // One request arrives at the start and one after every interval.
        r.offered == config.duration.nanos / config.arrival_interval().nanos + 1,
        // Every request is accepted or not, and every accepted one is
        // dispatched or still queued.
        r.offered == r.accepted + r.backpressured,
        r.accepted == r.dispatched + model::total(model::queued_at(r.endpoints@)),
        r.completed <= r.dispatched,
        // What an endpoint dispatched is completed or still inflight.
        forall|i: int|
            0 <= i < r.endpoints@.len() ==> (#[trigger] r.endpoints@[i]).dispatched
                == r.endpoints@[i].completed + r.endpoints@[i].snapshot.inflight,
        // A worker serves one request at a time.
        forall|i: int|
            0 <= i < r.endpoints@.len() ==> (#[trigger] r.endpoints@[i]).completed
                <= config.endpoints@[i].workers * (config.duration.nanos
                / config.endpoints@[i].service_time.nanos),
        // What is done by the end is completed.
        forall|k: int|
            0 <= k < config.outcome().due.len() ==> (#[trigger] config.outcome().due[k]).at.nanos
                > config.duration.nanos,
        // No queue outgrows its horizon.
        r.max_queued <= model::widest_horizon(config.endpoints@),
        r.endpoints@.len() == config.endpoints@.len(),
{
    let interval = rate_to_interval(config.offered_rate);
    let start = Instant { nanos: 0 };
    let end = saturating_add(start, config.duration);
    let ghost listed = config.endpoints@;
    let mut simulation = Simulation::new(&config.endpoints, config.seed, Ghost(interval));
    simulation.run(interval, end, Ghost(listed));
    proof {
        assert forall|i: int| 0 <= i < listed.len() implies (#[trigger] config.endpoints@[i]).workers
            * (config.duration.nanos / config.endpoints@[i].service_time.nanos)
            >= config.outcome().stations[i].completed by {
            workers::law_workers_limit_completions(config, i);
        }
    }
    proof {
        model::lemma_offered(
            simulation@.offered as int,
            interval.nanos as int,
            end.nanos as int,
        );
    }
    simulation.report(end, Ghost(interval), Ghost(listed))
}

} // verus!
