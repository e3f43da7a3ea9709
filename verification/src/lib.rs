//! Runtime-independent adaptive client-side load balancing and backpressure.
//!
//! Loadpace paces requests to each endpoint at a rate that it learns from the
//! endpoint's latency. Every endpoint has an [`EndpointController`]:
//!
//! - a request reserves a slot in a short virtual queue, or is refused;
//! - the head of the queue is dispatched when its slot is due, so dispatches
//!   are spaced and never come in bursts;
//! - the end of each request teaches the controller how much concurrency the
//!   endpoint sustains, and missing feedback slows it down;
//! - rare, temporary probes let a stale allocation recover.
//!
//! [`reserve_pair`] compares two endpoints by their predicted completion time,
//! and [`simulate`] runs whole workloads deterministically. The modules
//! [`request`], [`admission`], [`execution`] and [`dns`] hold the decisions of asynchronous
//! adapters, which own the waiting, the locks and the clock.
//!
//! Nothing here reads a clock or blocks: time is an argument. Rates and
//! concurrencies are double-precision numbers, computed on their bit patterns
//! by [`Double`].
//!
//! What is promised of all this stands in proof functions whose names begin with
//! `law_`: beside what they speak of, or by subject in [`laws`], [`history`],
//! [`lifecycle`], [`learning`], [`steering`], [`perturbation`], [`routing`],
//! [`derivation`], [`samples`], [`powers`] and [`rounding`].

use vstd::prelude::*;

pub mod admission;
pub mod controller;
pub mod derivation;
pub mod dns;
pub mod double;
pub mod entropy;
pub mod errors;
pub mod execution;
pub mod gcra;
pub mod gradient;
pub mod history;
pub mod identity;
pub mod latency;
pub mod laws;
pub mod learning;
pub mod lifecycle;
pub mod p2c;
pub mod perturbation;
pub mod powers;
pub mod precision;
pub mod probe;
pub mod request;
pub mod rounding;
pub mod routing;
pub mod samples;
pub mod simulator;
pub mod steering;
pub mod time;

pub use controller::{
    Completion, ControllerChanges, ControllerSnapshot, DispatchReservation, DispatchState,
    EndpointConfig, EndpointController, InFlightRequest, Outcome, Tuning,
};
pub use double::Double;
pub use gcra::{Gcra, GcraReservation};
pub use gradient::{Gradient2, Gradient2Config};
pub use latency::{LatencyEstimator, LatencyEstimatorConfig};
pub use p2c::{reserve_pair, PairChoice};
pub use probe::{Probe, ProbeKind, ProbeSchedule, ProbeState};
pub use simulator::{
    simulate, EndpointReport, SimulatedEndpoint, SimulationConfig, SimulationReport,
};
pub use time::{Duration, Instant};

verus! {

/// A small error used by callers that want to model rejected scheduling
/// explicitly in a simulator or their own adapter.
#[derive(Debug, Clone, Copy, PartialEq, Eq, Structural)]
pub enum ScheduleError {
    /// The endpoint's bounded scheduling horizon is full.
    QueueFull,
    /// The controller exhausted its request identity space.
    IdExhausted,
}

} // verus!
