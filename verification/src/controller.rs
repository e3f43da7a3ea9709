//! The adaptive controller of one endpoint.

use crate::double::{Double, INFINITY, ONE};
use crate::entropy::{seeded, unpredictable};
use crate::gcra::{rate_to_interval, saturating_add, Gcra, Pacing};
use crate::gradient::{Gradient2, Gradient2Config, OperatingPoint};
use crate::latency::{Latency, LatencyEstimator, LatencyEstimatorConfig};
use crate::probe::{Probe, ProbeKind, ProbeSchedule, ProbeState, Probing};
use crate::time::{Duration, Instant};
use crate::ScheduleError;
use rand::rngs::StdRng;
use std::collections::VecDeque;
use vstd::prelude::*;

verus! {

broadcast use vstd::std_specs::vecdeque::group_vec_dequeue_axioms;

/// The encoding of two, the half-life of the short average in RTTs.
pub const SHORT_RTT_HALF_LIVES: u64 = 0x4000_0000_0000_0000;

/// The encoding of twenty, the half-life of the long average in RTTs.
pub const LONG_RTT_HALF_LIVES: u64 = 0x4034_0000_0000_0000;

/// How many expected RTTs the baseline window covers.
pub const BASELINE_RTT_WINDOWS: u32 = 1_200;

/// The encoding of two to the power -63: two requests in the longest duration.
pub const MINIMUM_RATE: u64 = 0x3C00_0000_0000_0000;

/// The initial concurrency up to which every configuration has averages that
/// give a sample some weight: two to the power 40.
pub const ORDINARY_CONCURRENCY: u64 = 0x100_0000_0000;

/// Configuration for one adaptive endpoint.
#[derive(Clone, Copy, Debug, PartialEq, Eq, Structural)]
pub struct EndpointConfig {
    /// The initial dispatch-to-response RTT estimate.
    pub expected_rtt: Duration,
    /// The initial sustainable concurrency assumption.
    pub initial_concurrency: usize,
    /// The queueing delay tolerated by congestion control.
    pub queue_tolerance: Duration,
    /// The bounded scheduling horizon.
    pub queue_capacity: usize,
    /// The emergency cap on dispatched requests.
    pub max_inflight: usize,
}

/// The parameters of the estimator, of congestion control and of probing.
#[derive(Clone, Copy, Debug)]
pub struct Tuning {
    /// Parameters of the latency estimator.
    pub latency: LatencyEstimatorConfig,
    /// Parameters of the operating point.
    pub gradient: Gradient2Config,
    /// Parameters of probing.
    pub probe_schedule: ProbeSchedule,
}

/// The weight of one sample in an average with a half-life of this many
/// samples.
pub open spec fn sample_weight(samples_per_half_life: Double) -> Double {
    let one = Double { bits: ONE };
    one.difference(one.quotient(samples_per_half_life).halved())
}

impl EndpointConfig {
    /// The estimator parameters that follow from the workload.
    pub open spec fn latency_tuning(self) -> LatencyEstimatorConfig {
        let samples_per_rtt = Double::whole(self.initial_concurrency as nat);
        LatencyEstimatorConfig {
            initial_rtt: self.expected_rtt,
            short_alpha: sample_weight(
                samples_per_rtt.product(Double { bits: SHORT_RTT_HALF_LIVES }),
            ),
            long_alpha: sample_weight(
                samples_per_rtt.product(Double { bits: LONG_RTT_HALF_LIVES }),
            ),
            min_rtt: (Duration { nanos: 1_000 }).shorter_of(self.expected_rtt),
            baseline_window: (Duration {
                nanos: crate::time::capped(self.expected_rtt.nanos * BASELINE_RTT_WINDOWS),
            }).longer_of(Duration { nanos: 60_000_000_000 }),
        }
    }

    /// The operating-point parameters that follow from the workload.
    pub open spec fn gradient_tuning(self) -> Gradient2Config {
        Gradient2Config {
            initial_concurrency: Double::whole(self.initial_concurrency as nat),
            min_concurrency: Double { bits: 0x3FD0_0000_0000_0000 },
            max_concurrency: Double::whole(self.max_inflight as nat),
            queue_tolerance: self.queue_tolerance,
            gain: Double { bits: 0x3FB9_9999_9999_999A },
            smoothing: Double { bits: 0x3FC9_9999_9999_999A },
            update_interval: Duration {
                nanos: crate::time::capped(self.expected_rtt.nanos * 2),
            },
            failure_factor: Double { bits: 0x3FE6_6666_6666_6666 },
        }
    }

    /// All parameters that follow from the workload.
    pub open spec fn tuned(self) -> Tuning {
        Tuning {
            latency: self.latency_tuning(),
            gradient: self.gradient_tuning(),
            probe_schedule: ProbeSchedule::usual(),
        }
    }

    /// Whether the limits are positive, and the initial concurrency is
    /// positive and does not exceed the emergency cap.
    pub open spec fn sound(self) -> bool {
        &&& self.expected_rtt.nanos > 0
        &&& 0 < self.initial_concurrency <= self.max_inflight
        &&& self.queue_capacity > 0
    }

    /// Whether a controller can be made of this configuration: its limits are
    /// sound and its averages give a sample some weight.
    pub open spec fn valid(self) -> bool {
        &&& self.sound()
        &&& self.latency_tuning().short_alpha.bits > 0
        &&& self.latency_tuning().long_alpha.bits > 0
    }

    /// Creates endpoint configuration from workload-level assumptions.
    ///
    /// `expected_rtt` is the typical dispatch-to-response round-trip time
    /// before the controller has observations. `initial_concurrency` is the
    /// number of requests the endpoint is expected to sustain concurrently at
    /// startup. Together they establish the initial rate using Little's Law.
    ///
    /// Algorithm-specific estimator, congestion-control, and probe parameters
    /// are derived internally so applications are not coupled to a particular
    /// controller implementation.
    pub fn new(expected_rtt: Duration, initial_concurrency: usize) -> (r: EndpointConfig)
        requires
            expected_rtt.nanos > 0,
            initial_concurrency > 0,
        ensures
            r.expected_rtt == expected_rtt,
            r.initial_concurrency == initial_concurrency,
            r.queue_tolerance.nanos == expected_rtt.nanos / 2,
            r.queue_capacity == 4,
            r.max_inflight == (if 4 * initial_concurrency > usize::MAX {
                usize::MAX as int
            } else if 4 * initial_concurrency > 1024 {
                4 * initial_concurrency
            } else {
                1024
            }),
            r.sound(),
            initial_concurrency <= ORDINARY_CONCURRENCY ==> r.valid(),
    {
        let most: usize = if initial_concurrency > usize::MAX / 4 {
            usize::MAX
        } else if initial_concurrency * 4 > 1024 {
            initial_concurrency * 4
        } else {
            1024
        };
        let config = EndpointConfig {
            expected_rtt,
            initial_concurrency,
            queue_tolerance: Duration { nanos: expected_rtt.nanos / 2 },
            queue_capacity: 4,
            max_inflight: most,
        };
        proof {
            if initial_concurrency <= ORDINARY_CONCURRENCY {
                lemma_ordinary_concurrency(config);
            }
        }
        config
    }

    /// Returns whether a controller can be made of this configuration.
    pub fn is_valid(&self) -> (r: bool)
        ensures
            r == self.valid(),
    {
        let tuning = self.latency_config();
        self.expected_rtt.nanos > 0 && self.initial_concurrency > 0 && self.initial_concurrency
            <= self.max_inflight && self.queue_capacity > 0 && tuning.short_alpha.bits > 0
            && tuning.long_alpha.bits > 0
    }

    /// Returns the initial dispatch-to-response RTT estimate.
    pub fn expected_rtt(&self) -> (r: Duration)
        ensures
            r == self.expected_rtt,
    {
        self.expected_rtt
    }

    /// Returns the initial sustainable concurrency assumption.
    pub fn initial_concurrency(&self) -> (r: usize)
        ensures
            r == self.initial_concurrency,
    {
        self.initial_concurrency
    }

    /// Returns the queueing delay tolerated by congestion control.
    pub fn queue_tolerance(&self) -> (r: Duration)
        ensures
            r == self.queue_tolerance,
    {
        self.queue_tolerance
    }

    /// Returns the bounded scheduling horizon per endpoint.
    pub fn queue_capacity(&self) -> (r: usize)
        ensures
            r == self.queue_capacity,
    {
        self.queue_capacity
    }

    /// Returns the emergency cap on dispatched requests.
    pub fn max_inflight(&self) -> (r: usize)
        ensures
            r == self.max_inflight,
    {
        self.max_inflight
    }

    /// Sets the queueing delay tolerated before reducing the operating point.
    ///
    /// The default is half of `expected_rtt`. This is an absolute delay budget,
    /// not a multiplier, so callers can align it with a service-level target.
    pub fn with_queue_tolerance(self, tolerance: Duration) -> (r: EndpointConfig)
        ensures
            r == (EndpointConfig { queue_tolerance: tolerance, ..self }),
    {
        EndpointConfig { queue_tolerance: tolerance, ..self }
    }

    /// Sets the maximum number of accepted but not-yet-dispatched requests.
    ///
    /// This is a bounded scheduling horizon rather than an overload buffer.
    /// A controller rejects further reservations once the capacity is used.
    pub fn with_queue_capacity(self, capacity: usize) -> (r: EndpointConfig)
        ensures
            r == (EndpointConfig { queue_capacity: capacity, ..self }),
    {
        EndpointConfig { queue_capacity: capacity, ..self }
    }

    /// Sets the emergency cap on requests that have actually dispatched.
    ///
    /// Normal traffic should be controlled by pacing before this limit is
    /// reached. The cap protects against pathological latency and stuck work.
    pub fn with_max_inflight(self, max_inflight: usize) -> (r: EndpointConfig)
        ensures
            r == (EndpointConfig { max_inflight, ..self }),
    {
        EndpointConfig { max_inflight, ..self }
    }

    /// Derives the estimator parameters.
    pub fn latency_config(&self) -> (r: LatencyEstimatorConfig)
        ensures
            r == self.latency_tuning(),
    {
        let samples_per_rtt = Double::from_int(self.initial_concurrency as u128);
        LatencyEstimatorConfig {
            initial_rtt: self.expected_rtt,
            short_alpha: ewma_alpha(
                samples_per_rtt.times(Double { bits: SHORT_RTT_HALF_LIVES }),
            ),
            long_alpha: ewma_alpha(samples_per_rtt.times(Double { bits: LONG_RTT_HALF_LIVES })),
            min_rtt: Duration::from_micros(1).shorter(self.expected_rtt),
            baseline_window: self.expected_rtt.saturating_mul(BASELINE_RTT_WINDOWS).longer(
                Duration::from_secs(60),
            ),
        }
    }

    /// Derives the operating-point parameters.
    pub fn gradient_config(&self) -> (r: Gradient2Config)
        ensures
            r == self.gradient_tuning(),
    {
        Gradient2Config {
            initial_concurrency: Double::from_int(self.initial_concurrency as u128),
            min_concurrency: Double { bits: 0x3FD0_0000_0000_0000 },
            max_concurrency: Double::from_int(self.max_inflight as u128),
            queue_tolerance: self.queue_tolerance,
            gain: Double { bits: 0x3FB9_9999_9999_999A },
            smoothing: Double { bits: 0x3FC9_9999_9999_999A },
            update_interval: self.expected_rtt.saturating_mul(2),
            failure_factor: Double { bits: 0x3FE6_6666_6666_6666 },
        }
    }

    /// Derives the probing parameters.
    pub fn probe_schedule(&self) -> (r: ProbeSchedule)
        ensures
            r == ProbeSchedule::usual(),
    {
        ProbeSchedule::default()
    }

    /// Derives all parameters.
    pub fn tuning(&self) -> (r: Tuning)
        ensures
            r == self.tuned(),
    {
        Tuning {
            latency: self.latency_config(),
            gradient: self.gradient_config(),
            probe_schedule: self.probe_schedule(),
        }
    }
}

impl Default for Tuning {
    fn default() -> (r: Tuning)
        ensures
            r.valid(),
            r.probe_schedule == ProbeSchedule::usual(),
            r.latency.initial_rtt.nanos == 50_000_000,
            r.latency.short_alpha.bits == 0x3FD0_0000_0000_0000,
            r.latency.long_alpha.bits == 0x3FA9_9999_9999_999A,
            r.latency.min_rtt.nanos == 1_000,
            r.latency.baseline_window.nanos == 60_000_000_000,
            r.gradient.initial_concurrency.bits == ONE,
            r.gradient.min_concurrency.bits == 0x3FD0_0000_0000_0000,
            r.gradient.max_concurrency.bits == 0x4090_0000_0000_0000,
            r.gradient.queue_tolerance.nanos == 25_000_000,
            r.gradient.gain.bits == 0x3FB9_9999_9999_999A,
            r.gradient.smoothing.bits == 0x3FC9_9999_9999_999A,
            r.gradient.update_interval.nanos == 100_000_000,
            r.gradient.failure_factor.bits == 0x3FE6_6666_6666_6666,
    {
        Tuning {
            latency: LatencyEstimatorConfig::default(),
            gradient: Gradient2Config::default(),
            probe_schedule: ProbeSchedule::default(),
        }
    }
}

impl Tuning {
    /// Whether the parameters are valid.
    pub open spec fn valid(self) -> bool {
        &&& self.latency.valid()
        &&& self.gradient.valid()
        &&& self.probe_schedule.valid()
    }

    /// Returns whether the parameters are valid.
    pub fn is_valid(&self) -> (r: bool)
        ensures
            r == self.valid(),
    {
        self.latency.is_valid() && self.gradient.is_valid() && self.probe_schedule.validate()
    }
}

/// Returns the weight of one sample in an average with a half-life of this
/// many samples.
fn ewma_alpha(samples_per_half_life: Double) -> (r: Double)
    ensures
        r == sample_weight(samples_per_half_life),
{
    let one = Double { bits: ONE };
    one.minus(one.over(samples_per_half_life).halve())
}

/// The parameters that follow from a valid configuration are valid.
pub proof fn lemma_tuning_is_valid(config: EndpointConfig)
    requires
        config.valid(),
    ensures
        config.tuned().valid(),
{
    crate::probe::lemma_usual_is_valid();
    crate::double::lemma_whole_positive(config.initial_concurrency as nat);
    crate::double::lemma_whole_monotone(
        config.initial_concurrency as nat,
        config.max_inflight as nat,
    );
    vstd::arithmetic::power2::lemma2_to64_rest();
    crate::double::lemma_whole_at_most(config.max_inflight as nat, 64);
    let one = Double { bits: ONE };
    let samples = Double::whole(config.initial_concurrency as nat);
    let short = samples.product(Double { bits: SHORT_RTT_HALF_LIVES });
    let long = samples.product(Double { bits: LONG_RTT_HALF_LIVES });
    crate::double::lemma_difference_at_most(one, one.quotient(short).halved());
    crate::double::lemma_difference_at_most(one, one.quotient(long).halved());
}

/// An initial concurrency up to two to the power 40 leaves every sample some
/// weight.
pub proof fn lemma_ordinary_concurrency(config: EndpointConfig)
    requires
        config.sound(),
        config.initial_concurrency <= ORDINARY_CONCURRENCY,
    ensures
        config.valid(),
{
    let n = config.initial_concurrency as nat;
    let samples = Double::whole(n);
    vstd::arithmetic::power2::lemma2_to64_rest();
    crate::double::lemma_whole_positive(n);
    crate::double::lemma_whole_at_most(n, 40);
    crate::double::lemma_weight_positive(samples, Double { bits: SHORT_RTT_HALF_LIVES });
    crate::double::lemma_weight_positive(samples, Double { bits: LONG_RTT_HALF_LIVES });
}

/// Classification supplied by the caller after a request completes.
#[derive(Clone, Copy, Debug, PartialEq, Eq, Structural)]
pub enum Outcome {
    /// The response represents healthy work for this endpoint.
    Success,
    /// Endpoint feedback indicates an unhealthy response or transport error.
    ///
    /// Use [`EndpointController::on_abandoned`] instead when a request ends
    /// without receiving endpoint feedback, such as after cancellation or a
    /// client-side timeout.
    Failure,
}

/// How a dispatched request ended, for [`EndpointController::finish`].
///
/// Classify endpoint feedback separately from a local timeout or cancellation:
/// only real feedback resets the controller's missing-feedback clock.
#[derive(Clone, Copy, Debug, PartialEq, Eq, Structural)]
pub enum Completion {
    /// Healthy endpoint feedback; observe the dispatch-to-completion RTT.
    Success,
    /// Unhealthy endpoint feedback; penalize the operating point without an RTT sample.
    Failure,
    /// No endpoint feedback, such as a local timeout or cancellation.
    ///
    /// Release inflight accounting and penalize the operating point, preserving
    /// the missing-feedback clock while other requests remain inflight.
    Abandoned,
}

/// Coalesced wakeup effects returned by [`EndpointController::take_changes`].
///
/// These flags request a state recheck, not a readiness grant. Multiple changes
/// can accumulate before they are taken, including changes that undo one another.
#[derive(Clone, Copy, Debug, PartialEq, Eq, Structural)]
pub struct ControllerChanges {
    /// Space was released from the bounded scheduling horizon.
    ///
    /// Wake callers waiting to reserve a slot. Other callers may have consumed
    /// the space since it was released, so admission must still be checked.
    pub admission: bool,
    /// Queued requests should recheck their dispatch state.
    ///
    /// FIFO order, pacing deadlines, probe transitions, or inflight capacity
    /// may have changed. This flag can be conservative.
    pub dispatch: bool,
}

impl Default for ControllerChanges {
    fn default() -> (r: ControllerChanges)
        ensures
            r == ControllerChanges::none(),
    {
        ControllerChanges { admission: false, dispatch: false }
    }
}

impl ControllerChanges {
    /// No effects.
    pub open spec fn none() -> ControllerChanges {
        ControllerChanges { admission: false, dispatch: false }
    }
}

/// A request that has reserved a slot in the endpoint's virtual queue.
#[derive(Clone, Copy, Debug, PartialEq, Eq, Structural)]
pub struct DispatchReservation {
    controller_id: u64,
    id: u64,
}

impl DispatchReservation {
    /// The controller that made the reservation.
    pub closed spec fn owner(self) -> u64 {
        self.controller_id
    }

    /// The identity of the reservation at that controller.
    pub closed spec fn number(self) -> u64 {
        self.id
    }
}

/// A request that has actually been dispatched and is now counted against the
/// emergency inflight cap.
#[derive(Debug, PartialEq, Eq)]
pub struct InFlightRequest {
    controller_id: u64,
    dispatched_at: Instant,
    was_paced: bool,
}

impl InFlightRequest {
    /// The controller that dispatched the request.
    pub closed spec fn owner(self) -> u64 {
        self.controller_id
    }

    /// When the request was dispatched.
    pub closed spec fn sent_at(self) -> Instant {
        self.dispatched_at
    }

    /// Whether the request waited for its slot.
    pub closed spec fn paced(self) -> bool {
        self.was_paced
    }

    /// Returns the actual dispatch time used for RTT measurement.
    pub fn dispatched_at(&self) -> (r: Instant)
        ensures
            r == self.sent_at(),
    {
        self.dispatched_at
    }

    /// Returns whether the request waited for a future GCRA slot.
    pub fn was_paced(&self) -> (r: bool)
        ensures
            r == self.paced(),
    {
        self.was_paced
    }
}

/// The result of asking whether a virtual queue reservation may dispatch.
#[derive(Clone, Copy, Debug, PartialEq, Eq, Structural)]
pub enum DispatchState {
    /// The reservation is at the queue head and may dispatch immediately.
    Ready,
    /// The controller should be checked again at this instant.
    ///
    /// This may be the reservation's pacing deadline or an earlier internal
    /// controller transition, such as a probe starting or ending.
    WaitUntil(Instant),
    /// An earlier reservation must dispatch or be cancelled first.
    WaitForPrevious,
    /// The endpoint's emergency inflight cap is currently full.
    InflightLimit,
    /// The reservation is foreign, was cancelled, or no longer exists.
    Cancelled,
}

/// One entry of the virtual queue.
#[derive(Clone, Copy, Debug, PartialEq, Eq, Structural)]
pub struct PendingReservation {
    /// The identity of the reservation.
    pub id: u64,
    /// The predicted dispatch time.
    pub scheduled_at: Instant,
    /// Whether the reservation was seen waiting for its slot.
    pub was_paced: bool,
}

/// The start of the current silence, and the RTT that was expected then.
#[derive(Clone, Copy, Debug, PartialEq, Eq, Structural)]
pub struct FeedbackEpoch {
    /// When feedback was last received, or the first request dispatched.
    pub last_feedback_at: Instant,
    /// The RTT that was expected at that time.
    pub expected_rtt: Duration,
}

/// A point-in-time view useful for metrics, tests, and P2C load prediction.
#[derive(Clone, Copy, Debug, PartialEq)]
pub struct ControllerSnapshot {
    /// Long-term RTT used to convert the concurrency target into a base rate.
    pub expected_rtt: Duration,
    /// Minimum RTT observed within the rolling baseline window.
    pub baseline_rtt: Duration,
    /// Short-term exponentially weighted RTT estimate.
    pub short_rtt: Duration,
    /// Long-term exponentially weighted RTT estimate.
    pub long_rtt: Duration,
    /// Fractional concurrency selected by the Gradient2 controller.
    pub target_concurrency: Double,
    /// Concurrency implied by the current rate, including any active probe.
    pub effective_concurrency: Double,
    /// Requests per second derived from target concurrency and expected RTT.
    pub base_rate: Double,
    /// Requests per second after applying an active probe, if any.
    pub probed_rate: Double,
    /// Time elapsed since the current inflight epoch last received feedback.
    ///
    /// This is [`None`] when the endpoint has no inflight requests.
    pub feedback_silence: Option<Duration>,
    /// Exponential rate multiplier caused by missing feedback.
    ///
    /// The multiplier is `1.0` for the first expected RTT of silence, then
    /// halves for every additional expected RTT without feedback.
    pub feedback_factor: Double,
    /// Current requests per second after probes and missing-feedback decay.
    pub effective_rate: Double,
    /// The GCRA theoretical arrival time committed by actual dispatches.
    pub committed_tat: Instant,
    /// Predicted TAT after all current virtual queue reservations.
    ///
    /// This is [`None`] when the virtual queue is empty.
    pub virtual_tail_tat: Option<Instant>,
    /// Number of accepted but not-yet-dispatched reservations.
    pub queued: usize,
    /// Number of dispatched requests awaiting completion.
    pub inflight: usize,
    /// Configured maximum number of queued reservations.
    pub queue_capacity: usize,
    /// Configured emergency cap on dispatched requests.
    pub max_inflight: usize,
    /// Number of dispatched requests reported as completed.
    pub completed: u64,
    /// Number of unhealthy completions, abandoned requests, and transport
    /// admission failures.
    pub failures: u64,
    /// Number of successful RTT samples observed by the latency estimator.
    pub latency_samples: u64,
    /// Temporary probe active at the time of the snapshot, if any.
    pub active_probe: Option<Probe>,
}

/// The multiplier caused by missing feedback: one for the first expected RTT
/// of silence, then half as much for every further one, but no less than what
/// keeps two requests in the longest duration.
pub open spec fn silence_factor(epoch: Option<FeedbackEpoch>, now: Instant, rate: Double) -> Double {
    let one = Double { bits: ONE };
    match epoch {
        None => one,
        Some(epoch) => {
            let excess = now.since(epoch.last_feedback_at).lessened(epoch.expected_rtt);
            if excess.nanos == 0 {
                one
            } else {
                let half_lives = excess.in_seconds().quotient(epoch.expected_rtt.in_seconds());
                half_lives.halved().greater(
                    (Double { bits: MINIMUM_RATE }).quotient(rate).lesser(one),
                )
            }
        },
    }
}

/// The slot with a number, counted from the first one in steps of an interval.
pub open spec fn slot(first: Instant, interval: Duration, i: nat) -> Instant {
    let at = first.nanos + interval.nanos * i;
    if at <= u128::MAX {
        Instant { nanos: at as u128 }
    } else {
        Instant { nanos: u128::MAX }
    }
}

/// A queue whose entries have consecutive slots.
pub open spec fn spaced(
    pending: Seq<PendingReservation>,
    first: Instant,
    interval: Duration,
) -> Seq<PendingReservation> {
    Seq::new(
        pending.len(),
        |i: int|
            PendingReservation { scheduled_at: slot(first, interval, i as nat), ..pending[i] },
    )
}

/// Everything that one endpoint's controller knows.
#[verifier::ext_equal]
pub struct Endpoint {
    /// The identity that its tokens carry.
    pub id: u64,
    /// The workload assumptions and limits.
    pub config: EndpointConfig,
    /// The parameters of its parts.
    pub tuning: Tuning,
    /// The RTT estimates.
    pub latency: Latency,
    /// The operating point.
    pub gradient: OperatingPoint,
    /// The pacer of actual dispatches.
    pub pacer: Pacing,
    /// The probe state.
    pub probe: Probing,
    /// The virtual queue, oldest reservation first.
    pub pending: Seq<PendingReservation>,
    /// The identity of the next reservation.
    pub next_id: u64,
    /// Dispatched requests that await completion.
    pub inflight: usize,
    /// Dispatched requests that were reported as completed.
    pub completed: u64,
    /// Failures of any kind.
    pub failures: u64,
    /// The current silence, while requests are inflight.
    pub feedback_epoch: Option<FeedbackEpoch>,
    /// The random words that are left for probe decisions.
    pub words: Map<nat, u32>,
    /// The wakeup effects that were not taken yet.
    pub changes: ControllerChanges,
}

impl Endpoint {
    /// What holds of every controller between its operations: the queue and
    /// the inflight requests are within their limits, reservations are queued
    /// in the order in which they were made, and there is a silence to measure
    /// exactly while requests are inflight.
    pub open spec fn wf(self) -> bool {
        &&& self.config.queue_capacity > 0
        &&& self.config.max_inflight > 0
        &&& self.tuning.valid()
        &&& self.latency.wf()
        &&& self.latency.config == self.tuning.latency
        &&& self.gradient.wf()
        &&& self.gradient.config == self.tuning.gradient
        &&& self.pacer.interval.nanos > 0
        &&& self.pending.len() <= self.config.queue_capacity
        &&& self.inflight <= self.config.max_inflight
        &&& forall|i: int| 0 <= i < self.pending.len() ==> #[trigger] self.pending[i].id
            < self.next_id
        &&& forall|i: int, j: int|
            0 <= i < j < self.pending.len() ==> (#[trigger] self.pending[i]).id < (
            #[trigger] self.pending[j]).id
        &&& self.feedback_epoch is Some <==> self.inflight > 0
        &&& self.orderly()
    }

    /// Whether the queue keeps to the pacer: no slot lies before the time up to
    /// which dispatches are committed, and any two slots are at least an
    /// interval apart.
    pub open spec fn orderly(self) -> bool {
        &&& forall|i: int|
            0 <= i < self.pending.len() ==> (#[trigger] self.pending[i]).scheduled_at.nanos
                >= self.pacer.tat.nanos
        &&& forall|i: int, j: int|
            0 <= i < j < self.pending.len() ==> (#[trigger] self.pending[j]).scheduled_at.nanos >= (
            #[trigger] self.pending[i]).scheduled_at.later(self.pacer.interval).nanos
    }

    /// Whether every counter can take one more.
    pub open spec fn countable(self) -> bool {
        &&& self.completed < u64::MAX
        &&& self.failures < u64::MAX
        &&& self.latency.samples < u64::MAX
        &&& self.gradient.updates < u64::MAX
    }

    /// Whether as many requests are queued, inflight and counted as at another
    /// controller state.
    pub open spec fn tallies_like(self, other: Endpoint) -> bool {
        &&& self.id == other.id
        &&& self.config == other.config
        &&& self.next_id == other.next_id
        &&& self.pending.len() == other.pending.len()
        &&& self.inflight == other.inflight
        &&& self.completed == other.completed
        &&& self.failures == other.failures
        &&& self.latency == other.latency
        &&& self.gradient == other.gradient
    }

    /// A controller before its first request.
    pub open spec fn fresh(
        id: u64,
        config: EndpointConfig,
        tuning: Tuning,
        now: Instant,
        words: Map<nat, u32>,
    ) -> Endpoint {
        let latency = Latency::fresh(tuning.latency);
        let gradient = OperatingPoint::fresh(tuning.gradient);
        let rate = gradient.concurrency.quotient(latency.expected_rtt().in_seconds());
        Endpoint {
            id,
            config,
            tuning,
            latency,
            gradient,
            pacer: Pacing { interval: crate::gcra::spacing(rate), tat: now },
            probe: Probing::none(),
            pending: Seq::empty(),
            next_id: 0,
            inflight: 0,
            completed: 0,
            failures: 0,
            feedback_epoch: None,
            words,
            changes: ControllerChanges::none(),
        }
    }

    /// Whether the queue can take one more reservation.
    pub open spec fn has_space(self) -> bool {
        self.pending.len() < self.config.queue_capacity
    }

    /// The rate that the operating point and the expected RTT amount to.
    pub open spec fn base_rate(self) -> Double {
        self.gradient.concurrency.quotient(self.latency.expected_rtt().in_seconds())
    }

    /// The rate under the active probe.
    pub open spec fn probed_rate(self, now: Instant) -> Double {
        self.probe.applied(self.base_rate(), now)
    }

    /// The multiplier caused by missing feedback.
    pub open spec fn feedback_factor(self, now: Instant) -> Double {
        silence_factor(self.feedback_epoch, now, self.probed_rate(now))
    }

    /// The rate that dispatches are paced at.
    pub open spec fn effective_rate(self, now: Instant) -> Double {
        self.probed_rate(now).product(self.feedback_factor(now))
    }

    /// The queue rebuilt from the pacer.
    pub open spec fn rebuilt(self, now: Instant) -> Endpoint {
        Endpoint {
            pending: spaced(self.pending, self.pacer.next_at(now), self.pacer.interval),
            ..self
        }
    }

    /// The controller after its rate was derived anew. The queue is rebuilt
    /// where the spacing has changed or the head has lost its slot.
    pub open spec fn repaced(self, now: Instant) -> Endpoint {
        let pacer = self.pacer.respaced(crate::gcra::spacing(self.effective_rate(now)), now);
        let moved = Endpoint { pacer, probe: self.probe.expired(now), ..self };
        if pacer.interval != self.pacer.interval || (self.pending.len() > 0
            && self.pending[0].scheduled_at.nanos < pacer.next_at(now).nanos) {
            Endpoint {
                changes: ControllerChanges { dispatch: true, ..self.changes },
                ..moved.rebuilt(now)
            }
        } else {
            moved
        }
    }

    /// Whether probing has demand: the endpoint has produced a sample, or
    /// requests are inflight while others are queued.
    pub open spec fn demand(self) -> bool {
        self.latency.samples > 0 || (self.inflight > 0 && self.pending.len() > 0)
    }

    /// When probing changes the rate next, if that is known.
    pub open spec fn recheck_at(self) -> Option<Instant> {
        match self.probe.active {
            Some(probe) => Some(probe.until),
            None => if self.demand() {
                self.probe.next_probe_at
            } else {
                None
            },
        }
    }

    /// The controller after a probe decision, where probing has demand.
    pub open spec fn decided(self, now: Instant) -> Endpoint {
        if self.demand() {
            Endpoint {
                probe: self.tuning.probe_schedule.consulted(self.probe, self.words, now),
                words: self.tuning.probe_schedule.words_left(self.probe, self.words, now),
                ..self
            }
        } else {
            self
        }
    }

    /// The controller brought up to a point in time.
    #[verifier::opaque]
    pub open spec fn refreshed(self, now: Instant) -> Endpoint {
        let decided = self.decided(now);
        let repaced = (Endpoint { probe: decided.probe.expired(now), ..decided }).repaced(now);
        Endpoint {
            changes: ControllerChanges {
                dispatch: repaced.changes.dispatch || self.recheck_at() != repaced.recheck_at(),
                ..repaced.changes
            },
            ..repaced
        }
    }

    /// The controller after a probe was started on demand. Whoever waits has
    /// to look at the deadlines again.
    pub open spec fn probing(self, probe: Probe, now: Instant) -> Endpoint {
        (Endpoint {
            probe: Probing { active: Some(probe), ..self.probe },
            changes: ControllerChanges { dispatch: true, ..self.changes },
            ..self
        }).repaced(now)
    }

    /// The slot that one more reservation would get.
    pub open spec fn next_slot(self, now: Instant) -> Instant {
        if self.pending.len() > 0 {
            self.pending.last().scheduled_at.later(self.pacer.interval).latest(now)
        } else {
            self.pacer.next_at(now)
        }
    }

    /// The controller after one more reservation.
    pub open spec fn reserved(self, now: Instant) -> Endpoint {
        Endpoint {
            pending: self.pending.push(
                PendingReservation {
                    id: self.next_id,
                    scheduled_at: self.next_slot(now),
                    was_paced: false,
                },
            ),
            next_id: (self.next_id + 1) as u64,
            ..self
        }
    }

    /// Whether a reservation is queued at a position.
    pub open spec fn queued_at(self, reservation: DispatchReservation, i: int) -> bool {
        &&& reservation.owner() == self.id
        &&& 0 <= i < self.pending.len()
        &&& self.pending[i].id == reservation.number()
    }

    /// Whether a reservation is queued.
    pub open spec fn holds(self, reservation: DispatchReservation) -> bool {
        exists|i: int| self.queued_at(reservation, i)
    }

    /// The controller after the reservation at a position was dropped.
    pub open spec fn dropped(self, i: int, now: Instant) -> Endpoint {
        (Endpoint {
            pending: self.pending.remove(i),
            changes: ControllerChanges { admission: true, dispatch: true },
            ..self
        }).rebuilt(now)
    }

    /// What the head of the queue is told, once the controller is up to date.
    pub open spec fn head_state(self, now: Instant) -> DispatchState {
        let at = self.pending[0].scheduled_at;
        if self.inflight >= self.config.max_inflight {
            DispatchState::InflightLimit
        } else if at.nanos > now.nanos {
            DispatchState::WaitUntil(
                match self.recheck_at() {
                    Some(recheck) => at.earliest(recheck),
                    None => at,
                },
            )
        } else {
            DispatchState::Ready
        }
    }

    /// The controller that remembers that its head was seen waiting.
    pub open spec fn head_waited(self) -> Endpoint {
        Endpoint {
            pending: self.pending.update(
                0,
                PendingReservation { was_paced: true, ..self.pending[0] },
            ),
            ..self
        }
    }

    /// What a reservation is told.
    pub open spec fn state_of(self, reservation: DispatchReservation, now: Instant) -> DispatchState {
        if self.queued_at(reservation, 0) {
            self.refreshed(now).head_state(now)
        } else if self.holds(reservation) {
            DispatchState::WaitForPrevious
        } else {
            DispatchState::Cancelled
        }
    }

    /// The controller after the head asked for its state, which brings it up to
    /// date.
    pub open spec fn head_asked(self, now: Instant) -> Endpoint {
        let fresh = self.refreshed(now);
        if fresh.head_state(now) is WaitUntil {
            fresh.head_waited()
        } else {
            fresh
        }
    }

    /// The controller after a reservation asked for its state. Nothing changes
    /// unless it is the head.
    pub open spec fn asked(self, reservation: DispatchReservation, now: Instant) -> Endpoint {
        if self.queued_at(reservation, 0) {
            self.head_asked(now)
        } else {
            self
        }
    }

    /// The controller after its head was dispatched.
    pub open spec fn dispatched(self, now: Instant) -> Endpoint {
        (Endpoint {
            pending: self.pending.skip(1),
            feedback_epoch: if self.inflight == 0 {
                Some(
                    FeedbackEpoch {
                        last_feedback_at: now,
                        expected_rtt: self.latency.expected_rtt(),
                    },
                )
            } else {
                self.feedback_epoch
            },
            inflight: (self.inflight + 1) as usize,
            changes: ControllerChanges { admission: true, dispatch: true },
            pacer: self.pacer.committed(now),
            ..self
        }).rebuilt(now)
    }

    /// The controller after a dispatched request brought feedback.
    pub open spec fn completed_with(
        self,
        outcome: Outcome,
        latency: Duration,
        was_paced: bool,
        now: Instant,
    ) -> Endpoint {
        let learned = match outcome {
            Outcome::Success => {
                let estimates = self.latency.observed(latency, now);
                Endpoint {
                    latency: estimates,
                    gradient: self.gradient.sampled(
                        Duration::of_seconds(estimates.short),
                        estimates.baseline_rtt(),
                        self.inflight,
                        was_paced,
                        now,
                    ),
                    ..self
                }
            },
            Outcome::Failure => Endpoint {
                failures: (self.failures + 1) as u64,
                gradient: self.gradient.failed(now),
                ..self
            },
        };
        (Endpoint {
            completed: (self.completed + 1) as u64,
            inflight: (self.inflight - 1) as usize,
            changes: ControllerChanges { dispatch: true, ..self.changes },
            feedback_epoch: if self.inflight > 1 {
                Some(
                    FeedbackEpoch {
                        last_feedback_at: now,
                        expected_rtt: learned.latency.expected_rtt(),
                    },
                )
            } else {
                None
            },
            ..learned
        }).repaced(now)
    }

    /// The controller after a dispatched request ended without feedback.
    pub open spec fn abandoned(self, now: Instant) -> Endpoint {
        (Endpoint {
            failures: (self.failures + 1) as u64,
            gradient: self.gradient.failed(now),
            inflight: (self.inflight - 1) as usize,
            changes: ControllerChanges { dispatch: true, ..self.changes },
            feedback_epoch: if self.inflight > 1 {
                self.feedback_epoch
            } else {
                None
            },
            ..self
        }).repaced(now)
    }

    /// The controller after a dispatched request ended.
    pub open spec fn finished(
        self,
        completion: Completion,
        sent_at: Instant,
        was_paced: bool,
        now: Instant,
    ) -> Endpoint {
        match completion {
            Completion::Success => self.completed_with(
                Outcome::Success,
                now.since(sent_at),
                was_paced,
                now,
            ),
            Completion::Failure => self.completed_with(
                Outcome::Failure,
                now.since(sent_at),
                was_paced,
                now,
            ),
            Completion::Abandoned => self.abandoned(now),
        }
    }

    /// The controller after the transport failed to become ready.
    pub open spec fn admission_failed(self, now: Instant) -> Endpoint {
        (Endpoint {
            failures: (self.failures + 1) as u64,
            gradient: self.gradient.failed(now),
            ..self
        }).repaced(now)
    }

    /// When one more request would complete, once the controller is up to
    /// date.
    pub open spec fn predicted_completion(self, now: Instant) -> Instant {
        self.next_slot(now).later(self.latency.expected_rtt())
    }

    /// The predicted completion delay in seconds, once the controller is up to
    /// date.
    pub open spec fn load(self, now: Instant) -> Double {
        self.predicted_completion(now).since(now).in_seconds()
    }

    /// The metrics view, once the controller is up to date.
    pub open spec fn pictured(self, now: Instant) -> ControllerSnapshot {
        ControllerSnapshot {
            expected_rtt: self.latency.expected_rtt(),
            baseline_rtt: self.latency.baseline_rtt(),
            short_rtt: Duration::of_seconds(self.latency.short),
            long_rtt: Duration::of_seconds(self.latency.long),
            target_concurrency: self.gradient.concurrency,
            effective_concurrency: self.effective_rate(now).product(
                self.latency.expected_rtt().in_seconds(),
            ),
            base_rate: self.base_rate(),
            probed_rate: self.probed_rate(now),
            feedback_silence: match self.feedback_epoch {
                Some(epoch) => Some(now.since(epoch.last_feedback_at)),
                None => None,
            },
            feedback_factor: self.feedback_factor(now),
            effective_rate: self.effective_rate(now),
            committed_tat: self.pacer.tat,
            virtual_tail_tat: if self.pending.len() > 0 {
                Some(self.pending.last().scheduled_at.later(self.pacer.interval))
            } else {
                None
            },
            queued: self.pending.len() as usize,
            inflight: self.inflight,
            queue_capacity: self.config.queue_capacity,
            max_inflight: self.config.max_inflight,
            completed: self.completed,
            failures: self.failures,
            latency_samples: self.latency.samples,
            active_probe: self.probe.active,
        }
    }
}

/// The per-endpoint adaptive controller.
///
/// This type contains no async machinery and can be driven by a deterministic
/// simulator. `reserve` creates a virtual GCRA slot, while `on_dispatched`
/// commits a slot only when the underlying service is genuinely ready.
#[derive(Debug)]
pub struct EndpointController {
    controller_id: u64,
    config: EndpointConfig,
    tuning: Tuning,
    latency: LatencyEstimator,
    gradient: Gradient2,
    pacer: Gcra,
    probe: ProbeState,
    pending: VecDeque<PendingReservation>,
    next_id: u64,
    inflight: usize,
    completed: u64,
    failures: u64,
    feedback_epoch: Option<FeedbackEpoch>,
    probe_rng: StdRng,
    changes: ControllerChanges,
}

impl View for EndpointController {
    type V = Endpoint;

    closed spec fn view(&self) -> Endpoint {
        Endpoint {
            id: self.controller_id,
            config: self.config,
            tuning: self.tuning,
            latency: self.latency@,
            gradient: self.gradient@,
            pacer: self.pacer@,
            probe: self.probe@,
            pending: self.pending@,
            next_id: self.next_id,
            inflight: self.inflight,
            completed: self.completed,
            failures: self.failures,
            feedback_epoch: self.feedback_epoch,
            words: crate::entropy::upcoming(self.probe_rng),
            changes: self.changes,
        }
    }
}

impl EndpointController {
    /// Creates an endpoint controller with an initially available slot.
    ///
    /// Tokens carry `controller_id`, so that a controller can tell its own
    /// from those of another one: give every controller its own identity.
    pub fn new(config: EndpointConfig, now: Instant, controller_id: u64) -> (r: EndpointController)
        requires
            config.valid(),
        ensures
            r@ == Endpoint::fresh(controller_id, config, config.tuned(), now, r@.words),
            r@.wf(),
    {
        let tuning = config.tuning();
        proof {
            lemma_tuning_is_valid(config);
        }
        EndpointController::with_rng(config, tuning, now, unpredictable(), controller_id)
    }

    /// Creates a controller with deterministic probe entropy.
    ///
    /// This is useful for simulations and tests. The controller still owns
    /// all probe decisions; the seed only makes those decisions reproducible.
    pub fn new_with_seed(config: EndpointConfig, now: Instant, seed: u64, controller_id: u64) -> (r:
        EndpointController)
        requires
            config.valid(),
        ensures
            r@ == Endpoint::fresh(
                controller_id,
                config,
                config.tuned(),
                now,
                crate::entropy::seeded_words(seed),
            ),
            r@.wf(),
    {
        let tuning = config.tuning();
        proof {
            lemma_tuning_is_valid(config);
        }
        EndpointController::with_rng(config, tuning, now, seeded(seed), controller_id)
    }

    /// Creates a controller whose parts have explicit parameters in place of
    /// those that follow from the workload.
    pub fn new_with_tuning(
        config: EndpointConfig,
        tuning: Tuning,
        now: Instant,
        seed: u64,
        controller_id: u64,
    ) -> (r: EndpointController)
        requires
            config.sound(),
            tuning.valid(),
        ensures
            r@ == Endpoint::fresh(
                controller_id,
                config,
                tuning,
                now,
                crate::entropy::seeded_words(seed),
            ),
            r@.wf(),
    {
        EndpointController::with_rng(config, tuning, now, seeded(seed), controller_id)
    }

    fn with_rng(
        config: EndpointConfig,
        tuning: Tuning,
        now: Instant,
        probe_rng: StdRng,
        controller_id: u64,
    ) -> (r: EndpointController)
        requires
            config.sound(),
            tuning.valid(),
        ensures
            r@ == Endpoint::fresh(
                controller_id,
                config,
                tuning,
                now,
                crate::entropy::upcoming(probe_rng),
            ),
            r@.wf(),
    {
        let latency = LatencyEstimator::new(tuning.latency);
        let gradient = Gradient2::new(tuning.gradient);
        let rate = gradient.concurrency().over(latency.expected_rtt().as_seconds());
        EndpointController {
            controller_id,
            config,
            tuning,
            latency,
            gradient,
            pacer: Gcra::with_interval(rate_to_interval(rate), now),
            probe: ProbeState::new(),
            pending: VecDeque::new(),
            next_id: 0,
            inflight: 0,
            completed: 0,
            failures: 0,
            feedback_epoch: None,
            probe_rng,
            changes: ControllerChanges::default(),
        }
    }

    /// Returns the configuration owned by this controller.
    pub fn config(&self) -> (r: &EndpointConfig)
        ensures
            *r == self@.config,
    {
        &self.config
    }

    /// Returns the controller's GCRA pacer for diagnostics.
    pub fn pacer(&self) -> (r: &Gcra)
        ensures
            r@ == self@.pacer,
    {
        &self.pacer
    }

    /// Returns the controller's Gradient2 state for diagnostics.
    pub fn gradient(&self) -> (r: &Gradient2)
        ensures
            r@ == self@.gradient,
    {
        &self.gradient
    }

    /// Returns the controller's probe state for diagnostics.
    pub fn probe(&self) -> (r: &ProbeState)
        ensures
            r@ == self@.probe,
    {
        &self.probe
    }

    /// Returns the controller's latency estimator for diagnostics.
    pub fn latency(&self) -> (r: &LatencyEstimator)
        ensures
            r@ == self@.latency,
    {
        &self.latency
    }

    /// Returns the number of accepted but not-yet-dispatched reservations.
    pub fn queued(&self) -> (r: usize)
        ensures
            r == self@.pending.len(),
    {
        self.pending.len()
    }

    /// Returns the number of dispatched requests awaiting completion.
    pub fn inflight(&self) -> (r: usize)
        ensures
            r == self@.inflight,
    {
        self.inflight
    }

    /// Returns whether every counter can take one more.
    pub fn can_count(&self) -> (r: bool)
        ensures
            r == self@.countable(),
    {
        self.completed < u64::MAX && self.failures < u64::MAX && self.latency.samples() < u64::MAX
            && self.gradient.updates() < u64::MAX
    }

    /// Takes and clears wakeup effects accumulated by controller operations.
    ///
    /// New controllers have no pending effects. Calling this method does not
    /// refresh policy or advance the clock. Effects also accumulate when
    /// [`Self::load`] or [`Self::snapshot`] changes time-driven pacing state.
    ///
    /// One adapter should own delivery: drain effects while holding its
    /// controller lock, then release the lock before waking waiters. Register
    /// waiters before inspecting state to avoid losing a concurrent wakeup.
    /// The FIFO head already checking [`Self::dispatch_state`] can consume its
    /// own refresh effects without waking itself; later reservations remain
    /// blocked until it dispatches or is cancelled.
    pub fn take_changes(&mut self) -> (r: ControllerChanges)
        ensures
            r == old(self)@.changes,
            final(self)@ == (Endpoint { changes: ControllerChanges::none(), ..old(self)@ }),
    {
        let changes = self.changes;
        self.changes = ControllerChanges::default();
        changes
    }

    /// Returns whether the bounded virtual queue can accept a reservation.
    ///
    /// This does not guarantee immediate dispatch: the request may still wait
    /// for its pacing deadline, earlier reservations, or inflight capacity.
    pub fn may_schedule(&self) -> (r: bool)
        ensures
            r == self@.has_space(),
    {
        self.pending.len() < self.config.queue_capacity
    }

    /// Reserves one bounded scheduling slot and appends it to the virtual
    /// pacing queue.
    ///
    /// A successful reservation must later be passed to [`Self::on_dispatched`]
    /// or [`Self::cancel`]. Reservations belong to the controller that created
    /// them and are dispatched FIFO.
    ///
    /// # Errors
    ///
    /// Returns [`ScheduleError::QueueFull`] when the scheduling horizon is
    /// full, or [`ScheduleError::IdExhausted`] if the controller cannot assign
    /// another reservation identity.
    pub fn reserve(&mut self, now: Instant) -> (r: Result<DispatchReservation, ScheduleError>)
        requires
            old(self)@.wf(),
        ensures
            final(self)@.wf(),
            r is Ok <==> old(self)@.has_space() && old(self)@.next_id < u64::MAX,
            r == Err::<DispatchReservation, ScheduleError>(ScheduleError::QueueFull)
                <==> !old(self)@.has_space(),
            r == Err::<DispatchReservation, ScheduleError>(ScheduleError::IdExhausted)
                <==> old(self)@.has_space() && old(self)@.next_id == u64::MAX,
            r matches Ok(reservation) ==> {
                &&& final(self)@ == old(self)@.reserved(now)
                &&& reservation.owner() == old(self)@.id
                &&& reservation.number() == old(self)@.next_id
            },
            r is Err ==> final(self)@ == old(self)@,
    {
        if !self.may_schedule() {
            return Err(ScheduleError::QueueFull);
        }
        let scheduled_at = self.next_virtual_slot(now);
        let id: u64 = self.next_id;
        if id == u64::MAX {
            return Err(ScheduleError::IdExhausted);
        }
        self.next_id = id + 1;
        // A future prediction is not evidence that the request actually
        // waited. An earlier reservation may still be cancelled before this
        // one reaches the head of the queue.
        self.pending.push_back(PendingReservation { id, scheduled_at, was_paced: false });
        Ok(DispatchReservation { controller_id: self.controller_id, id })
    }

    /// Finds a reservation in the queue.
    fn position(&self, reservation: DispatchReservation) -> (r: Option<usize>)
        requires
            reservation.owner() == self@.id,
        ensures
            match r {
                Some(i) => self@.queued_at(reservation, i as int),
                None => !self@.holds(reservation),
            },
    {
        let mut i: usize = 0;
        while i < self.pending.len()
            invariant
                i <= self.pending@.len(),
                reservation.owner() == self@.id,
                forall|j: int|
                    0 <= j < i ==> (#[trigger] self.pending@[j]).id != reservation.id,
            decreases self.pending@.len() - i,
        {
            if self.pending[i].id == reservation.id {
                return Some(i);
            }
            i = i + 1;
        }
        None
    }

    /// Drops an accepted but not-yet-dispatched request.
    ///
    /// Cancellation is safe even when an earlier request remains queued: the
    /// virtual tail is rebuilt from the committed TAT, so a cancelled hole
    /// cannot permanently throttle the endpoint.
    ///
    /// Returns `true` when the reservation was removed. Returns `false` when
    /// it belongs to another controller or is no longer queued.
    pub fn cancel(&mut self, reservation: DispatchReservation, now: Instant) -> (r: bool)
        requires
            old(self)@.wf(),
        ensures
            final(self)@.wf(),
            r == old(self)@.holds(reservation),
            forall|i: int|
                #[trigger] old(self)@.queued_at(reservation, i) ==> final(self)@ == old(
                    self,
                )@.dropped(i, now),
            !r ==> final(self)@ == old(self)@,
    {
        if reservation.controller_id != self.controller_id {
            return false;
        }
        let position = match self.position(reservation) {
            Some(position) => position,
            None => return false,
        };
        let ghost before = self@;
        proof {
            assert(before.queued_at(reservation, position as int));
        }
        let _ = self.pending.remove(position);
        self.changes.admission = true;
        self.changes.dispatch = true;
        proof {
            lemma_removed(before, position as int);
            lemma_rebuilt(self@, now);
        }
        self.rebuild_virtual_queue(now);
        proof {
            assert forall|i: int| #[trigger] before.queued_at(reservation, i) implies i
                == position by {
                if i < position {
                    assert(before.pending[i].id < before.pending[position as int].id);
                } else if i > position {
                    assert(before.pending[position as int].id < before.pending[i].id);
                }
            }
        }
        true
    }

    /// Refreshes controller policy and reports a reservation's current state.
    ///
    /// Callers should wait until the instant from [`DispatchState::WaitUntil`]
    /// before polling again. [`DispatchState::WaitForPrevious`] is woken by an
    /// earlier dispatch or cancellation, while [`DispatchState::InflightLimit`]
    /// is woken by a completion.
    pub fn dispatch_state(&mut self, reservation: DispatchReservation, now: Instant) -> (r:
        DispatchState)
        requires
            old(self)@.wf(),
        ensures
            final(self)@.wf(),
            r == old(self)@.state_of(reservation, now),
            final(self)@ == old(self)@.asked(reservation, now),
            final(self)@.tallies_like(old(self)@),
    {
        if reservation.controller_id != self.controller_id {
            return DispatchState::Cancelled;
        }
        if self.pending.len() == 0 {
            return DispatchState::Cancelled;
        }
        let front = self.pending[0];
        if front.id != reservation.id {
            return match self.position(reservation) {
                Some(i) => {
                    assert(self@.queued_at(reservation, i as int));
                    DispatchState::WaitForPrevious
                },
                None => DispatchState::Cancelled,
            };
        }
        assert(self@.queued_at(reservation, 0));
        reveal(Endpoint::refreshed);
        // All time-driven policy stays in the controller. Framework adapters
        // only arrange a wakeup for the deadline returned below.
        self.refresh(now);
        if self.inflight >= self.config.max_inflight {
            return DispatchState::InflightLimit;
        }
        let scheduled_at = self.pending[0].scheduled_at;
        if scheduled_at.nanos > now.nanos {
            let wake_at = match self.next_dispatch_refresh_at() {
                Some(refresh_at) => scheduled_at.earlier_of(refresh_at),
                None => scheduled_at,
            };
            self.mark_head_paced();
            return DispatchState::WaitUntil(wake_at);
        }
        DispatchState::Ready
    }

    /// Remembers that the head of the queue was seen waiting.
    fn mark_head_paced(&mut self)
        requires
            old(self)@.wf(),
            old(self)@.pending.len() > 0,
        ensures
            final(self)@.wf(),
            final(self)@ == old(self)@.head_waited(),
    {
        let ghost before = self@;
        if let Some(head) = self.pending.pop_front() {
            self.pending.push_front(
                PendingReservation {
                    id: head.id,
                    scheduled_at: head.scheduled_at,
                    was_paced: true,
                },
            );
        }
        assert(self@.pending =~= before.head_waited().pending);
    }

    /// Commits the oldest reservation after the underlying service reports
    /// readiness. Dispatches are intentionally FIFO inside one endpoint.
    /// Returns the reservation's current state when it is not dispatchable.
    ///
    /// # Errors
    ///
    /// Returns the current [`DispatchState`] unless the reservation is
    /// [`DispatchState::Ready`]. In particular, callers must not treat an
    /// earlier pacing decision as a permanent readiness grant because
    /// time-driven controller state may have changed.
    pub fn on_dispatched(&mut self, reservation: DispatchReservation, now: Instant) -> (r: Result<
        InFlightRequest,
        DispatchState,
    >)
        requires
            old(self)@.wf(),
        ensures
            final(self)@.wf(),
            r is Ok <==> old(self)@.state_of(reservation, now) == DispatchState::Ready,
            r matches Err(state) ==> {
                &&& state == old(self)@.state_of(reservation, now)
                &&& final(self)@ == old(self)@.asked(reservation, now)
            },
            r matches Ok(request) ==> {
                &&& final(self)@ == old(self)@.asked(reservation, now).dispatched(now)
                &&& request.owner() == old(self)@.id
                &&& request.sent_at() == now
                &&& request.paced() == old(self)@.pending[0].was_paced
                &&& final(self)@.id == old(self)@.id
                &&& final(self)@.inflight == old(self)@.inflight + 1
                &&& final(self)@.countable() == old(self)@.countable()
            },
    {
        reveal(Endpoint::refreshed);
        let state = self.dispatch_state(reservation, now);
        if state != DispatchState::Ready {
            return Err(state);
        }
        let ghost ready = self@;
        let was_paced = match self.pending.pop_front() {
            Some(pending) => pending.was_paced,
            None => false,
        };
        if self.inflight == 0 {
            self.feedback_epoch = Some(
                FeedbackEpoch { last_feedback_at: now, expected_rtt: self.latency.expected_rtt() },
            );
        }
        self.inflight = self.inflight + 1;
        self.changes.admission = true;
        self.changes.dispatch = true;
        self.pacer.commit(now);
        proof {
            assert(self@.pending =~= ready.pending.skip(1));
            lemma_rebuilt(self@, now);
        }
        self.rebuild_virtual_queue(now);
        Ok(InFlightRequest { controller_id: self.controller_id, dispatched_at: now, was_paced })
    }

    /// Finishes a dispatched request using elapsed time from its dispatch token.
    ///
    /// Successful feedback observes `now - request.dispatched_at()`, clamped
    /// to zero if the clock moved backward. This excludes time before actual
    /// dispatch, including reservation and readiness waits. Use
    /// [`Self::on_complete`] when latency is measured separately.
    ///
    /// [`Completion::Failure`] represents real endpoint feedback; use
    /// [`Completion::Abandoned`] for a local timeout or cancellation without
    /// feedback. Neither records a healthy RTT sample.
    ///
    /// Returns `false` without changing state for a foreign request, or `true`
    /// after consuming a request owned by this controller.
    pub fn finish(&mut self, request: InFlightRequest, completion: Completion, now: Instant) -> (r:
        bool)
        requires
            old(self)@.wf(),
            request.owner() == old(self)@.id ==> old(self)@.inflight > 0 && old(
                self,
            )@.countable(),
        ensures
            final(self)@.wf(),
            r == (request.owner() == old(self)@.id),
            r ==> final(self)@ == old(self)@.finished(
                completion,
                request.sent_at(),
                request.paced(),
                now,
            ),
            !r ==> final(self)@ == old(self)@,
    {
        let latency = now.saturating_duration_since(request.dispatched_at());
        match completion {
            Completion::Success => self.on_complete(request, Outcome::Success, latency, now),
            Completion::Failure => self.on_complete(request, Outcome::Failure, latency, now),
            Completion::Abandoned => self.on_abandoned(request, now),
        }
    }

    /// Records a response and updates the endpoint's operating point.
    ///
    /// `latency` must measure actual dispatch to completion and exclude time
    /// spent in local admission, pacing, or service-readiness waits. Successful
    /// outcomes update the RTT estimator; failures reduce the operating point
    /// without treating a fast error as healthy latency.
    ///
    /// Returns `false` without changing state when `request` belongs to another
    /// controller. Returns `true` after consuming a request owned by this one.
    pub fn on_complete(
        &mut self,
        request: InFlightRequest,
        outcome: Outcome,
        latency: Duration,
        now: Instant,
    ) -> (r: bool)
        requires
            old(self)@.wf(),
            request.owner() == old(self)@.id ==> old(self)@.inflight > 0 && old(
                self,
            )@.countable(),
        ensures
            final(self)@.wf(),
            r == (request.owner() == old(self)@.id),
            r ==> final(self)@ == old(self)@.completed_with(
                outcome,
                latency,
                request.paced(),
                now,
            ),
            !r ==> final(self)@ == old(self)@,
    {
        if request.controller_id != self.controller_id {
            return false;
        }
        self.completed = self.completed + 1;
        match outcome {
            Outcome::Success => {
                self.latency.observe_at(latency, now);
                // The congestion reference stays anchored to the endpoint's
                // minimum RTT. A per-client long EWMA can absorb shared
                // queueing and let an incumbent retain an unfair share when a
                // new client joins.
                let _ = self.gradient.on_rtt_with_baseline_at(
                    self.latency.short(),
                    self.latency.baseline(),
                    self.inflight,
                    request.was_paced(),
                    now,
                );
            },
            Outcome::Failure => {
                self.failures = self.failures + 1;
                self.gradient.on_failure_at(now);
            },
        }
        self.inflight = self.inflight - 1;
        self.changes.dispatch = true;
        self.feedback_epoch = if self.inflight > 0 {
            Some(
                FeedbackEpoch { last_feedback_at: now, expected_rtt: self.latency.expected_rtt() },
            )
        } else {
            None
        };
        self.update_rate(now);
        true
    }

    /// Records a dispatched request that ended without endpoint feedback.
    ///
    /// Abandonment releases inflight accounting and penalizes the learned
    /// operating point, but does not reset the missing-feedback clock while
    /// other requests remain inflight. This is appropriate for cancellation
    /// and timeouts where no response was observed.
    ///
    /// Returns `false` without changing state when `request` belongs to another
    /// controller. Returns `true` after consuming a request owned by this one.
    pub fn on_abandoned(&mut self, request: InFlightRequest, now: Instant) -> (r: bool)
        requires
            old(self)@.wf(),
            request.owner() == old(self)@.id ==> old(self)@.inflight > 0 && old(
                self,
            )@.countable(),
        ensures
            final(self)@.wf(),
            r == (request.owner() == old(self)@.id),
            r ==> final(self)@ == old(self)@.abandoned(now),
            !r ==> final(self)@ == old(self)@,
    {
        if request.controller_id != self.controller_id {
            return false;
        }
        self.failures = self.failures + 1;
        self.gradient.on_failure_at(now);
        self.inflight = self.inflight - 1;
        self.changes.dispatch = true;
        if self.inflight == 0 {
            self.feedback_epoch = None;
        }
        self.update_rate(now);
        true
    }

    /// Records an error obtained while the transport was being made ready.
    /// No request was dispatched, so this does not alter inflight accounting,
    /// but the endpoint is still penalized for future scheduling.
    pub fn on_admission_failure(&mut self, now: Instant)
        requires
            old(self)@.wf(),
            old(self)@.countable(),
        ensures
            final(self)@.wf(),
            final(self)@ == old(self)@.admission_failed(now),
    {
        self.failures = self.failures + 1;
        self.gradient.on_failure_at(now);
        self.update_rate(now);
    }

    /// Expires probes, lets the controller make a probe decision, and
    /// refreshes the derived pacing rate.
    ///
    /// Framework adapters should call this through ordinary dispatch or load
    /// operations rather than running a separate application probe task.
    pub fn refresh(&mut self, now: Instant)
        requires
            old(self)@.wf(),
        ensures
            final(self)@.wf(),
            final(self)@ == old(self)@.refreshed(now),
            final(self)@.tallies_like(old(self)@),
    {
        reveal(Endpoint::refreshed);
        let previous_refresh = self.next_dispatch_refresh_at();
        // Refresh is called by normal dispatch and load-metric paths. Once an
        // endpoint has produced a sample, keeping the schedule here means an
        // endpoint that P2C is beginning to avoid can still receive a probe.
        // Before that first observation, require an actual queued dispatch so
        // the initial request is not treated as a probe opportunity.
        if self.latency.samples() > 0 || (self.inflight > 0 && self.pending.len() > 0) {
            let schedule = self.tuning.probe_schedule;
            let _ = schedule.maybe_start(&mut self.probe, &mut self.probe_rng, now);
        }
        let _ = self.probe.active(now);
        self.update_rate(now);
        let next_refresh = self.next_dispatch_refresh_at();
        let same = match (previous_refresh, next_refresh) {
            (Some(a), Some(b)) => a == b,
            (None, None) => true,
            _ => false,
        };
        self.changes.dispatch = self.changes.dispatch || !same;
    }

    /// Starts a temporary positive probe, in place of one that is active.
    pub fn start_positive_probe(&mut self, delta_rate: Double, until: Instant, now: Instant)
        requires
            old(self)@.wf(),
            0 < delta_rate.bits < INFINITY,
        ensures
            final(self)@.wf(),
            final(self)@ == old(self)@.probing(
                (Probe { kind: ProbeKind::Positive { delta_rate }, until }),
                now,
            ),
    {
        self.probe.start_positive(delta_rate, until);
        self.changes.dispatch = true;
        self.update_rate(now);
    }

    /// Starts a temporary negative probe, in place of one that is active.
    pub fn start_negative_probe(&mut self, factor: Double, until: Instant, now: Instant)
        requires
            old(self)@.wf(),
            0 < factor.bits < ONE,
        ensures
            final(self)@.wf(),
            final(self)@ == old(self)@.probing(
                (Probe { kind: ProbeKind::Negative { factor }, until }),
                now,
            ),
    {
        self.probe.start_negative(factor, until);
        self.changes.dispatch = true;
        self.update_rate(now);
    }

    /// Returns the currently active probe, if any.
    pub fn active_probe(&self) -> (r: Option<Probe>)
        ensures
            r == self@.probe.active,
    {
        self.probe.current()
    }

    /// Predicts when one additional request would complete if current
    /// conditions remain stable.
    ///
    /// The prediction includes the virtual queue tail and expected endpoint
    /// RTT. Reading it refreshes time-driven probe state.
    pub fn predicted_completion(&mut self, now: Instant) -> (r: Instant)
        requires
            old(self)@.wf(),
        ensures
            final(self)@.wf(),
            final(self)@ == old(self)@.refreshed(now),
            final(self)@.tallies_like(old(self)@),
            r == final(self)@.predicted_completion(now),
    {
        self.refresh(now);
        let dispatch = self.next_virtual_slot(now);
        saturating_add(dispatch, self.latency.expected_rtt())
    }

    /// Returns a scalar suitable for comparing endpoints. Lower is better.
    ///
    /// The value is the predicted completion delay in seconds from `now`.
    pub fn load(&mut self, now: Instant) -> (r: Double)
        requires
            old(self)@.wf(),
        ensures
            final(self)@.wf(),
            final(self)@ == old(self)@.refreshed(now),
            final(self)@.tallies_like(old(self)@),
            r == final(self)@.load(now),
    {
        self.predicted_completion(now).saturating_duration_since(now).as_seconds()
    }

    /// Refreshes time-driven state and returns a point-in-time metrics view.
    ///
    /// Calling this method may expire or start a probe, and can therefore
    /// update the effective pacing rate even though it does not reserve work.
    pub fn snapshot(&mut self, now: Instant) -> (r: ControllerSnapshot)
        requires
            old(self)@.wf(),
        ensures
            final(self)@.wf(),
            final(self)@ == old(self)@.refreshed(now),
            final(self)@.tallies_like(old(self)@),
            r == final(self)@.pictured(now),
    {
        self.refresh(now);
        reveal(Endpoint::refreshed);
        let target = self.gradient.concurrency();
        let expected = self.latency.expected_rtt().as_seconds();
        let (base_rate, probed_rate, feedback_factor, effective_rate) = self.rates_at(now);
        let effective = effective_rate.times(expected);
        let virtual_tail_tat = if self.pending.len() > 0 {
            let tail = self.pending[self.pending.len() - 1];
            Some(saturating_add(tail.scheduled_at, self.pacer.interval()))
        } else {
            None
        };
        ControllerSnapshot {
            expected_rtt: self.latency.expected_rtt(),
            baseline_rtt: self.latency.baseline(),
            short_rtt: self.latency.short(),
            long_rtt: self.latency.long(),
            target_concurrency: target,
            effective_concurrency: effective,
            base_rate,
            probed_rate,
            feedback_silence: match self.feedback_epoch {
                Some(epoch) => Some(now.saturating_duration_since(epoch.last_feedback_at)),
                None => None,
            },
            feedback_factor,
            effective_rate,
            committed_tat: self.pacer.tat(),
            virtual_tail_tat,
            queued: self.pending.len(),
            inflight: self.inflight,
            queue_capacity: self.config.queue_capacity,
            max_inflight: self.config.max_inflight,
            completed: self.completed,
            failures: self.failures,
            latency_samples: self.latency.samples(),
            active_probe: self.probe.current(),
        }
    }

    /// Returns the slot that one more reservation would get.
    fn next_virtual_slot(&self, now: Instant) -> (r: Instant)
        ensures
            r == self@.next_slot(now),
    {
        if self.pending.len() > 0 {
            let tail = self.pending[self.pending.len() - 1];
            saturating_add(tail.scheduled_at, self.pacer.interval()).later_of(now)
        } else {
            self.pacer.next_at(now)
        }
    }

    /// Returns when probing changes the rate next, if that is known.
    fn next_dispatch_refresh_at(&self) -> (r: Option<Instant>)
        ensures
            r == self@.recheck_at(),
    {
        if let Some(probe) = self.probe.current() {
            return Some(probe.until);
        }
        let probing_has_demand = self.latency.samples() > 0 || (self.inflight > 0
            && self.pending.len() > 0);
        if probing_has_demand {
            self.probe.next_probe_at()
        } else {
            None
        }
    }

    /// Derives the pacing rate anew.
    fn update_rate(&mut self, now: Instant)
        requires
            old(self)@.wf(),
        ensures
            final(self)@.wf(),
            final(self)@ == old(self)@.repaced(now),
    {
        let (_, _, _, rate) = self.rates_at(now);
        let previous_interval = self.pacer.interval();
        self.pacer.set_interval(rate_to_interval(rate), now);
        let next = self.pacer.next_at(now);
        let virtual_head_expired = self.pending.len() > 0
            && self.pending[0].scheduled_at.nanos < next.nanos;
        if self.pacer.interval() != previous_interval || virtual_head_expired {
            self.changes.dispatch = true;
            proof {
                lemma_rebuilt(self@, now);
            }
            self.rebuild_virtual_queue(now);
        }
    }

    /// Returns the base rate, the rate under a probe, the multiplier caused by
    /// missing feedback, and the effective rate.
    fn rates_at(&mut self, now: Instant) -> (r: (Double, Double, Double, Double))
        requires
            old(self)@.wf(),
        ensures
            final(self)@ == (Endpoint { probe: old(self)@.probe.expired(now), ..old(self)@ }),
            r == (
                old(self)@.base_rate(),
                old(self)@.probed_rate(now),
                old(self)@.feedback_factor(now),
                old(self)@.effective_rate(now),
            ),
    {
        let base_rate = self.gradient.concurrency().over(
            self.latency.expected_rtt().as_seconds(),
        );
        let probed_rate = self.probe.effective_rate(base_rate, now);
        let feedback_factor = self.feedback_factor(now, probed_rate);
        let effective_rate = probed_rate.times(feedback_factor);
        (base_rate, probed_rate, feedback_factor, effective_rate)
    }

    /// Returns the multiplier caused by missing feedback.
    fn feedback_factor(&self, now: Instant, rate: Double) -> (r: Double)
        ensures
            r == silence_factor(self@.feedback_epoch, now, rate),
    {
        let one = Double { bits: ONE };
        let epoch = match self.feedback_epoch {
            Some(epoch) => epoch,
            None => return one,
        };
        let silence = now.saturating_duration_since(epoch.last_feedback_at);
        let excess = silence.saturating_sub(epoch.expected_rtt);
        if excess.is_zero() {
            return one;
        }
        let half_lives = excess.as_seconds().over(epoch.expected_rtt.as_seconds());
        let factor = half_lives.halve();
        // The interval stays representable even after extreme silence. This is
        // effectively zero traffic while remaining a smooth rate decay.
        factor.larger(Double { bits: MINIMUM_RATE }.over(rate).smaller(one))
    }

    /// Gives the queued reservations consecutive slots from the pacer.
    fn rebuild_virtual_queue(&mut self, now: Instant)
        ensures
            final(self)@ == old(self)@.rebuilt(now),
    {
        let ghost before = self@;
        let ghost first = self@.pacer.next_at(now);
        let mut next = self.pacer.next_at(now);
        let interval = self.pacer.interval();
        let queued: usize = self.pending.len();
        let mut i: usize = 0;
        proof {
            lemma_first_slot(first, interval);
        }
        while i < queued
            invariant
                i <= queued == before.pending.len(),
                first == before.pacer.next_at(now),
                interval == before.pacer.interval,
                next == slot(first, interval, i as nat),
                self@ == (Endpoint {
                    pending: before.pending.skip(i as int) + spaced(
                        before.pending,
                        first,
                        interval,
                    ).take(i as int),
                    ..before
                }),
            decreases queued - i,
        {
            let ghost pending = self@.pending;
            if let Some(entry) = self.pending.pop_front() {
                self.pending.push_back(
                    PendingReservation {
                        id: entry.id,
                        scheduled_at: next,
                        was_paced: entry.was_paced,
                    },
                );
            }
            proof {
                lemma_next_slot(first, interval, i as nat);
                assert(self@.pending =~= before.pending.skip(i + 1) + spaced(
                    before.pending,
                    first,
                    interval,
                ).take(i + 1));
            }
            next = saturating_add(next, interval);
            i = i + 1;
        }
        proof {
            assert(self@.pending =~= before.rebuilt(now).pending);
        }
    }
}

pub proof fn lemma_first_slot(first: Instant, interval: Duration)
    ensures
        slot(first, interval, 0) == first,
{
    assert(interval.nanos * 0 == 0) by (nonlinear_arith);
}

pub proof fn lemma_next_slot(first: Instant, interval: Duration, i: nat)
    ensures
        slot(first, interval, i).later(interval) == slot(first, interval, i + 1),
{
    assert(interval.nanos * (i + 1) == interval.nanos * i + interval.nanos) by (nonlinear_arith);
    assert(interval.nanos * i >= 0) by (nonlinear_arith);
}

pub proof fn lemma_slots_ascend(first: Instant, interval: Duration, i: nat, j: nat)
    requires
        i < j,
    ensures
        slot(first, interval, j).nanos >= slot(first, interval, i).later(interval).nanos,
        slot(first, interval, i).nanos >= first.nanos,
{
    assert(interval.nanos * j >= interval.nanos * i + interval.nanos) by (nonlinear_arith)
        requires
            j >= i + 1,
    ;
    assert(interval.nanos * i >= 0) by (nonlinear_arith);
}

/// A rebuilt queue keeps to the pacer.
pub proof fn lemma_rebuilt(before: Endpoint, now: Instant)
    ensures
        before.rebuilt(now).orderly(),
{
    let first = before.pacer.next_at(now);
    let interval = before.pacer.interval;
    let after = before.rebuilt(now);
    assert forall|i: int| 0 <= i < after.pending.len() implies (
    #[trigger] after.pending[i]).scheduled_at.nanos >= after.pacer.tat.nanos by {
        lemma_slots_ascend(first, interval, i as nat, (i + 1) as nat);
    }
    assert forall|i: int, j: int| 0 <= i < j < after.pending.len() implies (
    #[trigger] after.pending[j]).scheduled_at.nanos >= (
    #[trigger] after.pending[i]).scheduled_at.later(interval).nanos by {
        lemma_slots_ascend(first, interval, i as nat, j as nat);
    }
}

proof fn lemma_removed(before: Endpoint, position: int)
    requires
        before.wf(),
        0 <= position < before.pending.len(),
    ensures
        ({
            let rest = before.pending.remove(position);
            &&& rest.len() == before.pending.len() - 1
            &&& forall|i: int| 0 <= i < rest.len() ==> #[trigger] rest[i].id < before.next_id
            &&& forall|i: int, j: int|
                0 <= i < j < rest.len() ==> (#[trigger] rest[i]).id < (#[trigger] rest[j]).id
        }),
{
    let rest = before.pending.remove(position);
    assert forall|i: int, j: int| 0 <= i < j < rest.len() implies (#[trigger] rest[i]).id < (
    #[trigger] rest[j]).id by {
        let k = if i < position { i } else { i + 1 };
        let l = if j < position { j } else { j + 1 };
        assert(before.pending[k].id < before.pending[l].id);
    }
}

} // verus!
