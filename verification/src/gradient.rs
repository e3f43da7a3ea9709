//! A fractional operating-point controller.

use crate::double::{Double, INFINITY, ONE};
use crate::gcra::saturating_add;
use crate::time::{Duration, Instant};
use vstd::prelude::*;

verus! {

/// The encoding of one half.
pub const HALF: u64 = 0x3FE0_0000_0000_0000;

/// The encoding of two.
pub const TWO: u64 = 0x4000_0000_0000_0000;

/// The encoding of the smallest number with a full mantissa.
pub const MIN_POSITIVE: u64 = 0x0010_0000_0000_0000;

/// Parameters for the fractional Gradient2 controller.
#[derive(Clone, Copy, Debug)]
pub struct Gradient2Config {
    /// Initial virtual concurrency.
    pub initial_concurrency: Double,
    /// Lower bound for the virtual concurrency.
    pub min_concurrency: Double,
    /// Upper bound for the virtual concurrency.
    pub max_concurrency: Double,
    /// Queueing delay tolerated before reducing the operating point.
    pub queue_tolerance: Duration,
    /// Additive queue allowance used when latency is healthy.
    pub gain: Double,
    /// Smoothing applied to each new operating-point estimate.
    pub smoothing: Double,
    /// Minimum time between healthy operating-point updates.
    pub update_interval: Duration,
    /// Multiplier used after a classified failure.
    pub failure_factor: Double,
}

impl Default for Gradient2Config {
    fn default() -> (r: Gradient2Config)
        ensures
            r.initial_concurrency.bits == ONE,
            r.min_concurrency.bits == 0x3FD0_0000_0000_0000,
            r.max_concurrency.bits == 0x4090_0000_0000_0000,
            r.queue_tolerance.nanos == 25_000_000,
            r.gain.bits == 0x3FB9_9999_9999_999A,
            r.smoothing.bits == 0x3FC9_9999_9999_999A,
            r.update_interval.nanos == 100_000_000,
            r.failure_factor.bits == 0x3FE6_6666_6666_6666,
            r.valid(),
    {
        Gradient2Config {
            initial_concurrency: Double { bits: ONE },
            // A quarter, and 1024.
            min_concurrency: Double { bits: 0x3FD0_0000_0000_0000 },
            max_concurrency: Double { bits: 0x4090_0000_0000_0000 },
            queue_tolerance: Duration::from_millis(25),
            // A tenth, a fifth, and seven tenths.
            gain: Double { bits: 0x3FB9_9999_9999_999A },
            smoothing: Double { bits: 0x3FC9_9999_9999_999A },
            update_interval: Duration::from_millis(100),
            failure_factor: Double { bits: 0x3FE6_6666_6666_6666 },
        }
    }
}

impl Gradient2Config {
    /// Whether a controller can be made of these parameters.
    pub open spec fn valid(self) -> bool {
        &&& 0 < self.min_concurrency.bits <= self.max_concurrency.bits < INFINITY
        &&& self.min_concurrency.bits <= self.initial_concurrency.bits
            <= self.max_concurrency.bits
        &&& 0 < self.gain.bits < INFINITY
        &&& 0 < self.smoothing.bits <= ONE
        &&& self.update_interval.nanos > 0
        &&& 0 < self.failure_factor.bits <= ONE
    }

    /// Returns whether a controller can be made of these parameters: the
    /// concurrency bounds are positive, finite and ordered with the initial
    /// value between them, the gain is positive and finite, the smoothing and
    /// the failure factor are in (0, 1], and the update interval is positive.
    pub fn is_valid(&self) -> (r: bool)
        ensures
            r == self.valid(),
    {
        0 < self.min_concurrency.bits && self.min_concurrency.bits <= self.max_concurrency.bits
            && self.max_concurrency.bits < INFINITY && self.min_concurrency.bits
            <= self.initial_concurrency.bits && self.initial_concurrency.bits
            <= self.max_concurrency.bits && 0 < self.gain.bits && self.gain.bits < INFINITY && 0
            < self.smoothing.bits && self.smoothing.bits <= ONE && self.update_interval.nanos > 0
            && 0 < self.failure_factor.bits && self.failure_factor.bits <= ONE
    }
}

/// An operating point.
#[derive(Clone, Copy)]
pub struct OperatingPoint {
    /// The parameters.
    pub config: Gradient2Config,
    /// The virtual concurrency.
    pub concurrency: Double,
    /// The gradient of the last sample, zero after a failure.
    pub last_gradient: Double,
    /// How often the concurrency was updated.
    pub updates: u64,
    /// When the next healthy update may be made.
    pub next_update_at: Option<Instant>,
}

impl OperatingPoint {
    /// Whether the parameters are valid and the concurrency is between its
    /// bounds.
    pub open spec fn wf(self) -> bool {
        &&& self.config.valid()
        &&& self.config.min_concurrency.bits <= self.concurrency.bits
            <= self.config.max_concurrency.bits
    }

    /// The operating point before the first sample.
    pub open spec fn fresh(config: Gradient2Config) -> OperatingPoint {
        OperatingPoint {
            config,
            concurrency: config.initial_concurrency,
            last_gradient: Double { bits: ONE },
            updates: 0,
            next_update_at: None,
        }
    }

    /// Whether a sample says nothing about spare capacity: the request did not
    /// wait for its slot, or less than half of the concurrency was in use.
    pub open spec fn application_limited(self, inflight: usize, was_paced: bool) -> bool {
        !was_paced || Double::whole(inflight as nat).bits < self.concurrency.quotient(
            Double { bits: TWO },
        ).bits
    }

    /// How far the tolerated RTT covers the current one, between one half and
    /// one.
    pub open spec fn gradient(self, current_rtt: Duration, reference_rtt: Duration) -> Double {
        let least = Double { bits: MIN_POSITIVE };
        let tolerated = reference_rtt.joined(
            self.config.queue_tolerance,
        ).in_seconds().greater(least);
        let current = current_rtt.in_seconds().greater(least);
        tolerated.quotient(current).confined(Double { bits: HALF }, Double { bits: ONE })
    }

    /// Whether a healthy update has to wait.
    pub open spec fn gated(self, now: Instant) -> bool {
        self.next_update_at matches Some(at) && now.nanos < at.nanos
    }

    /// The concurrency that a gradient leads to.
    pub open spec fn moved(self, gradient: Double) -> Double {
        let estimate = self.concurrency.product(gradient).sum(self.config.gain);
        let kept = (Double { bits: ONE }).difference(self.config.smoothing);
        self.concurrency.product(kept).sum(estimate.product(self.config.smoothing)).confined(
            self.config.min_concurrency,
            self.config.max_concurrency,
        )
    }

    /// Whether a sample changes the concurrency.
    pub open spec fn updates_on(self, inflight: usize, was_paced: bool, now: Instant) -> bool {
        !self.application_limited(inflight, was_paced) && !self.gated(now)
    }

    /// The operating point after a healthy sample.
    pub open spec fn sampled(
        self,
        current_rtt: Duration,
        reference_rtt: Duration,
        inflight: usize,
        was_paced: bool,
        now: Instant,
    ) -> OperatingPoint {
        let gradient = self.gradient(current_rtt, reference_rtt);
        if self.application_limited(inflight, was_paced) {
            self
        } else if self.gated(now) {
            OperatingPoint { last_gradient: gradient, ..self }
        } else {
            OperatingPoint {
                concurrency: self.moved(gradient),
                last_gradient: gradient,
                updates: (self.updates + 1) as u64,
                next_update_at: Some(now.later(self.config.update_interval)),
                ..self
            }
        }
    }

    /// The operating point after a failure.
    pub open spec fn failed(self, now: Instant) -> OperatingPoint {
        OperatingPoint {
            concurrency: self.concurrency.product(self.config.failure_factor).confined(
                self.config.min_concurrency,
                self.config.max_concurrency,
            ),
            last_gradient: Double { bits: 0 },
            updates: (self.updates + 1) as u64,
            next_update_at: Some(now.later(self.config.update_interval)),
            ..self
        }
    }
}

/// A fractional Gradient2 operating-point controller.
///
/// Unlike an integer concurrency limiter, this controller deliberately keeps
/// values such as `1.3`. The endpoint controller turns that value into a rate
/// with Little's Law and lets GCRA enforce the rate.
#[derive(Clone, Debug)]
pub struct Gradient2 {
    config: Gradient2Config,
    concurrency: Double,
    last_gradient: Double,
    updates: u64,
    next_update_at: Option<Instant>,
}

impl View for Gradient2 {
    type V = OperatingPoint;

    closed spec fn view(&self) -> OperatingPoint {
        OperatingPoint {
            config: self.config,
            concurrency: self.concurrency,
            last_gradient: self.last_gradient,
            updates: self.updates,
            next_update_at: self.next_update_at,
        }
    }
}

impl Gradient2 {
    /// Creates a fractional Gradient2 controller.
    pub fn new(config: Gradient2Config) -> (r: Gradient2)
        requires
            config.valid(),
        ensures
            r@ == OperatingPoint::fresh(config),
            r@.wf(),
    {
        Gradient2 {
            concurrency: config.initial_concurrency,
            config,
            last_gradient: Double { bits: ONE },
            updates: 0,
            next_update_at: None,
        }
    }

    /// Updates the operating point from current and long-term RTT estimates at
    /// an explicit time.
    ///
    /// Healthy operating point changes are limited by
    /// [`Gradient2Config::update_interval`], so a high response rate cannot
    /// make the controller adapt proportionally faster than a low one.
    pub fn on_rtt_at(
        &mut self,
        current_rtt: Duration,
        long_rtt: Duration,
        inflight: usize,
        now: Instant,
    ) -> (r: bool)
        requires
            old(self)@.wf(),
            old(self)@.updates < u64::MAX,
        ensures
            final(self)@ == old(self)@.sampled(current_rtt, long_rtt, inflight, true, now),
            r == old(self)@.updates_on(inflight, true, now),
            final(self)@.wf(),
    {
        self.on_rtt_with_pacing_at(current_rtt, long_rtt, inflight, true, now)
    }

    /// Updates the operating point with an explicit pacing signal and time.
    ///
    /// `was_paced` is true when the request had to wait for a future GCRA
    /// slot. A healthy request that arrived while the pacer was idle is
    /// application-limited and must not cause additive growth.
    pub fn on_rtt_with_pacing_at(
        &mut self,
        current_rtt: Duration,
        long_rtt: Duration,
        inflight: usize,
        was_paced: bool,
        now: Instant,
    ) -> (r: bool)
        requires
            old(self)@.wf(),
            old(self)@.updates < u64::MAX,
        ensures
            final(self)@ == old(self)@.sampled(current_rtt, long_rtt, inflight, was_paced, now),
            r == old(self)@.updates_on(inflight, was_paced, now),
            final(self)@.wf(),
    {
        self.on_rtt_with_reference_at(current_rtt, long_rtt, inflight, was_paced, now)
    }

    /// Updates the operating point against a minimum-RTT reference at an
    /// explicit time.
    ///
    /// Endpoint controllers use this form so an incumbent's queue-inflated
    /// long RTT cannot become permission to keep its share after a new client
    /// joins.
    pub fn on_rtt_with_baseline_at(
        &mut self,
        current_rtt: Duration,
        baseline_rtt: Duration,
        inflight: usize,
        was_paced: bool,
        now: Instant,
    ) -> (r: bool)
        requires
            old(self)@.wf(),
            old(self)@.updates < u64::MAX,
        ensures
            final(self)@ == old(self)@.sampled(
                current_rtt,
                baseline_rtt,
                inflight,
                was_paced,
                now,
            ),
            r == old(self)@.updates_on(inflight, was_paced, now),
            final(self)@.wf(),
    {
        self.on_rtt_with_reference_at(current_rtt, baseline_rtt, inflight, was_paced, now)
    }

    fn on_rtt_with_reference_at(
        &mut self,
        current_rtt: Duration,
        reference_rtt: Duration,
        inflight: usize,
        was_paced: bool,
        now: Instant,
    ) -> (r: bool)
        requires
            old(self)@.wf(),
            old(self)@.updates < u64::MAX,
        ensures
            final(self)@ == old(self)@.sampled(
                current_rtt,
                reference_rtt,
                inflight,
                was_paced,
                now,
            ),
            r == old(self)@.updates_on(inflight, was_paced, now),
            final(self)@.wf(),
    {
        let least = Double { bits: MIN_POSITIVE };
        let half = self.concurrency.over(Double { bits: TWO });
        let application_limited = !was_paced || Double::from_int(inflight as u128).bits
            < half.bits;
        if application_limited {
            return false;
        }
        // The gradient is bounded so that a single outlier cannot halve the
        // operating point more than once, while a healthy sample can recover
        // toward the current one.
        let tolerated = reference_rtt.saturating_add(
            self.config.queue_tolerance,
        ).as_seconds().larger(least);
        let current = current_rtt.as_seconds().larger(least);
        let gradient = tolerated.over(current).confine(
            Double { bits: HALF },
            Double { bits: ONE },
        );
        self.last_gradient = gradient;
        if let Some(next_update_at) = self.next_update_at {
            if now.nanos < next_update_at.nanos {
                return false;
            }
        }
        let estimate = self.concurrency.times(gradient).plus(self.config.gain);
        let kept = Double { bits: ONE }.minus(self.config.smoothing);
        self.concurrency = self.concurrency.times(kept).plus(
            estimate.times(self.config.smoothing),
        ).confine(self.config.min_concurrency, self.config.max_concurrency);
        self.updates = self.updates + 1;
        self.next_update_at = Some(saturating_add(now, self.config.update_interval));
        true
    }

    /// Reduces the operating point at an explicit time.
    pub fn on_failure_at(&mut self, now: Instant)
        requires
            old(self)@.wf(),
            old(self)@.updates < u64::MAX,
        ensures
            final(self)@ == old(self)@.failed(now),
            final(self)@.wf(),
    {
        self.concurrency = self.concurrency.times(self.config.failure_factor).confine(
            self.config.min_concurrency,
            self.config.max_concurrency,
        );
        self.last_gradient = Double { bits: 0 };
        self.updates = self.updates + 1;
        self.next_update_at = Some(saturating_add(now, self.config.update_interval));
    }

    /// Returns the virtual concurrency.
    pub fn concurrency(&self) -> (r: Double)
        ensures
            r == self@.concurrency,
    {
        self.concurrency
    }

    /// Returns the gradient of the last sample, zero after a failure.
    pub fn last_gradient(&self) -> (r: Double)
        ensures
            r == self@.last_gradient,
    {
        self.last_gradient
    }

    /// Returns how often the operating point was updated.
    pub fn updates(&self) -> (r: u64)
        ensures
            r == self@.updates,
    {
        self.updates
    }
}

/// A failure never raises the operating point.
pub proof fn law_failure_never_raises(point: OperatingPoint, now: Instant)
    requires
        point.wf(),
    ensures
        point.failed(now).concurrency.bits <= point.concurrency.bits,
        point.failed(now).wf(),
{
    crate::double::lemma_product_at_most(point.concurrency, point.config.failure_factor);
}

/// A sample of an application-limited caller changes nothing.
pub proof fn law_low_demand_is_no_evidence(
    point: OperatingPoint,
    current_rtt: Duration,
    reference_rtt: Duration,
    inflight: usize,
    was_paced: bool,
    now: Instant,
)
    requires
        point.application_limited(inflight, was_paced),
    ensures
        point.sampled(current_rtt, reference_rtt, inflight, was_paced, now) == point,
        !point.updates_on(inflight, was_paced, now),
{
}

/// After an update or a failure no healthy sample moves the operating point
/// until the update interval is over, whatever the response rate is.
pub proof fn law_updates_are_time_gated(
    point: OperatingPoint,
    first: (Duration, Duration, usize),
    second: (Duration, Duration, usize),
    now: Instant,
    later: Instant,
)
    requires
        point.updates_on(first.2, true, now),
        later.nanos < now.later(point.config.update_interval).nanos,
    ensures
        ({
            let moved = point.sampled(first.0, first.1, first.2, true, now);
            let again = moved.sampled(second.0, second.1, second.2, true, later);
            &&& again.concurrency == moved.concurrency
            &&& again.updates == moved.updates
            &&& !moved.updates_on(second.2, true, later)
        }),
        ({
            let failed = point.failed(now);
            let again = failed.sampled(second.0, second.1, second.2, true, later);
            &&& again.concurrency == failed.concurrency
            &&& again.updates == failed.updates
        }),
{
}

/// Every sample and every failure keeps the concurrency between its bounds.
pub proof fn law_concurrency_stays_bounded(
    point: OperatingPoint,
    current_rtt: Duration,
    reference_rtt: Duration,
    inflight: usize,
    was_paced: bool,
    now: Instant,
)
    requires
        point.wf(),
    ensures
        point.sampled(current_rtt, reference_rtt, inflight, was_paced, now).wf(),
        point.failed(now).wf(),
{
}

/// A sample is reported as an update exactly where it makes one: then it is
/// counted, and the next one has to wait for the update interval.
pub proof fn law_reported_updates_are_made(
    point: OperatingPoint,
    current_rtt: Duration,
    reference_rtt: Duration,
    inflight: usize,
    was_paced: bool,
    now: Instant,
)
    requires
        point.updates < u64::MAX,
    ensures
        ({
            let after = point.sampled(current_rtt, reference_rtt, inflight, was_paced, now);
            let reported = point.updates_on(inflight, was_paced, now);
            &&& reported <==> after.updates == point.updates + 1
            &&& !reported ==> after.updates == point.updates && after.concurrency
                == point.concurrency && after.next_update_at == point.next_update_at
            &&& reported && now.nanos + point.config.update_interval.nanos <= u128::MAX
                ==> after.next_update_at == Some(
                Instant { nanos: (now.nanos + point.config.update_interval.nanos) as u128 },
            )
        }),
{
}

} // verus!
