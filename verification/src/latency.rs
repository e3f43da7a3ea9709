//! Smoothed endpoint RTT estimates.

use crate::double::{Double, ONE};
use crate::time::{Duration, Instant};
use vstd::prelude::*;

verus! {

/// The number of buckets that the rolling minimum-RTT window is divided into.
pub const BASELINE_BUCKETS: usize = 8;

/// Configuration for the endpoint latency estimator.
#[derive(Clone, Copy, Debug)]
pub struct LatencyEstimatorConfig {
    /// Initial estimate used before the first response.
    pub initial_rtt: Duration,
    /// Weight given to new samples by the short EWMA.
    pub short_alpha: Double,
    /// Weight given to new samples by the long EWMA.
    pub long_alpha: Double,
    /// Smallest RTT accepted by the estimator.
    pub min_rtt: Duration,
    /// Time covered by the rolling minimum-RTT window.
    pub baseline_window: Duration,
}

impl Default for LatencyEstimatorConfig {
    fn default() -> (r: LatencyEstimatorConfig)
        ensures
            r.initial_rtt.nanos == 50_000_000,
            r.short_alpha.bits == 0x3FD0_0000_0000_0000,
            r.long_alpha.bits == 0x3FA9_9999_9999_999A,
            r.min_rtt.nanos == 1_000,
            r.baseline_window.nanos == 60_000_000_000,
    {
        LatencyEstimatorConfig {
            initial_rtt: Duration::from_millis(50),
            // A quarter, and five hundredths.
            short_alpha: Double { bits: 0x3FD0_0000_0000_0000 },
            long_alpha: Double { bits: 0x3FA9_9999_9999_999A },
            min_rtt: Duration::from_micros(1),
            baseline_window: Duration::from_secs(60),
        }
    }
}

impl LatencyEstimatorConfig {
    /// Whether an estimator can be made of this configuration.
    pub open spec fn valid(self) -> bool {
        &&& self.min_rtt.nanos > 0
        &&& self.initial_rtt.nanos >= self.min_rtt.nanos
        &&& 0 < self.short_alpha.bits <= ONE
        &&& 0 < self.long_alpha.bits <= ONE
        &&& self.baseline_window.nanos >= BASELINE_BUCKETS
    }

    /// Returns whether an estimator can be made of this configuration: the
    /// minimum RTT is positive and not above the initial one, both weights are
    /// in (0, 1], and the window is large enough for its buckets.
    pub fn is_valid(&self) -> (r: bool)
        ensures
            r == self.valid(),
    {
        self.min_rtt.nanos > 0 && self.initial_rtt.nanos >= self.min_rtt.nanos && 0
            < self.short_alpha.bits && self.short_alpha.bits <= ONE && 0 < self.long_alpha.bits
            && self.long_alpha.bits <= ONE && self.baseline_window.nanos
            >= BASELINE_BUCKETS as u128
    }

    /// The time that one bucket covers.
    pub open spec fn bucket_nanos(self) -> nat {
        self.baseline_window.nanos as nat / 8
    }
}

/// The smaller of two samples, where either may be missing.
pub open spec fn lower_sample(a: Option<Double>, b: Option<Double>) -> Option<Double> {
    match (a, b) {
        (Some(x), Some(y)) => Some(x.lesser(y)),
        (Some(x), None) => Some(x),
        (None, y) => y,
    }
}

/// The smallest of the samples that are there.
pub open spec fn lowest(samples: Seq<Option<Double>>) -> Option<Double>
    decreases samples.len(),
{
    if samples.len() == 0 {
        None
    } else {
        lower_sample(lowest(samples.drop_last()), samples.last())
    }
}

/// The exponentially weighted average after one more sample.
pub open spec fn averaged(previous: Double, sample: Double, alpha: Double) -> Double {
    if sample.bits >= previous.bits {
        previous.sum(alpha.product(sample.difference(previous)))
    } else {
        previous.difference(alpha.product(previous.difference(sample)))
    }
}

/// Endpoint RTT estimates.
#[verifier::ext_equal]
pub struct Latency {
    /// The parameters.
    pub config: LatencyEstimatorConfig,
    /// The short-term average in seconds.
    pub short: Double,
    /// The long-term average in seconds.
    pub long: Double,
    /// The smallest sample of the window in seconds, if there is one.
    pub baseline: Option<Double>,
    /// The smallest sample of each bucket.
    pub buckets: Seq<Option<Double>>,
    /// The bucket that new samples go to.
    pub bucket: nat,
    /// When that bucket was started.
    pub started: Option<Instant>,
    /// How many samples were observed.
    pub samples: u64,
}

impl Latency {
    /// Whether the window has its buckets and the configuration is valid.
    pub open spec fn wf(self) -> bool {
        &&& self.config.valid()
        &&& self.buckets.len() == 8
        &&& self.bucket < 8
    }

    /// The estimates before the first response.
    pub open spec fn fresh(config: LatencyEstimatorConfig) -> Latency {
        Latency {
            config,
            short: config.initial_rtt.in_seconds(),
            long: config.initial_rtt.in_seconds(),
            baseline: None,
            buckets: Seq::new(8, |i: int| None),
            bucket: 0,
            started: None,
            samples: 0,
        }
    }

    /// How many whole buckets have passed since the current one was started.
    pub open spec fn steps(self, now: Instant) -> nat {
        match self.started {
            Some(started) => now.since(started).nanos as nat / self.config.bucket_nanos(),
            None => 0,
        }
    }

    /// How many buckets after the current one a bucket lies.
    pub open spec fn ahead(self, i: int) -> int {
        (i + 8 - self.bucket) % 8
    }

    /// The window moved on to `now`: the buckets that it has passed are empty.
    pub open spec fn advanced(self, now: Instant) -> Latency {
        let steps = self.steps(now);
        if self.started is None {
            Latency { started: Some(now), ..self }
        } else if steps >= 8 {
            Latency {
                buckets: Seq::new(8, |i: int| None),
                bucket: 0,
                started: Some(now),
                baseline: None,
                ..self
            }
        } else {
            Latency {
                buckets: Seq::new(
                    8,
                    |i: int|
                        if 1 <= self.ahead(i) <= steps {
                            None
                        } else {
                            self.buckets[i]
                        },
                ),
                bucket: (self.bucket + steps) % 8,
                started: Some(
                    self.started.unwrap().later(
                        Duration { nanos: (self.config.bucket_nanos() * steps) as u128 },
                    ),
                ),
                ..self
            }
        }
    }

    /// The estimates after one more sample.
    pub open spec fn observed(self, sample: Duration, now: Instant) -> Latency {
        let value = sample.longer_of(self.config.min_rtt).in_seconds();
        let moved = self.advanced(now);
        let buckets = moved.buckets.update(
            moved.bucket as int,
            lower_sample(moved.buckets[moved.bucket as int], Some(value)),
        );
        Latency {
            short: averaged(self.short, value, self.config.short_alpha),
            long: averaged(self.long, value, self.config.long_alpha),
            buckets,
            baseline: match lowest(buckets) {
                Some(least) => Some(least.greater(self.config.min_rtt.in_seconds())),
                None => None,
            },
            samples: (self.samples + 1) as u64,
            ..moved
        }
    }

    /// The long-term RTT, at least the smallest one accepted.
    pub open spec fn expected_rtt(self) -> Duration {
        Duration::of_seconds(self.long.greater(self.config.min_rtt.in_seconds()))
    }

    /// The smallest RTT of the window, or the initial estimate.
    pub open spec fn baseline_rtt(self) -> Duration {
        let least = match self.baseline {
            Some(least) => least,
            None => self.config.initial_rtt.in_seconds(),
        };
        Duration::of_seconds(least.greater(self.config.min_rtt.in_seconds()))
    }
}

/// Smoothed endpoint RTT estimates.
///
/// The estimator receives dispatch-to-completion measurements; callers should
/// not feed local queue or pacing delay into it.
#[derive(Clone, Debug)]
pub struct LatencyEstimator {
    config: LatencyEstimatorConfig,
    short: Double,
    long: Double,
    baseline: Option<Double>,
    baseline_buckets: Vec<Option<Double>>,
    baseline_bucket: usize,
    baseline_bucket_started: Option<Instant>,
    samples: u64,
}

impl View for LatencyEstimator {
    type V = Latency;

    closed spec fn view(&self) -> Latency {
        Latency {
            config: self.config,
            short: self.short,
            long: self.long,
            baseline: self.baseline,
            buckets: self.baseline_buckets@,
            bucket: self.baseline_bucket as nat,
            started: self.baseline_bucket_started,
            samples: self.samples,
        }
    }
}

impl LatencyEstimator {
    /// Creates an estimator.
    pub fn new(config: LatencyEstimatorConfig) -> (r: LatencyEstimator)
        requires
            config.valid(),
        ensures
            r@ == Latency::fresh(config),
            r@.wf(),
    {
        let initial = config.initial_rtt.as_seconds();
        LatencyEstimator {
            config,
            short: initial,
            long: initial,
            baseline: None,
            baseline_buckets: empty_buckets(),
            baseline_bucket: 0,
            baseline_bucket_started: None,
            samples: 0,
        }
    }

    /// Records one dispatch-to-completion measurement.
    pub fn observe_at(&mut self, sample: Duration, now: Instant)
        requires
            old(self)@.wf(),
            old(self)@.samples < u64::MAX,
        ensures
            final(self)@ == old(self)@.observed(sample, now),
            final(self)@.wf(),
    {
        let value = sample.longer(self.config.min_rtt).as_seconds();
        self.short = ewma(self.short, value, self.config.short_alpha);
        self.long = ewma(self.long, value, self.config.long_alpha);
        self.advance_baseline_window(now);
        let ghost moved = self@;
        let least = lower_of(self.baseline_buckets[self.baseline_bucket], Some(value));
        self.baseline_buckets.set(self.baseline_bucket, least);
        let baseline = lowest_of(&self.baseline_buckets);
        self.baseline = match baseline {
            Some(least) => Some(least.larger(self.config.min_rtt.as_seconds())),
            None => None,
        };
        self.samples = self.samples + 1;
        proof {
            assert(moved.buckets == old(self)@.advanced(now).buckets);
        }
    }

    /// Returns the long-term RTT, at least the smallest one accepted.
    pub fn expected_rtt(&self) -> (r: Duration)
        ensures
            r == self@.expected_rtt(),
    {
        Duration::from_seconds(self.long.larger(self.config.min_rtt.as_seconds()))
    }

    /// Returns the short-term RTT.
    pub fn short(&self) -> (r: Duration)
        ensures
            r == Duration::of_seconds(self@.short),
    {
        Duration::from_seconds(self.short)
    }

    /// Returns the long-term RTT.
    pub fn long(&self) -> (r: Duration)
        ensures
            r == Duration::of_seconds(self@.long),
    {
        Duration::from_seconds(self.long)
    }

    /// Returns the minimum observed RTT, or the initial estimate before the
    /// first successful sample arrives.
    pub fn baseline(&self) -> (r: Duration)
        ensures
            r == self@.baseline_rtt(),
    {
        let least = match self.baseline {
            Some(least) => least,
            None => self.config.initial_rtt.as_seconds(),
        };
        Duration::from_seconds(least.larger(self.config.min_rtt.as_seconds()))
    }

    /// Returns how many samples were observed.
    pub fn samples(&self) -> (r: u64)
        ensures
            r == self@.samples,
    {
        self.samples
    }

    /// Moves the window on, emptying the buckets that it passes.
    fn advance_baseline_window(&mut self, now: Instant)
        requires
            old(self)@.wf(),
        ensures
            final(self)@ == old(self)@.advanced(now),
            final(self)@.wf(),
    {
        let bucket_nanos: u128 = self.config.baseline_window.nanos / 8;
        let started = match self.baseline_bucket_started {
            Some(started) => started,
            None => {
                self.baseline_bucket_started = Some(now);
                return;
            },
        };
        let elapsed = now.saturating_duration_since(started);
        let steps: u128 = elapsed.nanos / bucket_nanos;
        assert(steps == self@.steps(now));
        if steps >= 8 {
            self.baseline_buckets = empty_buckets();
            self.baseline_bucket = 0;
            self.baseline_bucket_started = Some(now);
            self.baseline = None;
            return;
        }
        let ghost before = self@;
        let mut passed: u128 = 0;
        while passed < steps
            invariant
                passed <= steps < 8,
                before.wf(),
                self.baseline_buckets@ == Seq::new(
                    8,
                    |i: int|
                        if 1 <= before.ahead(i) <= passed {
                            None
                        } else {
                            before.buckets[i]
                        },
                ),
                self.baseline_bucket == (before.bucket + passed) % 8,
                self.config == before.config,
                self.short == before.short,
                self.long == before.long,
                self.baseline == before.baseline,
                self.samples == before.samples,
                self.baseline_bucket_started == before.started,
            decreases steps - passed,
        {
            self.baseline_bucket = (self.baseline_bucket + 1) % 8;
            self.baseline_buckets.set(self.baseline_bucket, None);
            passed = passed + 1;
        }
        proof {
            vstd::arithmetic::div_mod::lemma_fundamental_div_mod(
                elapsed.nanos as int,
                bucket_nanos as int,
            );
            vstd::arithmetic::div_mod::lemma_mod_bound(elapsed.nanos as int, bucket_nanos as int);
        }
        self.baseline_bucket_started = Some(
            started.plus(Duration { nanos: bucket_nanos * steps }),
        );
    }
}

/// A window without samples.
fn empty_buckets() -> (r: Vec<Option<Double>>)
    ensures
        r@ == Seq::new(8, |i: int| None::<Double>),
{
    let mut buckets: Vec<Option<Double>> = Vec::new();
    while buckets.len() < BASELINE_BUCKETS
        invariant
            buckets.len() <= 8,
            forall|i: int| 0 <= i < buckets.len() ==> buckets[i] is None,
        decreases 8 - buckets.len(),
    {
        buckets.push(None);
    }
    buckets
}

/// Returns the smaller of two samples, where either may be missing.
fn lower_of(a: Option<Double>, b: Option<Double>) -> (r: Option<Double>)
    ensures
        r == lower_sample(a, b),
{
    match (a, b) {
        (Some(x), Some(y)) => Some(x.smaller(y)),
        (Some(x), None) => Some(x),
        (None, y) => y,
    }
}

/// Returns the smallest of the samples that are there.
fn lowest_of(samples: &Vec<Option<Double>>) -> (r: Option<Double>)
    ensures
        r == lowest(samples@),
{
    let mut least: Option<Double> = None;
    let mut i: usize = 0;
    while i < samples.len()
        invariant
            i <= samples.len(),
            least == lowest(samples@.take(i as int)),
        decreases samples.len() - i,
    {
        proof {
            assert(samples@.take(i + 1).drop_last() == samples@.take(i as int));
        }
        least = lower_of(least, samples[i]);
        i = i + 1;
    }
    proof {
        assert(samples@.take(i as int) == samples@);
    }
    least
}

/// Adds one sample to an exponentially weighted average.
fn ewma(previous: Double, sample: Double, alpha: Double) -> (r: Double)
    ensures
        r == averaged(previous, sample, alpha),
{
    if sample.bits >= previous.bits {
        previous.plus(alpha.times(sample.minus(previous)))
    } else {
        previous.minus(alpha.times(previous.minus(sample)))
    }
}

} // verus!
