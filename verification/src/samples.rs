//! What holds of RTT estimates over any sequence of samples.

use crate::double::{Double, ONE};
use crate::latency::{Latency, LatencyEstimatorConfig};
use crate::time::{Duration, Instant, MAX_NANOS};
use vstd::arithmetic::power2::pow2;
use vstd::prelude::*;

verus! {

/// The RTTs that are resolved to the nanosecond as a number of seconds: those
/// below two to the power 23 seconds.
pub const RESOLVED_NANOS: u64 = 8_388_608_000_000_000;

/// The RTTs below which the rounding of three steps stays below half a
/// nanosecond: two to the power 21 seconds.
pub const ROUNDED_NANOS: u64 = 2_097_152_000_000_000;

/// Durations below two to the power 23 seconds survive as a number of seconds.
pub proof fn law_seconds_are_read_back(duration: Duration)
    requires
        duration.nanos < RESOLVED_NANOS,
    ensures
        Duration::of_seconds(duration.in_seconds()) == duration,
{
    let p = pow2(1074);
    let n = duration.nanos as int;
    let x = duration.in_seconds().units() * 1_000_000_000;
    vstd::arithmetic::power2::lemma2_to64();
    vstd::arithmetic::power2::lemma_pow2_pos(1022);
    vstd::arithmetic::power2::lemma_pow2_adds(52, 1022);
    vstd::arithmetic::power2::lemma_pow2_adds(21, 1022);
    vstd::arithmetic::power2::lemma2_to64_rest();
    crate::precision::lemma_seconds_close(duration, 23);
    crate::precision::lemma_rounded(x, p);
    let r = crate::double::rounded(x, p) as int;
    if r > n {
        assert(r * p >= n * p + p) by (nonlinear_arith)
            requires
                r >= n + 1,
                p > 0,
        ;
    } else if r < n {
        assert(r * p <= n * p - p) by (nonlinear_arith)
            requires
                r <= n - 1,
                p > 0,
        ;
    }
}

/// Whether a number lies between two others.
pub open spec fn amid(a: Double, b: Double, x: Double) -> bool {
    ||| a.bits <= x.bits <= b.bits
    ||| b.bits <= x.bits <= a.bits
}

/// Whether a duration lies between two others.
pub open spec fn between(a: Duration, b: Duration, x: Duration) -> bool {
    ||| a.nanos <= x.nanos <= b.nanos
    ||| b.nanos <= x.nanos <= a.nanos
}

/// Whether the nanoseconds of an average with a weight are resolved. With all
/// weight on the sample, adding and taking away round once more each.
pub open spec fn resolved(alpha: Double, old_average: Duration, value: Duration) -> bool {
    if alpha.bits < ONE {
        value.nanos < RESOLVED_NANOS
    } else {
        value.nanos < ROUNDED_NANOS && old_average.nanos < ROUNDED_NANOS
    }
}

/// What is said of an average: its number of seconds lies between those of its
/// old value and of the sample, for RTTs of any size and every weight below one.
/// In nanoseconds it lies between them as far as a nanosecond is resolved.
pub open spec fn averages(
    alpha: Double,
    old_average: Double,
    value: Duration,
    average: Double,
) -> bool {
    &&& alpha.bits < ONE ==> amid(old_average, value.in_seconds(), average)
    &&& resolved(alpha, Duration::of_seconds(old_average), value) ==> between(
        Duration::of_seconds(old_average),
        value,
        Duration::of_seconds(average),
    )
}

/// Each average lies between its old value and the sample.
pub proof fn law_averages_lie_between(latency: Latency, sample: Duration, now: Instant)
    requires
        latency.wf(),
        sample.longer_of(latency.config.min_rtt).nanos <= MAX_NANOS,
        latency.short.bits < crate::double::INFINITY,
        latency.long.bits < crate::double::INFINITY,
    ensures
        ({
            let value = sample.longer_of(latency.config.min_rtt);
            let after = latency.observed(sample, now);
            &&& averages(latency.config.short_alpha, latency.short, value, after.short)
            &&& averages(latency.config.long_alpha, latency.long, value, after.long)
        }),
{
    let value = sample.longer_of(latency.config.min_rtt);
    lemma_averages(latency.short, value, latency.config.short_alpha);
    lemma_averages(latency.long, value, latency.config.long_alpha);
}

proof fn lemma_averages(previous: Double, value: Duration, alpha: Double)
    requires
        0 < alpha.bits <= ONE,
        0 < value.nanos <= MAX_NANOS,
        previous.bits < crate::double::INFINITY,
    ensures
        averages(
            alpha,
            previous,
            value,
            crate::latency::averaged(previous, value.in_seconds(), alpha),
        ),
{
    let sample = value.in_seconds();
    let average = crate::latency::averaged(previous, sample, alpha);
    if alpha.bits < ONE {
        crate::precision::lemma_finite(previous);
        lemma_finite_seconds(value);
        crate::precision::lemma_average_exact(previous, sample, alpha);
        if value.nanos < RESOLVED_NANOS {
            law_seconds_are_read_back(value);
            if sample.bits >= previous.bits {
                crate::precision::lemma_of_seconds_monotone(previous, average);
                crate::precision::lemma_of_seconds_monotone(average, sample);
            } else {
                crate::precision::lemma_of_seconds_monotone(average, previous);
                crate::precision::lemma_of_seconds_monotone(sample, average);
            }
        }
    } else if resolved(alpha, Duration::of_seconds(previous), value) {
        lemma_rounded_average(previous, value, alpha);
    }
}

proof fn lemma_finite_seconds(value: Duration)
    requires
        0 < value.nanos <= MAX_NANOS,
    ensures
        value.in_seconds().units() < pow2(3000),
{
    crate::precision::lemma_seconds_range(value);
    vstd::arithmetic::power2::lemma_pow2_adds(66, 1074);
    vstd::arithmetic::power2::lemma_pow2_strictly_increases(1140, 3000);
}

proof fn lemma_rounded_average(previous: Double, value: Duration, alpha: Double)
    requires
        alpha.bits <= ONE,
        value.nanos < ROUNDED_NANOS,
        Duration::of_seconds(previous).nanos < ROUNDED_NANOS,
    ensures
        between(
            Duration::of_seconds(previous),
            value,
            Duration::of_seconds(
                crate::latency::averaged(previous, value.in_seconds(), alpha),
            ),
        ),
{
    let p = pow2(1074);
    let h = pow2(1022);
    let sample = value.in_seconds();
    let average = crate::latency::averaged(previous, sample, alpha);
    let (o, v, r) = (
        previous.units() * 1_000_000_000,
        sample.units() * 1_000_000_000,
        average.units() * 1_000_000_000,
    );
    let n = value.nanos as int;
    vstd::arithmetic::power2::lemma2_to64();
    vstd::arithmetic::power2::lemma2_to64_rest();
    vstd::arithmetic::power2::lemma_pow2_pos(1022);
    vstd::arithmetic::power2::lemma_pow2_adds(52, 1022);
    vstd::arithmetic::power2::lemma_pow2_adds(19, 1022);
    vstd::arithmetic::power2::lemma_pow2_adds(20, 1022);
    vstd::arithmetic::power2::lemma_pow2_adds(21, 1074);
    assert(p == 0x10_0000_0000_0000 * h && pow2(1041) == 0x8_0000 * h && pow2(1042) == 0x10_0000 * h
        && pow2(1095) == 0x20_0000 * p);
    crate::precision::lemma_seconds_close(value, 21);
    crate::precision::lemma_rounded(o, p);
    crate::precision::lemma_rounded(r, p);
    let a = crate::double::rounded(o, p) as int;
    let b = crate::double::rounded(r, p) as int;
    // Both are below two to the power 21 seconds by almost a nanosecond.
    assert(n * p <= (ROUNDED_NANOS - 1) * p) by (nonlinear_arith)
        requires
            n <= ROUNDED_NANOS - 1,
            p > 0,
    ;
    assert(a * p <= (ROUNDED_NANOS - 1) * p) by (nonlinear_arith)
        requires
            a <= ROUNDED_NANOS - 1,
            p > 0,
    ;
    assert(previous.units() + pow2(1042) <= pow2(1095));
    assert(sample.units() + pow2(1042) <= pow2(1095));
    crate::precision::lemma_average_small(previous, sample, alpha);
    if sample.bits >= previous.bits {
        crate::precision::lemma_of_seconds_monotone(previous, average);
        assert(2 * r < 2 * (n * p) + p);
        if b > n {
            assert(b * p >= n * p + p) by (nonlinear_arith)
                requires
                    b >= n + 1,
                    p > 0,
            ;
        }
    } else {
        crate::precision::lemma_of_seconds_monotone(average, previous);
        assert(2 * r > 2 * (n * p) - p);
        if b < n {
            assert(b * p <= n * p - p) by (nonlinear_arith)
                requires
                    b <= n - 1,
                    p > 0,
            ;
        }
    }
}

/// Whether an average has moved towards a sample, and past it by no more than
/// rounding does: one part in two to the power 51 of the larger of the two.
pub open spec fn approaches(old_average: Double, sample: Double, average: Double) -> bool {
    if sample.bits >= old_average.bits {
        &&& average.bits >= old_average.bits
        &&& 0x8_0000_0000_0000 * (average.units() - sample.units()) <= sample.units()
    } else {
        &&& average.bits <= old_average.bits
        &&& 0x8_0000_0000_0000 * (sample.units() - average.units()) <= old_average.units()
    }
}

/// Each average moves towards the sample, for RTTs of any size and every weight,
/// and never past it but for rounding.
pub proof fn law_averages_approach_samples(latency: Latency, sample: Duration, now: Instant)
    requires
        latency.wf(),
        sample.longer_of(latency.config.min_rtt).nanos <= MAX_NANOS,
        latency.short.bits < crate::double::INFINITY,
        latency.long.bits < crate::double::INFINITY,
    ensures
        ({
            let value = sample.longer_of(latency.config.min_rtt).in_seconds();
            let after = latency.observed(sample, now);
            &&& approaches(latency.short, value, after.short)
            &&& approaches(latency.long, value, after.long)
        }),
{
    let value = sample.longer_of(latency.config.min_rtt);
    lemma_finite_seconds(value);
    crate::precision::lemma_finite(latency.short);
    crate::precision::lemma_finite(latency.long);
    crate::precision::lemma_average(
        latency.short,
        value.in_seconds(),
        latency.config.short_alpha,
    );
    crate::precision::lemma_average(latency.long, value.in_seconds(), latency.config.long_alpha);
}

/// An RTT and when it was observed.
pub struct Sample {
    /// The RTT.
    pub rtt: Duration,
    /// When it was observed.
    pub at: Instant,
}

/// The estimates after all samples.
pub open spec fn observed_all(config: LatencyEstimatorConfig, samples: Seq<Sample>) -> Latency
    decreases samples.len(),
{
    if samples.len() == 0 {
        Latency::fresh(config)
    } else {
        observed_all(config, samples.drop_last()).observed(samples.last().rtt, samples.last().at)
    }
}

/// Whether samples were observed one after the other.
pub open spec fn ordered(samples: Seq<Sample>) -> bool {
    forall|i: int, j: int|
        0 <= i <= j < samples.len() ==> (#[trigger] samples[i]).at.nanos <= (
        #[trigger] samples[j]).at.nanos
}

/// What a sample counts as, in seconds.
pub open spec fn counted(config: LatencyEstimatorConfig, sample: Sample) -> Double {
    sample.rtt.longer_of(config.min_rtt).in_seconds()
}

/// The bucket that lies a number of steps behind the current one.
spec fn behind(current: int, j: int) -> int {
    (current + 8 - j) % 8
}

/// Whether a time falls into the bucket that lies a number of steps behind the
/// one that was started at `start`.
spec fn covers(start: int, width: int, j: int, at: int) -> bool {
    start - j * width <= at < start - j * width + width
}

/// Whether a bucket holds a value that is at most another.
spec fn at_most(bucket: Option<Double>, value: Double) -> bool {
    bucket matches Some(least) && least.bits <= value.bits
}

/// Whether every sample of the window is accounted for in its bucket.
spec fn complete(
    config: LatencyEstimatorConfig,
    samples: Seq<Sample>,
    buckets: Seq<Option<Double>>,
    current: int,
    start: int,
) -> bool {
    forall|k: int, j: int|
        0 <= k < samples.len() && 0 <= j < 8 && #[trigger] covers(
            start,
            config.bucket_nanos() as int,
            j,
            samples[k].at.nanos as int,
        ) ==> at_most(buckets[behind(current, j)], counted(config, samples[k]))
}

/// Whether what a bucket holds is a sample that is not older than the bucket.
spec fn sound(
    config: LatencyEstimatorConfig,
    samples: Seq<Sample>,
    buckets: Seq<Option<Double>>,
    current: int,
    start: int,
) -> bool {
    forall|j: int|
        0 <= j < 8 ==> (#[trigger] buckets[behind(current, j)] matches Some(least) ==> held(
            config,
            samples,
            least,
            start - j * config.bucket_nanos(),
        ))
}

/// Whether a value is that of a sample which is not older than a time.
spec fn held(
    config: LatencyEstimatorConfig,
    samples: Seq<Sample>,
    value: Double,
    since: int,
) -> bool {
    exists|k: int|
        0 <= k < samples.len() && #[trigger] counted(config, samples[k]) == value
            && samples[k].at.nanos >= since
}

/// What holds after some samples.
spec fn accounted(config: LatencyEstimatorConfig, samples: Seq<Sample>, latency: Latency) -> bool {
    &&& latency.config == config
    &&& latency.buckets.len() == 8
    &&& latency.bucket < 8
    &&& match latency.started {
        None => samples.len() == 0 && latency.buckets == Seq::new(8, |i: int| None::<Double>),
        Some(started) => {
            &&& samples.len() > 0
            &&& started.nanos <= samples.last().at.nanos < started.nanos + config.bucket_nanos()
            &&& complete(
                config,
                samples,
                latency.buckets,
                latency.bucket as int,
                started.nanos as int,
            )
            &&& sound(
                config,
                samples,
                latency.buckets,
                latency.bucket as int,
                started.nanos as int,
            )
        },
    }
}

/// Where buckets lie after the window has moved by some steps.
proof fn lemma_behind(current: int, steps: int, j: int)
    requires
        0 <= current < 8,
        0 <= steps < 8,
        0 <= j < 8,
    ensures
        ({
            let i = behind((current + steps) % 8, j);
            let ahead = (i + 8 - current) % 8;
            &&& 0 <= i < 8
            &&& j >= steps ==> i == behind(current, j - steps) && !(1 <= ahead <= steps)
            &&& j < steps ==> ahead == steps - j
        }),
{
    let c = if current + steps < 8 { current + steps } else { current + steps - 8 };
    assert((current + steps) % 8 == c);
    let i = if c < j { c + 8 - j } else { c - j };
    assert(behind(c, j) == i);
    if j >= steps {
        let old_j = j - steps;
        assert(behind(current, old_j) == if current < old_j { current + 8 - old_j } else { current
            - old_j });
    }
    assert((i + 8 - current) % 8 == if i < current { i + 8 - current } else { i - current });
}

/// Moving the window by less than its length.
proof fn lemma_shifted(
    config: LatencyEstimatorConfig,
    samples: Seq<Sample>,
    latency: Latency,
    now: Instant,
)
    requires
        config.valid(),
        config.baseline_window.nanos <= MAX_NANOS,
        accounted(config, samples, latency),
        ordered(samples),
        samples.len() > 0,
        samples.last().at.nanos <= now.nanos,
        latency.steps(now) < 8,
    ensures
        ({
            let moved = latency.advanced(now);
            &&& moved.started matches Some(started) && {
                &&& started.nanos <= now.nanos < started.nanos + config.bucket_nanos()
                &&& complete(
                    config,
                    samples,
                    moved.buckets,
                    moved.bucket as int,
                    started.nanos as int,
                )
                &&& sound(
                    config,
                    samples,
                    moved.buckets,
                    moved.bucket as int,
                    started.nanos as int,
                )
            }
        }),
{
    let w = config.bucket_nanos() as int;
    let moved = latency.advanced(now);
    let started = latency.started.unwrap();
    let s = started.nanos as int;
    let steps = latency.steps(now) as int;
    let elapsed = now.since(started).nanos as int;
    let shifted = s + w * steps;
    let current = latency.bucket as int;
    assert(w >= 1);
    vstd::arithmetic::div_mod::lemma_fundamental_div_mod(elapsed, w);
    vstd::arithmetic::div_mod::lemma_mod_bound(elapsed, w);
    assert(0 <= w * steps && w * steps <= w * 7) by (nonlinear_arith)
        requires
            0 <= steps <= 7,
            w >= 0,
    ;
    assert(elapsed == now.nanos - s);
    assert(moved.started.unwrap().nanos == shifted);
    assert forall|k: int, j: int|
        0 <= k < samples.len() && 0 <= j < 8 && #[trigger] covers(
            shifted,
            w,
            j,
            samples[k].at.nanos as int,
        ) implies at_most(
        moved.buckets[behind(moved.bucket as int, j)],
        counted(config, samples[k]),
    ) by {
        let old_j = j - steps;
        assert(samples[k].at.nanos <= samples[samples.len() - 1].at.nanos);
        assert(old_j * w == j * w - w * steps) by (nonlinear_arith)
            requires
                old_j == j - steps,
        ;
        assert(old_j >= 0) by {
            if old_j < 0 {
                assert(old_j * w <= -w) by (nonlinear_arith)
                    requires
                        old_j <= -1,
                        w >= 0,
                ;
            }
        }
        assert(covers(s, w, old_j, samples[k].at.nanos as int));
        lemma_behind(current, steps, j);
        assert(at_most(latency.buckets[behind(current, old_j)], counted(config, samples[k])));
    }
    assert forall|j: int| 0 <= j < 8 implies (#[trigger] moved.buckets[behind(
        moved.bucket as int,
        j,
    )] matches Some(least) ==> held(config, samples, least, shifted - j * w)) by {
        let old_j = j - steps;
        lemma_behind(current, steps, j);
        assert(old_j * w == j * w - w * steps) by (nonlinear_arith)
            requires
                old_j == j - steps,
        ;
        if old_j >= 0 {
            assert(latency.buckets[behind(current, old_j)] matches Some(least) ==> held(
                config,
                samples,
                least,
                s - old_j * w,
            ));
        }
    }
}

/// Moving the window keeps account of the samples that stay in it.
proof fn lemma_moved(
    config: LatencyEstimatorConfig,
    samples: Seq<Sample>,
    latency: Latency,
    now: Instant,
)
    requires
        config.valid(),
        config.baseline_window.nanos <= MAX_NANOS,
        accounted(config, samples, latency),
        ordered(samples),
        samples.len() > 0 ==> samples.last().at.nanos <= now.nanos,
    ensures
        ({
            let moved = latency.advanced(now);
            &&& moved.config == config
            &&& moved.buckets.len() == 8
            &&& moved.bucket < 8
            &&& moved.started matches Some(started) && {
                &&& started.nanos <= now.nanos < started.nanos + config.bucket_nanos()
                &&& complete(
                    config,
                    samples,
                    moved.buckets,
                    moved.bucket as int,
                    started.nanos as int,
                )
                &&& sound(
                    config,
                    samples,
                    moved.buckets,
                    moved.bucket as int,
                    started.nanos as int,
                )
            }
        }),
{
    let w = config.bucket_nanos() as int;
    let moved = latency.advanced(now);
    assert(w >= 1);
    if let Some(started) = latency.started {
        let s = started.nanos as int;
        let steps = latency.steps(now) as int;
        let elapsed = now.since(started).nanos as int;
        vstd::arithmetic::div_mod::lemma_fundamental_div_mod(elapsed, w);
        vstd::arithmetic::div_mod::lemma_mod_bound(elapsed, w);
        vstd::arithmetic::mul::lemma_mul_is_commutative(w, steps);
        if steps >= 8 {
            assert(8 * w <= steps * w) by (nonlinear_arith)
                requires
                    steps >= 8,
                    w >= 0,
            ;
            assert(now.nanos >= s + 8 * w);
            assert forall|k: int, j: int|
                0 <= k < samples.len() && 0 <= j < 8 && #[trigger] covers(
                    now.nanos as int,
                    w,
                    j,
                    samples[k].at.nanos as int,
                ) implies at_most(
                moved.buckets[behind(moved.bucket as int, j)],
                counted(config, samples[k]),
            ) by {
                assert(samples[k].at.nanos <= samples[samples.len() - 1].at.nanos);
                assert(j * w <= 7 * w) by (nonlinear_arith)
                    requires
                        j <= 7,
                        w >= 0,
                ;
            }
        } else {
            lemma_shifted(config, samples, latency, now);
        }
    }
}

/// Recording a sample keeps account of all.
proof fn lemma_recorded(
    config: LatencyEstimatorConfig,
    samples: Seq<Sample>,
    latency: Latency,
    sample: Sample,
)
    requires
        config.valid(),
        config.baseline_window.nanos <= MAX_NANOS,
        accounted(config, samples, latency),
        ordered(samples),
        samples.len() > 0 ==> samples.last().at.nanos <= sample.at.nanos,
    ensures
        accounted(config, samples.push(sample), latency.observed(sample.rtt, sample.at)),
{
    let now = sample.at;
    let w = config.bucket_nanos() as int;
    let all = samples.push(sample);
    let moved = latency.advanced(now);
    let after = latency.observed(sample.rtt, now);
    lemma_moved(config, samples, latency, now);
    let s = moved.started.unwrap().nanos as int;
    let current = moved.bucket as int;
    let value = counted(config, sample);
    assert(after.bucket == moved.bucket && after.started == moved.started);
    assert forall|j: int| 0 <= j < 8 implies (#[trigger] behind(current, j) == current <==> j
        == 0) by {}
    assert forall|k: int, j: int|
        0 <= k < all.len() && 0 <= j < 8 && #[trigger] covers(s, w, j, all[k].at.nanos as int)
        implies at_most(after.buckets[behind(current, j)], counted(config, all[k])) by {
        if k < samples.len() {
            assert(all[k] == samples[k]);
            assert(covers(s, w, j, samples[k].at.nanos as int));
        } else if j > 0 {
            assert(j * w >= w) by (nonlinear_arith)
                requires
                    j >= 1,
                    w >= 0,
            ;
        }
    }
    assert forall|j: int| 0 <= j < 8 implies (#[trigger] after.buckets[behind(current, j)]
        matches Some(least) ==> held(config, all, least, s - j * w)) by {
        let i = behind(current, j);
        if let Some(least) = after.buckets[i] {
            if moved.buckets[i] == Some(least) {
                assert(held(config, samples, least, s - j * w));
                let k = choose|k: int|
                    0 <= k < samples.len() && #[trigger] counted(config, samples[k]) == least
                        && samples[k].at.nanos >= s - j * w;
                assert(all[k] == samples[k]);
                assert(counted(config, all[k]) == least);
            } else {
                assert(j == 0 && least == value);
                assert(0 * w == 0) by (nonlinear_arith);
                assert(counted(config, all[samples.len() as int]) == value);
            }
        }
    }
}

proof fn lemma_accounted(config: LatencyEstimatorConfig, samples: Seq<Sample>)
    requires
        config.valid(),
        config.baseline_window.nanos <= MAX_NANOS,
        ordered(samples),
    ensures
        accounted(config, samples, observed_all(config, samples)),
    decreases samples.len(),
{
    if samples.len() > 0 {
        let rest = samples.drop_last();
        assert forall|i: int, j: int| 0 <= i <= j < rest.len() implies (
        #[trigger] rest[i]).at.nanos <= (#[trigger] rest[j]).at.nanos by {
            assert(samples[i].at.nanos <= samples[j].at.nanos);
        }
        lemma_accounted(config, rest);
        if rest.len() > 0 {
            assert(samples[rest.len() - 1].at.nanos <= samples[samples.len() - 1].at.nanos);
        }
        lemma_recorded(config, rest, observed_all(config, rest), samples.last());
        assert(rest.push(samples.last()) =~= samples);
    }
}

/// The lowest value is that of some bucket.
proof fn lemma_lowest_is_there(buckets: Seq<Option<Double>>)
    ensures
        crate::latency::lowest(buckets) matches Some(least) ==> exists|i: int|
            0 <= i < buckets.len() && #[trigger] buckets[i] == Some(least),
    decreases buckets.len(),
{
    if buckets.len() > 0 {
        let rest = buckets.drop_last();
        lemma_lowest_is_there(rest);
        if let Some(least) = crate::latency::lowest(rest) {
            let i = choose|i: int| 0 <= i < rest.len() && #[trigger] rest[i] == Some(least);
            assert(buckets[i] == Some(least));
        }
        assert(buckets[buckets.len() - 1] == buckets.last());
    }
}

/// The bucket that a time of the window falls into.
proof fn lemma_covering(start: int, w: int, now: int, t: int) -> (j: int)
    requires
        w >= 1,
        start <= now < start + w,
        t <= now < t + 7 * w,
    ensures
        0 <= j < 8,
        covers(start, w, j, t),
{
    if t >= start {
        assert(0 * w == 0) by (nonlinear_arith);
        0
    } else {
        let x = start - t + w - 1;
        let j = x / w;
        vstd::arithmetic::div_mod::lemma_fundamental_div_mod(x, w);
        vstd::arithmetic::div_mod::lemma_mod_bound(x, w);
        vstd::arithmetic::mul::lemma_mul_is_commutative(w, j);
        if j >= 8 {
            assert(j * w >= 8 * w) by (nonlinear_arith)
                requires
                    j >= 8,
                    w >= 0,
            ;
        }
        if j < 0 {
            assert(j * w <= -w) by (nonlinear_arith)
                requires
                    j <= -1,
                    w >= 0,
            ;
        }
        j
    }
}

/// The lowest bucket is at most every sample of the window.
proof fn lemma_lowest_covers(
    config: LatencyEstimatorConfig,
    samples: Seq<Sample>,
    latency: Latency,
    k: int,
)
    requires
        config.valid(),
        accounted(config, samples, latency),
        ordered(samples),
        0 <= k < samples.len(),
        samples[k].at.nanos + 7 * config.bucket_nanos() > samples.last().at.nanos,
    ensures
        at_most(crate::latency::lowest(latency.buckets), counted(config, samples[k])),
{
    let t = samples[k].at.nanos as int;
    let w = config.bucket_nanos() as int;
    let start = latency.started.unwrap().nanos as int;
    assert(t <= samples[samples.len() - 1].at.nanos);
    let j = lemma_covering(start, w, samples.last().at.nanos as int, t);
    let i = behind(latency.bucket as int, j);
    assert(at_most(latency.buckets[i], counted(config, samples[k])));
    crate::laws::lemma_lowest(latency.buckets, i);
}

/// The lowest bucket is a sample of the window.
proof fn lemma_lowest_held(
    config: LatencyEstimatorConfig,
    samples: Seq<Sample>,
    latency: Latency,
    lowest: Double,
) -> (k: int)
    requires
        config.valid(),
        accounted(config, samples, latency),
        samples.len() > 0,
        crate::latency::lowest(latency.buckets) == Some(lowest),
    ensures
        0 <= k < samples.len(),
        counted(config, samples[k]) == lowest,
        samples[k].at.nanos + 8 * config.bucket_nanos() > samples.last().at.nanos,
{
    let w = config.bucket_nanos() as int;
    let start = latency.started.unwrap().nanos as int;
    let current = latency.bucket as int;
    lemma_lowest_is_there(latency.buckets);
    let i = choose|i: int| 0 <= i < 8 && #[trigger] latency.buckets[i] == Some(lowest);
    let j = if current >= i { current - i } else { current + 8 - i };
    assert(behind(current, j) == i);
    assert(latency.buckets[behind(current, j)] == Some(lowest));
    assert(held(config, samples, lowest, start - j * w));
    assert(j * w <= 7 * w) by (nonlinear_arith)
        requires
            j <= 7,
            w >= 0,
    ;
    choose|k: int|
        0 <= k < samples.len() && #[trigger] counted(config, samples[k]) == lowest
            && samples[k].at.nanos >= start - j * w
}

/// The baseline is a rolling minimum: of samples that were observed one after
/// the other, it is the smallest of a set that has every one which is younger
/// than seven buckets, and none which is as old as the window of eight. In a
/// window of a multiple of eight nanoseconds, the seven buckets are seven
/// eighths of it. The initial estimate is never in the set.
pub proof fn law_baseline_is_a_rolling_minimum(
    config: LatencyEstimatorConfig,
    samples: Seq<Sample>,
)
    requires
        config.valid(),
        config.baseline_window.nanos <= MAX_NANOS,
        ordered(samples),
        samples.len() > 0,
    ensures
        ({
            let now = samples.last().at.nanos;
            let width = config.bucket_nanos();
            let window = config.baseline_window.nanos;
            let least = config.min_rtt.in_seconds();
            let baseline = observed_all(config, samples).baseline;
            &&& baseline is Some
            &&& forall|k: int|
                0 <= k < samples.len() && (#[trigger] samples[k]).at.nanos + 7 * width > now
                    ==> baseline.unwrap().bits <= counted(config, samples[k]).greater(least).bits
            &&& exists|k: int|
                0 <= k < samples.len() && (#[trigger] samples[k]).at.nanos + 8 * width > now
                    && baseline == Some(counted(config, samples[k]).greater(least))
            &&& 8 * width <= window < 8 * width + 8
            &&& window % 8 == 0 ==> 8 * (7 * width) == 7 * window
        }),
{
    let now = samples.last().at.nanos as int;
    let w = config.bucket_nanos() as int;
    let least = config.min_rtt.in_seconds();
    let latency = observed_all(config, samples);
    lemma_accounted(config, samples);
    lemma_baseline(config, samples);
    let last = samples.len() - 1;
    lemma_lowest_covers(config, samples, latency, last);
    let lowest = crate::latency::lowest(latency.buckets).unwrap();
    assert forall|k: int|
        0 <= k < samples.len() && (#[trigger] samples[k]).at.nanos + 7 * w > now implies lowest.greater(
        least,
    ).bits <= counted(config, samples[k]).greater(least).bits by {
        lemma_lowest_covers(config, samples, latency, k);
    }
    let k = lemma_lowest_held(config, samples, latency, lowest);
    assert(samples[k].at.nanos + 8 * w > now);
}

/// The baseline is the lowest bucket, at least the smallest RTT accepted.
proof fn lemma_baseline(config: LatencyEstimatorConfig, samples: Seq<Sample>)
    requires
        samples.len() > 0,
        observed_all(config, samples).config == config,
    ensures
        observed_all(config, samples).baseline == (match crate::latency::lowest(
            observed_all(config, samples).buckets,
        ) {
            Some(least) => Some(least.greater(config.min_rtt.in_seconds())),
            None => None,
        }),
{
}

/// Every sample is counted.
pub proof fn law_samples_are_counted(config: LatencyEstimatorConfig, samples: Seq<Sample>)
    requires
        samples.len() <= u64::MAX,
    ensures
        observed_all(config, samples).samples == samples.len(),
    decreases samples.len(),
{
    if samples.len() > 0 {
        law_samples_are_counted(config, samples.drop_last());
    }
}

} // verus!
