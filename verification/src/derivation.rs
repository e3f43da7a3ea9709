//! What the parameters of a controller are, given the workload that it expects.
//!
//! Applications state an RTT and a concurrency. The laws say in numbers what
//! follows from them.

use crate::controller::{EndpointConfig, LONG_RTT_HALF_LIVES, SHORT_RTT_HALF_LIVES};
use crate::double::{nearest, Double, LEADING, ONE};
use crate::learning::{apart, unity};
use crate::probe::ProbeSchedule;
use crate::routing::{maximum, minimum};
use crate::time::MAX_NANOS;
use vstd::arithmetic::power2::*;
use vstd::prelude::*;

verus! {

/// Whether a number is `part` of `whole` parts of one, to the nearest double.
pub open spec fn part_of_one(number: Double, part: int, whole: int) -> bool {
    apart(
        0x20_0000_0000_0000 * (whole * number.units()),
        0x20_0000_0000_0000 * (part * unity()),
        part * unity(),
    )
}

/// The number that a field and a mantissa encode.
proof fn lemma_literal(number: Double, scale: nat, mantissa: nat, below: nat)
    requires
        number.bits == scale * LEADING + mantissa,
        LEADING <= mantissa < 2 * LEADING,
        scale + below == 1074,
    ensures
        number.units() * pow2(below) == mantissa * unity(),
{
    vstd::arithmetic::div_mod::lemma_fundamental_div_mod_converse(
        number.bits as int,
        LEADING as int,
        (scale + 1) as int,
        mantissa - LEADING,
    );
    assert(number.scale() == scale);
    assert(number.mantissa() == mantissa);
    lemma_pow2_adds(scale, below);
    assert((mantissa * pow2(scale)) * pow2(below) == mantissa * (pow2(scale) * pow2(below)))
        by (nonlinear_arith);
}

/// The estimator starts from the expected RTT, accepts samples down to a
/// microsecond or that RTT, and keeps its baseline for a minute or for 1200 such
/// RTTs, whichever is longer.
pub proof fn law_estimates_start_from_the_workload(config: EndpointConfig)
    ensures
        ({
            let tuning = config.latency_tuning();
            let rtt = config.expected_rtt.nanos as int;
            &&& tuning.initial_rtt.nanos == rtt
            &&& tuning.min_rtt.nanos == minimum(1_000, rtt)
            &&& tuning.baseline_window.nanos == maximum(
                60_000_000_000,
                minimum(1_200 * rtt, MAX_NANOS as int),
            )
        }),
{
}

/// Twice and twenty times a whole number are exact.
proof fn lemma_multiple(n: nat, factor: nat, bits: u64)
    requires
        n < 0x1_0000_0000_0000,
        factor <= 20,
        (Double { bits }).units() == factor * unity(),
    ensures
        Double::whole(n).product(Double { bits }) == Double::whole(factor * n),
{
    let p = pow2(1074);
    lemma_pow2_pos(1074);
    crate::precision::lemma_whole_exact(n);
    let a = (n * p) * (factor * p);
    let c = (factor * n) * p;
    assert(a * 1 == c * p) by (nonlinear_arith)
        requires
            a == (n * p) * (factor * p),
            c == (factor * n) * p,
    ;
    assert(Double::whole(n).units() * (Double { bits }).units() == a);
    crate::double::lemma_monotone(a, p, c, 1);
    crate::double::lemma_monotone(c, 1, a, p);
}

/// The encodings of two and twenty stand for these numbers.
proof fn lemma_half_lives()
    ensures
        (Double { bits: SHORT_RTT_HALF_LIVES }).units() == 2 * unity(),
        (Double { bits: LONG_RTT_HALF_LIVES }).units() == 20 * unity(),
{
    lemma2_to64();
    lemma2_to64_rest();
    let short = Double { bits: SHORT_RTT_HALF_LIVES };
    let long = Double { bits: LONG_RTT_HALF_LIVES };
    lemma_literal(short, 1023, LEADING as nat, 51);
    lemma_literal(long, 1026, 0x14_0000_0000_0000, 48);
    assert(short.units() * 0x8_0000_0000_0000 == LEADING * unity());
    assert(0x8_0000_0000_0000 * short.units() == 0x10_0000_0000_0000 * unity());
    assert(long.units() * 0x1_0000_0000_0000 == 0x14_0000_0000_0000 * unity());
}

/// An average forgets by halves. With one sample per request of an RTT, the
/// short one halves the weight of what it holds every two RTTs and the long one
/// every twenty: what a sample weighs and the root of one half with that many
/// samples add up to one.
pub proof fn law_averages_have_half_lives(config: EndpointConfig)
    requires
        0 < config.initial_concurrency < 0x1_0000_0000_0000,
    ensures
        ({
            let tuning = config.latency_tuning();
            let one = Double { bits: ONE };
            let c = config.initial_concurrency as nat;
            let short = one.quotient(Double::whole(2 * c)).halved().units() as int;
            let long = one.quotient(Double::whole(20 * c)).halved().units() as int;
            &&& short <= unity() && long <= unity()
            &&& apart(
                0x20_0000_0000_0000 * (tuning.short_alpha.units() + short),
                0x20_0000_0000_0000 * unity(),
                unity(),
            )
            &&& apart(
                0x20_0000_0000_0000 * (tuning.long_alpha.units() + long),
                0x20_0000_0000_0000 * unity(),
                unity(),
            )
            &&& tuning.long_alpha.bits <= tuning.short_alpha.bits
        }),
{
    let one = Double { bits: ONE };
    let c = config.initial_concurrency as nat;
    let tuning = config.latency_tuning();
    lemma_half_lives();
    lemma_multiple(c, 2, SHORT_RTT_HALF_LIVES);
    lemma_multiple(c, 20, LONG_RTT_HALF_LIVES);
    crate::double::lemma_one();
    let short = one.quotient(Double::whole(2 * c)).halved();
    let long = one.quotient(Double::whole(20 * c)).halved();
    crate::double::lemma_halved_at_most(one.quotient(Double::whole(2 * c)));
    crate::double::lemma_halved_at_most(one.quotient(Double::whole(20 * c)));
    lemma_weight(short);
    lemma_weight(long);
    // More samples in a half-life weigh less each.
    crate::double::lemma_whole_positive(2 * c);
    crate::double::lemma_whole_monotone(2 * c, 20 * c);
    let (a, b) = (Double::whole(2 * c), Double::whole(20 * c));
    crate::double::lemma_order(a, b);
    crate::double::lemma_order(Double { bits: 0 }, a);
    let num = one.units() * pow2(1074);
    assert(num * a.units() <= num * b.units()) by (nonlinear_arith)
        requires
            a.units() <= b.units(),
            num >= 0,
    ;
    crate::double::lemma_monotone(num, b.units(), num, a.units());
    crate::powers::law_halving_falls(one.quotient(b), one.quotient(a));
    crate::double::lemma_order(short, long);
    assert(short.units() <= long.units());
    crate::double::lemma_monotone(
        (one.units() - long.units()) as nat,
        1,
        (one.units() - short.units()) as nat,
        1,
    );
}

/// One without a power of one half, to the nearest double.
proof fn lemma_weight(power: Double)
    requires
        power.bits <= ONE,
    ensures
        power.units() <= unity(),
        (Double { bits: ONE }).difference(power) == nearest((unity() - power.units()) as nat, 1),
        apart(
            0x20_0000_0000_0000 * ((Double { bits: ONE }).difference(power).units()
                + power.units()) as int,
            0x20_0000_0000_0000 * unity(),
            unity(),
        ),
{
    let one = Double { bits: ONE };
    crate::double::lemma_one();
    crate::double::lemma_order(power, one);
    let left = (one.units() - power.units()) as nat;
    lemma_pow2_strictly_increases(1074, 4000);
    crate::precision::lemma_rounding_units(left);
}

/// The operating point starts at the expected concurrency and stays between a
/// quarter and the emergency cap. It may move every two expected RTTs, by a
/// tenth of a request, a fifth of the way, and after a failure to seven tenths.
pub proof fn law_steering_follows_the_workload(config: EndpointConfig)
    requires
        config.initial_concurrency < 0x20_0000_0000_0000,
        config.max_inflight < 0x20_0000_0000_0000,
    ensures
        ({
            let tuning = config.gradient_tuning();
            &&& tuning.initial_concurrency.units() == config.initial_concurrency * unity()
            &&& tuning.max_concurrency.units() == config.max_inflight * unity()
            &&& 4 * tuning.min_concurrency.units() == unity()
            &&& tuning.queue_tolerance == config.queue_tolerance
            &&& tuning.update_interval.nanos == minimum(
                2 * config.expected_rtt.nanos,
                MAX_NANOS as int,
            )
            &&& part_of_one(tuning.gain, 1, 10)
            &&& part_of_one(tuning.smoothing, 1, 5)
            &&& part_of_one(tuning.failure_factor, 7, 10)
        }),
{
    let tuning = config.gradient_tuning();
    lemma2_to64();
    lemma2_to64_rest();
    crate::precision::lemma_whole_exact(config.initial_concurrency as nat);
    crate::precision::lemma_whole_exact(config.max_inflight as nat);
    lemma_literal(tuning.min_concurrency, 1020, LEADING as nat, 54);
    assert(0x40_0000_0000_0000 * tuning.min_concurrency.units() == 0x10_0000_0000_0000
        * unity());
    lemma_tenth(tuning.gain);
    lemma_literal(tuning.smoothing, 1019, 0x19_9999_9999_999A, 55);
    assert(0x80_0000_0000_0000 * tuning.smoothing.units() == 0x19_9999_9999_999A * unity());
    lemma_literal(tuning.failure_factor, 1021, 0x16_6666_6666_6666, 53);
    assert(0x20_0000_0000_0000 * tuning.failure_factor.units() == 0x16_6666_6666_6666 * unity());
}

proof fn lemma_tenth(number: Double)
    requires
        number.bits == 0x3FB9_9999_9999_999A,
    ensures
        part_of_one(number, 1, 10),
{
    lemma2_to64_rest();
    lemma_literal(number, 1018, 0x19_9999_9999_999A, 56);
    assert(0x100_0000_0000_0000 * number.units() == 0x19_9999_9999_999A * unity());
}

/// By default one decision in ten adds twenty requests per second for a second,
/// one in twenty lowers the rate to four fifths, and decisions are one to five
/// seconds apart.
pub proof fn law_default_probes_are_rare()
    ensures
        ({
            let usual = ProbeSchedule::usual();
            &&& part_of_one(usual.positive_probability, 1, 10)
            &&& part_of_one(usual.negative_probability, 1, 20)
            &&& usual.positive_rate_delta.units() == 20 * unity()
            &&& part_of_one(usual.negative_factor, 4, 5)
            &&& usual.duration.nanos == 1_000_000_000
            &&& usual.min_interval.nanos == 1_000_000_000
            &&& usual.max_interval.nanos == 5_000_000_000
        }),
{
    let usual = ProbeSchedule::usual();
    lemma2_to64();
    lemma2_to64_rest();
    lemma_tenth(usual.positive_probability);
    lemma_literal(usual.negative_probability, 1017, 0x19_9999_9999_999A, 57);
    assert(0x200_0000_0000_0000 * usual.negative_probability.units() == 0x19_9999_9999_999A
        * unity());
    lemma_half_lives();
    lemma_literal(usual.negative_factor, 1021, 0x19_9999_9999_999A, 53);
    assert(0x20_0000_0000_0000 * usual.negative_factor.units() == 0x19_9999_9999_999A * unity());
}

/// An estimator takes weights above zero and up to one, a smallest RTT above zero
/// and up to the initial one, and a window with room for its eight buckets.
pub proof fn law_estimator_parameters_are_bounded(config: crate::latency::LatencyEstimatorConfig)
    ensures
        config.valid() <==> {
            &&& 0 < config.min_rtt.nanos <= config.initial_rtt.nanos
            &&& 0 < config.short_alpha.units() <= unity()
            &&& 0 < config.long_alpha.units() <= unity()
            &&& 8 <= config.baseline_window.nanos
        },
{
    lemma_zero_and_one(config.short_alpha);
    lemma_zero_and_one(config.long_alpha);
}

/// Where a number lies between zero and one shows in its encoding.
proof fn lemma_zero_and_one(number: Double)
    ensures
        number.bits > 0 <==> number.units() > 0,
        number.bits <= ONE <==> number.units() <= unity(),
        number.bits < ONE <==> number.units() < unity(),
{
    crate::double::lemma_one();
    crate::double::lemma_order(Double { bits: 0 }, number);
    crate::double::lemma_order(number, Double { bits: ONE });
    assert(0 * pow2(0) == 0) by (nonlinear_arith);
    assert((Double { bits: 0 }).units() == 0);
}

/// The bound of finite numbers, two to the power 1024, in units.
pub open spec fn unbounded() -> int {
    pow2(2098) as int
}

proof fn lemma_infinity(number: Double)
    ensures
        number.bits < crate::double::INFINITY <==> number.units() < unbounded(),
{
    crate::double::lemma_power(2047);
    crate::double::lemma_order(number, Double { bits: crate::double::INFINITY });
}

/// An operating point takes bounds above zero with the initial value between
/// them, a gain above zero, a smoothing and a failure factor above zero and up to
/// one, and an update interval above zero. All numbers are finite.
pub proof fn law_steering_parameters_are_bounded(config: crate::gradient::Gradient2Config)
    ensures
        config.valid() <==> {
            &&& 0 < config.min_concurrency.units() <= config.initial_concurrency.units()
            &&& config.initial_concurrency.units() <= config.max_concurrency.units()
                < unbounded()
            &&& 0 < config.gain.units() < unbounded()
            &&& 0 < config.smoothing.units() <= unity()
            &&& 0 < config.failure_factor.units() <= unity()
            &&& 0 < config.update_interval.nanos
        },
{
    lemma_zero_and_one(config.min_concurrency);
    lemma_zero_and_one(config.gain);
    lemma_zero_and_one(config.smoothing);
    lemma_zero_and_one(config.failure_factor);
    lemma_infinity(config.max_concurrency);
    lemma_infinity(config.gain);
    crate::double::lemma_order(config.min_concurrency, config.initial_concurrency);
    crate::double::lemma_order(config.initial_concurrency, config.max_concurrency);
}

/// Probing takes finite probabilities whose sum is at most one, a finite rate
/// above zero, a factor above zero and below one, a duration above zero, and
/// ordered intervals above zero.
pub proof fn law_probe_parameters_are_bounded(schedule: ProbeSchedule)
    ensures
        schedule.valid() <==> {
            &&& schedule.positive_probability.units() < unbounded()
            &&& schedule.negative_probability.units() < unbounded()
            &&& schedule.positive_probability.sum(schedule.negative_probability).units()
                <= unity()
            &&& 0 < schedule.positive_rate_delta.units() < unbounded()
            &&& 0 < schedule.negative_factor.units() < unity()
            &&& 0 < schedule.duration.nanos
            &&& 0 < schedule.min_interval.nanos <= schedule.max_interval.nanos
        },
{
    lemma_infinity(schedule.positive_probability);
    lemma_infinity(schedule.negative_probability);
    lemma_zero_and_one(schedule.positive_probability.sum(schedule.negative_probability));
    lemma_zero_and_one(schedule.positive_rate_delta);
    lemma_infinity(schedule.positive_rate_delta);
    lemma_zero_and_one(schedule.negative_factor);
}

/// A workload is accepted where its RTT, its concurrency and its queue are above
/// zero, its concurrency is within the emergency cap, and its averages give a
/// sample some weight.
pub proof fn law_workloads_are_bounded(config: EndpointConfig)
    ensures
        config.valid() <==> {
            &&& 0 < config.expected_rtt.nanos
            &&& 0 < config.initial_concurrency <= config.max_inflight
            &&& 0 < config.queue_capacity
            &&& 0 < config.latency_tuning().short_alpha.units()
            &&& 0 < config.latency_tuning().long_alpha.units()
        },
{
    lemma_zero_and_one(config.latency_tuning().short_alpha);
    lemma_zero_and_one(config.latency_tuning().long_alpha);
}

/// A rate can be paced where its interval is below two to the power 64 seconds:
/// rates from one request in two to the power 63 seconds on can be, and those of
/// one in two to the power 64 seconds and below cannot.
pub proof fn law_slow_rates_cannot_be_paced(rate: Double)
    requires
        0 < rate.bits < crate::double::INFINITY,
    ensures
        rate.units() * pow2(63) >= unity() ==> crate::gcra::representable(rate),
        rate.units() * pow2(64) <= unity() ==> !crate::gcra::representable(rate),
{
    let p = pow2(1074);
    let r = rate.units();
    let one = Double { bits: ONE };
    crate::double::lemma_one();
    lemma_zero_and_one(rate);
    lemma_pow2_pos(1074);
    lemma_pow2_adds(63, 1074);
    lemma_pow2_adds(64, 1074);
    crate::double::lemma_power(1086);
    crate::double::lemma_power(1087);
    let below = Double { bits: (1086 * LEADING) as u64 };
    let limit = Double { bits: (1087 * LEADING) as u64 };
    crate::double::lemma_itself(below, 1);
    crate::double::lemma_itself(limit, 1);
    if r * pow2(63) >= p {
        assert((p * p) * 1 <= (pow2(63) * p) * r) by (nonlinear_arith)
            requires
                r * pow2(63) >= p,
                p > 0,
        ;
        crate::double::lemma_monotone(p * p, r, below.units() * 1, 1);
    }
    if r * pow2(64) <= p {
        assert((pow2(64) * p) * r <= (p * p) * 1) by (nonlinear_arith)
            requires
                r * pow2(64) <= p,
                p > 0,
        ;
        crate::double::lemma_monotone(limit.units() * 1, 1, p * p, r);
    }
}

/// A controller takes all of its parameters from the workload, and probes by
/// default.
pub proof fn law_controllers_are_tuned_to_the_workload(config: EndpointConfig)
    ensures
        config.tuned().latency == config.latency_tuning(),
        config.tuned().gradient == config.gradient_tuning(),
        config.tuned().probe_schedule == ProbeSchedule::usual(),
{
}

} // verus!
