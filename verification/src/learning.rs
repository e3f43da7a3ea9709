//! What an endpoint learns from responses, and what it does with it.
//!
//! The laws say of every computed number how far it is from the exact one:
//! averages move by their weight, rates are concurrency over latency, intervals
//! are the reciprocal of rates, and the operating point follows the gradient.

use crate::controller::Endpoint;
use crate::double::{Double, INFINITY, ONE};
use crate::latency::{averaged, Latency};
use crate::routing::maximum;
use crate::time::{Duration, Instant, MAX_NANOS};
use vstd::arithmetic::mul::*;
use vstd::arithmetic::power2::*;
use vstd::prelude::*;

verus! {

/// One, as units of the smallest number.
pub open spec fn unity() -> int {
    pow2(1074) as int
}

/// Whether two quantities are at most `most` apart.
pub open spec fn apart(a: int, b: int, most: int) -> bool {
    -most <= a - b <= most
}

/// The bound of finite numbers.
proof fn lemma_products_fit(a: nat, b: nat)
    requires
        a < pow2(1990),
        b < pow2(1990),
    ensures
        a * b < pow2(4000),
{
    lemma_pow2_adds(1990, 1990);
    lemma_pow2_strictly_increases(3980, 4000);
    assert(a * b <= pow2(1990) * pow2(1990)) by (nonlinear_arith)
        requires
            a < pow2(1990),
            b < pow2(1990),
    ;
}

proof fn lemma_one_fits()
    ensures
        pow2(1074) < pow2(1990),
        pow2(1990) < pow2(4000),
        pow2(1074) > 0,
{
    lemma_pow2_pos(1074);
    lemma_pow2_strictly_increases(1074, 1990);
    lemma_pow2_strictly_increases(1990, 4000);
}

/// An average moves by its weight: the new one is the old one plus the weight
/// times the distance of the sample, up to one part in two to the power 50 of
/// the larger of the two and half of the smallest number.
pub proof fn law_averages_move_by_their_weight(previous: Double, sample: Double, alpha: Double)
    requires
        alpha.bits <= ONE,
        previous.units() < pow2(1990),
        sample.units() < pow2(1990),
    ensures
        ({
            let (o, v, w) = (previous.units() as int, sample.units() as int, alpha.units() as int);
            let exact = unity() * o + w * (v - o);
            let computed = unity() * averaged(previous, sample, alpha).units();
            apart(
                0x4_0000_0000_0000 * computed,
                0x4_0000_0000_0000 * exact,
                unity() * maximum(o, v) + 0x2_0000_0000_0000 * unity(),
            )
        }),
{
    let p = unity();
    let (o, v, w) = (previous.units() as int, sample.units() as int, alpha.units() as int);
    lemma_one_fits();
    crate::double::lemma_one();
    crate::double::lemma_order(alpha, Double { bits: ONE });
    crate::double::lemma_order(previous, sample);
    let up = sample.bits >= previous.bits;
    let d = if up { (v - o) as nat } else { (o - v) as nat };
    let gap = crate::double::nearest(d, 1);
    let share = alpha.product(gap);
    let e = gap.units() as int;
    let s = share.units() as int;
    crate::precision::lemma_rounding_units(d);
    lemma_mul_is_commutative(w, e);
    crate::double::lemma_product_at_most(gap, alpha);
    crate::double::lemma_order(share, gap);
    assert(e < pow2(1990)) by {
        crate::double::lemma_order(gap, previous);
        crate::double::lemma_order(gap, sample);
        if up {
            crate::double::lemma_difference_at_most(sample, previous);
        } else {
            crate::double::lemma_difference_at_most(previous, sample);
        }
    }
    lemma_products_fit(alpha.units(), gap.units());
    crate::precision::lemma_rounding_any(alpha.units() * gap.units(), pow2(1074));
    let n = if up { o + s } else { o - s };
    assert(0 <= n) by {
        if !up {
            crate::double::lemma_difference_at_most(previous, sample);
            crate::double::lemma_order(gap, previous);
        }
    }
    lemma_pow2_unfold(1991);
    lemma_pow2_strictly_increases(1991, 4000);
    crate::precision::lemma_rounding_units(n as nat);
    let r = averaged(previous, sample, alpha).units() as int;
    let c = 0x20_0000_0000_0000int;
    assert(apart(c * r, c * n, n));
    let big = maximum(o, v);
    // p r - (p o + w (v - o)) == p (r - n) + (p s - w e) + w (e - d), or with
    // signs turned.
    assert(apart(c * (p * r), c * (p * n), p * n)) by (nonlinear_arith)
        requires
            -n <= c * r - c * n <= n,
            p >= 0,
    ;
    let we = w * e;
    let wd = w * (d as int);
    assert(apart(c * we, c * wd, p * (d as int))) by (nonlinear_arith)
        requires
            -(d as int) <= c * e - c * (d as int) <= d as int,
            0 <= w <= p,
            we == w * e,
            wd == w * (d as int),
    ;
    assert(we <= p * e) by (nonlinear_arith)
        requires
            0 <= w <= p,
            e >= 0,
            we == w * e,
    ;
    let ps = s * p;
    assert(-(we + 0x10_0000_0000_0000 * p) <= c * (ps - we) <= we + 0x10_0000_0000_0000 * p);
    assert(p * n == if up { p * o + ps } else { p * o - ps }) by (nonlinear_arith)
        requires
            n == if up { o + s } else { o - s },
            ps == s * p,
    ;
    assert(w * (v - o) == if up { wd } else { -wd }) by (nonlinear_arith)
        requires
            wd == w * (d as int),
            d == if up { v - o } else { o - v },
    ;
    assert(p * n <= 3 * (p * big) && p * e <= 2 * (p * big) && p * (d as int) <= p * big)
        by (nonlinear_arith)
        requires
            n <= 3 * big,
            e <= 2 * big,
            d <= big,
            p >= 0,
    ;
}

/// Both estimates learn from every sample, each with its own weight; samples
/// below the smallest accepted RTT count as that.
pub proof fn law_estimates_learn_from_samples(latency: Latency, sample: Duration, now: Instant)
    ensures
        ({
            let after = latency.observed(sample, now);
            let value = if sample.nanos >= latency.config.min_rtt.nanos {
                sample
            } else {
                latency.config.min_rtt
            };
            &&& after.short == averaged(
                latency.short,
                value.in_seconds(),
                latency.config.short_alpha,
            )
            &&& after.long == averaged(latency.long, value.in_seconds(), latency.config.long_alpha)
            &&& after.config == latency.config
            &&& latency.samples < u64::MAX ==> after.samples == latency.samples + 1
        }),
{
}

/// Little's Law: the base rate times the expected RTT is the target concurrency,
/// up to rounding.
pub proof fn law_base_rate_is_concurrency_over_rtt(endpoint: Endpoint, now: Instant)
    requires
        endpoint.wf(),
    ensures
        ({
            let snapshot = endpoint.pictured(now);
            let rate = snapshot.base_rate.units() as int;
            let rtt = snapshot.expected_rtt.in_seconds().units() as int;
            let exact = snapshot.target_concurrency.units() * unity();
            apart(
                0x20_0000_0000_0000 * (rate * rtt),
                0x20_0000_0000_0000 * exact,
                exact + 0x10_0000_0000_0000 * rtt,
            )
        }),
        endpoint.pictured(now).target_concurrency == endpoint.gradient.concurrency,
{
    let c = endpoint.gradient.concurrency;
    let rtt = endpoint.latency.expected_rtt();
    lemma_expected_rtt_positive(endpoint.latency);
    crate::time::lemma_seconds(rtt);
    let seconds = rtt.in_seconds();
    crate::double::lemma_order(Double { bits: 0 }, seconds);
    lemma_one_fits();
    lemma_finite_fits(c);
    assert(c.units() * pow2(1074) < pow2(4000)) by {
        lemma_pow2_adds(2100, 1074);
        lemma_pow2_strictly_increases(3174, 4000);
        lemma_mul_inequality(c.units() as int, pow2(2100) as int, pow2(1074) as int);
    }
    assert(seconds.units() > 0) by {
        assert(0 * pow2(0) == 0) by (nonlinear_arith);
        assert((Double { bits: 0 }).units() == 0);
    }
    crate::precision::lemma_rounding_any(c.units() * pow2(1074), seconds.units());
}

proof fn lemma_finite_fits(a: Double)
    requires
        a.bits < INFINITY,
    ensures
        a.units() < pow2(2100),
{
    crate::double::lemma_parts(a);
    let (m, k) = (a.mantissa(), a.scale());
    lemma2_to64_rest();
    lemma_pow2_pos(k);
    lemma_pow2_adds(53, k);
    lemma_pow2_strictly_increases(53 + k, 2100);
    lemma_mul_inequality(m as int, pow2(53) as int, pow2(k) as int);
}

/// The expected RTT is never nothing.
proof fn lemma_expected_rtt_positive(latency: Latency)
    requires
        latency.config.valid(),
    ensures
        latency.expected_rtt().nanos > 0,
{
    let least = latency.config.min_rtt.in_seconds();
    let nanosecond = Duration { nanos: 1 };
    crate::precision::lemma_seconds_monotone(nanosecond, latency.config.min_rtt);
    crate::precision::lemma_of_seconds_monotone(
        nanosecond.in_seconds(),
        latency.long.greater(least),
    );
    crate::samples::law_seconds_are_read_back(nanosecond);
}

/// Intervals are the reciprocal of rates: an interval times its rate is one
/// second, up to one nanosecond and one part in two to the power 51. Intervals
/// are at least a nanosecond and at most the longest duration.
pub proof fn law_intervals_are_reciprocals(rate: Double)
    requires
        0 < rate.bits < INFINITY,
    ensures
        ({
            let interval = crate::gcra::spacing(rate).nanos;
            &&& 1 <= interval <= MAX_NANOS
            &&& interval > 1 ==> 0x8_0000_0000_0000 * (interval * rate.units())
                <= 0x8_0000_0000_0000 * (1_000_000_000 * unity()) + (0x8_0000_0000_0000
                * rate.units() + 1_000_000_000 * unity())
            &&& interval < MAX_NANOS ==> 0x8_0000_0000_0000 * (interval * rate.units())
                >= 0x8_0000_0000_0000 * (1_000_000_000 * unity()) - (0x8_0000_0000_0000
                * rate.units() + 1_000_000_000 * unity())
        }),
{
    let p = unity();
    let one = Double { bits: ONE };
    let q = one.quotient(rate);
    let (u, r) = (q.units() as int, rate.units() as int);
    lemma_one_fits();
    crate::double::lemma_one();
    crate::double::lemma_order(Double { bits: 0 }, rate);
    assert(r > 0) by {
        assert(0 * pow2(0) == 0) by (nonlinear_arith);
        assert((Double { bits: 0 }).units() == 0);
    }
    lemma_products_fit(pow2(1074), pow2(1074));
    crate::precision::lemma_rounding_any(pow2(1074) * pow2(1074), rate.units());
    crate::precision::lemma_rounded(q.units() * 1_000_000_000, pow2(1074));
    let exact = crate::double::rounded(q.units() * 1_000_000_000, pow2(1074)) as int;
    let n = crate::gcra::spacing(rate).nanos as int;
    let pp = p * p;
    let ur = u * r;
    let c = 0x20_0000_0000_0000int;
    let b = 1_000_000_000int;
    assert(-(pp + 0x10_0000_0000_0000 * r) <= c * (ur - pp) <= pp + 0x10_0000_0000_0000 * r);
    lemma2_to64();
    lemma2_to64_rest();
    lemma_pow2_adds(60, 1014);
    lemma_pow2_pos(1014);
    assert(p >= 0x1000_0000_0000_0000) by (nonlinear_arith)
        requires
            p == pow2(60) * pow2(1014),
            pow2(60) == 0x1000_0000_0000_0000,
            pow2(1014) >= 1,
    ;
    let small = b * (0x10_0000_0000_0000 * r);
    assert(small <= 0x40_0000 * (p * r)) by (nonlinear_arith)
        requires
            small == b * (0x10_0000_0000_0000 * r),
            b == 1_000_000_000,
            p >= 0x1000_0000_0000_0000,
            r >= 0,
    ;
    // n r p - b p p == r (n p - b u) + b (u r - p p).
    let np = n * p;
    let first = r * (np - u * b);
    let second = b * (ur - pp);
    assert((n * r - b * p) * p == first + second) by (nonlinear_arith)
        requires
            first == r * (np - u * b),
            second == b * (ur - pp),
            np == n * p,
            ur == u * r,
            pp == p * p,
    ;
    assert(r * p == p * r) by (nonlinear_arith);
    assert(-(b * pp + small) <= c * second <= b * pp + small) by (nonlinear_arith)
        requires
            -(pp + 0x10_0000_0000_0000 * r) <= c * (ur - pp) <= pp + 0x10_0000_0000_0000 * r,
            second == b * (ur - pp),
            small == b * (0x10_0000_0000_0000 * r),
            b == 1_000_000_000,
    ;
    let h = 0x8_0000_0000_0000int;
    let gap = n * r - b * p;
    let most = h * r + b * p;
    assert(most * p == h * (p * r) + b * pp) by (nonlinear_arith)
        requires
            most == h * r + b * p,
            pp == p * p,
    ;
    assert(-(b * pp + small) <= 0x20_0000_0000_0000 * second <= b * pp + small);
    assert(gap * p == first + second);
    assert(most * p == 0x8_0000_0000_0000 * (p * r) + b * pp);
    assert(b * pp >= 0 && p * r >= 0) by (nonlinear_arith)
        requires
            b == 1_000_000_000,
            pp == p * p,
            p >= 0,
            r >= 0,
    ;
    assert(h * (gap * p) == (h * gap) * p) by (nonlinear_arith);
    assert(h * (n * r) - h * (b * p) == h * gap) by (nonlinear_arith)
        requires
            gap == n * r - b * p,
    ;
    if n > 1 {
        assert(np <= exact * p) by (nonlinear_arith)
            requires
                np == n * p,
                n <= exact,
                p > 0,
        ;
        assert(2 * first <= r * p) by (nonlinear_arith)
            requires
                2 * (np - u * b) <= p,
                first == r * (np - u * b),
                r >= 0,
        ;
        assert(0x8_0000_0000_0000 * (gap * p) <= most * p);
        if h * gap > most {
            lemma_mul_strict_inequality(most, h * gap, p);
        }
    }
    if n < MAX_NANOS {
        assert(np >= exact * p) by (nonlinear_arith)
            requires
                np == n * p,
                n >= exact,
                p > 0,
        ;
        assert(2 * first >= -(r * p)) by (nonlinear_arith)
            requires
                2 * (np - u * b) >= -p,
                first == r * (np - u * b),
                r >= 0,
        ;
        assert(0x8_0000_0000_0000 * (gap * p) >= -(most * p));
        if h * gap < -most {
            lemma_mul_strict_inequality(h * gap, -most, p);
            assert((-most) * p == -(most * p)) by (nonlinear_arith);
        }
    }
}

/// Dispatches are paced at the effective rate that the snapshot shows: the base
/// rate under the active probe, slowed by silence.
pub proof fn law_dispatch_is_paced_at_the_effective_rate(endpoint: Endpoint, now: Instant)
    requires
        endpoint.tuning.valid(),
        now.nanos < u128::MAX,
    ensures
        ({
            let fresh = endpoint.refreshed(now);
            let snapshot = fresh.pictured(now);
            &&& fresh.pacer.interval == crate::gcra::spacing(snapshot.effective_rate)
            &&& snapshot.effective_rate == snapshot.probed_rate.product(snapshot.feedback_factor)
            &&& snapshot.active_probe is None ==> snapshot.probed_rate == snapshot.base_rate
        }),
{
    crate::laws::lemma_settled(endpoint, now);
}

/// Longer silence never speeds an endpoint up.
pub proof fn law_longer_silence_is_slower(
    epoch: crate::controller::FeedbackEpoch,
    now: Instant,
    later: Instant,
    rate: Double,
)
    requires
        now.nanos <= later.nanos,
        epoch.expected_rtt.nanos > 0,
    ensures
        crate::controller::silence_factor(Some(epoch), later, rate).bits
            <= crate::controller::silence_factor(Some(epoch), now, rate).bits,
{
    let a = now.since(epoch.last_feedback_at).lessened(epoch.expected_rtt);
    let b = later.since(epoch.last_feedback_at).lessened(epoch.expected_rtt);
    let rtt = epoch.expected_rtt.in_seconds();
    let (x, y) = (a.in_seconds().quotient(rtt), b.in_seconds().quotient(rtt));
    crate::double::lemma_halved_at_most(y);
    if a.nanos > 0 {
        crate::precision::lemma_seconds_monotone(a, b);
        crate::time::lemma_seconds(epoch.expected_rtt);
        crate::double::lemma_order(a.in_seconds(), b.in_seconds());
        crate::double::lemma_order(Double { bits: 0 }, rtt);
        assert((Double { bits: 0 }).units() == 0) by {
            assert(0 * pow2(0) == 0) by (nonlinear_arith);
        }
        let (m, n) = (a.in_seconds().units() * pow2(1074), b.in_seconds().units() * pow2(1074));
        lemma_mul_inequality(
            a.in_seconds().units() as int,
            b.in_seconds().units() as int,
            pow2(1074) as int,
        );
        lemma_mul_inequality(m as int, n as int, rtt.units() as int);
        crate::double::lemma_monotone(m, rtt.units(), n, rtt.units());
        crate::powers::law_halving_falls(x, y);
    }
}

/// The rate of a pacer is the reciprocal of its interval: no number is nearer to
/// one over the interval in seconds.
pub proof fn law_rates_are_reciprocals(pacer: crate::gcra::Pacing, other: Double)
    requires
        0 < pacer.interval.nanos <= MAX_NANOS,
    ensures
        crate::rounding::rounds_to(
            unity() * unity(),
            pacer.interval.in_seconds().units() as int,
            pacer.rate(),
            other,
        ),
{
    let one = Double { bits: ONE };
    let secs = pacer.interval.in_seconds();
    crate::double::lemma_one();
    crate::time::lemma_seconds(pacer.interval);
    crate::precision::lemma_seconds_range(pacer.interval);
    lemma_pow2_adds(66, 1074);
    lemma_pow2_strictly_increases(1140, 2098);
    crate::double::lemma_power(2047);
    crate::double::lemma_order(secs, Double { bits: INFINITY });
    crate::rounding::law_operations_round_once(one, secs, other);
}

/// Silence beyond the expected RTT slows an endpoint by two to the power of minus
/// the number of further expected RTTs, whole or not, but not below the least
/// rate.
pub proof fn law_silence_decays_exponentially(
    epoch: crate::controller::FeedbackEpoch,
    now: Instant,
    rate: Double,
)
    requires
        epoch.last_feedback_at.nanos + epoch.expected_rtt.nanos < now.nanos
            <= epoch.last_feedback_at.nanos + MAX_NANOS,
    ensures
        ({
            let further = Duration {
                nanos: (now.nanos - epoch.last_feedback_at.nanos - epoch.expected_rtt.nanos)
                    as u128,
            };
            let rtts = further.in_seconds().quotient(epoch.expected_rtt.in_seconds());
            let least = (Double { bits: crate::controller::MINIMUM_RATE }).quotient(rate);
            let factor = crate::controller::silence_factor(Some(epoch), now, rate).units() as int;
            factor == maximum(
                rtts.halved().units() as int,
                crate::routing::minimum(least.units() as int, unity()),
            )
        }),
{
    let further = Duration {
        nanos: (now.nanos - epoch.last_feedback_at.nanos - epoch.expected_rtt.nanos) as u128,
    };
    let rtts = further.in_seconds().quotient(epoch.expected_rtt.in_seconds());
    let one = Double { bits: ONE };
    let least = (Double { bits: crate::controller::MINIMUM_RATE }).quotient(rate);
    let floor = least.lesser(one);
    assert(now.since(epoch.last_feedback_at).lessened(epoch.expected_rtt) == further);
    crate::double::lemma_one();
    crate::double::lemma_order(least, one);
    crate::double::lemma_order(floor, rtts.halved());
    crate::double::lemma_order(rtts.halved(), floor);
}

} // verus!
