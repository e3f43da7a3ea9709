//! What the operating point follows.
//!
//! The concurrency moves with the gradient, which tells how far the tolerated
//! RTT covers the current one. The laws give both as exact expressions, and how
//! far rounding takes the computed ones from these.

use crate::double::{Double, INFINITY, LEADING, ONE};
use crate::gradient::{OperatingPoint, HALF, MIN_POSITIVE, TWO};
use crate::learning::{apart, unity};
use crate::time::{Duration, Instant, MAX_NANOS};
use vstd::arithmetic::mul::*;
use vstd::arithmetic::power2::*;
use vstd::prelude::*;

verus! {

/// The RTT up to which queueing is tolerated, in nanoseconds.
pub open spec fn tolerated(point: OperatingPoint, reference_rtt: Duration) -> int {
    let sum = reference_rtt.nanos + point.config.queue_tolerance.nanos;
    if sum <= MAX_NANOS {
        sum
    } else {
        MAX_NANOS as int
    }
}

proof fn lemma_at_least_one(a: Double, b: Double)
    requires
        0 < b.bits <= a.bits,
    ensures
        a.quotient(b).bits >= ONE,
{
    let one = Double { bits: ONE };
    crate::double::lemma_one();
    crate::double::lemma_order(b, a);
    lemma_positive_units(b);
    crate::double::lemma_itself(one, b.units());
    let p = pow2(1074);
    lemma_mul_inequality(b.units() as int, a.units() as int, p as int);
    lemma_mul_is_commutative(p as int, b.units() as int);
    lemma_mul_inequality((p * b.units()) as int, (a.units() * p) as int, b.units() as int);
    crate::double::lemma_monotone(p * b.units(), b.units(), a.units() * p, b.units());
}

proof fn lemma_positive_units(a: Double)
    requires
        a.bits > 0,
    ensures
        a.units() > 0,
{
    crate::double::lemma_order(Double { bits: 0 }, a);
    assert((Double { bits: 0 }).units() == 0) by {
        assert(0 * pow2(0) == 0) by (nonlinear_arith);
    }
}

/// Durations that are not empty are well above the smallest normal number.
proof fn lemma_above_least(duration: Duration)
    requires
        0 < duration.nanos <= MAX_NANOS,
    ensures
        duration.in_seconds().greater(Double { bits: MIN_POSITIVE }) == duration.in_seconds(),
        duration.in_seconds().bits > 0,
        duration.in_seconds().units() < pow2(1200),
{
    let least = Double { bits: MIN_POSITIVE };
    let a = duration.in_seconds();
    crate::precision::lemma_seconds_range(duration);
    crate::double::lemma_power(1);
    lemma_pow2_adds(32, 1042);
    lemma_pow2_pos(32);
    lemma_pow2_strictly_increases(52, 1042);
    assert(a.units() >= pow2(1042)) by (nonlinear_arith)
        requires
            pow2(32) * pow2(1042) <= pow2(32) * a.units(),
            pow2(32) > 0,
    ;
    assert(least.bits == 1 * LEADING);
    crate::double::lemma_order(least, a);
    lemma_pow2_adds(66, 1074);
    lemma_pow2_strictly_increases(1140, 1200);
}

/// Latency within the tolerance is healthy: the gradient is one.
pub proof fn law_tolerated_latency_is_healthy(
    point: OperatingPoint,
    current_rtt: Duration,
    reference_rtt: Duration,
)
    requires
        current_rtt.nanos <= tolerated(point, reference_rtt),
    ensures
        point.gradient(current_rtt, reference_rtt).bits == ONE,
{
    let least = Double { bits: MIN_POSITIVE };
    let most = reference_rtt.joined(point.config.queue_tolerance);
    assert(most.nanos == tolerated(point, reference_rtt));
    crate::precision::lemma_seconds_monotone(current_rtt, most);
    let t = most.in_seconds().greater(least);
    let c = current_rtt.in_seconds().greater(least);
    lemma_at_least_one(t, c);
}

/// The gradient is the tolerated RTT over the current one, but between one half
/// and one, up to rounding.
pub proof fn law_gradient_is_tolerated_over_current(
    point: OperatingPoint,
    current_rtt: Duration,
    reference_rtt: Duration,
)
    requires
        0 < current_rtt.nanos <= MAX_NANOS,
        0 < tolerated(point, reference_rtt),
    ensures
        ({
            let g = point.gradient(current_rtt, reference_rtt);
            let c = current_rtt.in_seconds().units() as int;
            let t = (Duration {
                nanos: tolerated(point, reference_rtt) as u128,
            }).in_seconds().units() * unity();
            let most = t + 0x10_0000_0000_0000 * c;
            &&& HALF <= g.bits <= ONE
            &&& g.bits < ONE ==> 0x20_0000_0000_0000 * (g.units() * c) >= 0x20_0000_0000_0000 * t
                - most
            &&& g.bits > HALF ==> 0x20_0000_0000_0000 * (g.units() * c) <= 0x20_0000_0000_0000 * t
                + most
        }),
{
    let most = reference_rtt.joined(point.config.queue_tolerance);
    assert(most.nanos == tolerated(point, reference_rtt));
    lemma_above_least(current_rtt);
    lemma_above_least(most);
    let t = most.in_seconds();
    let c = current_rtt.in_seconds();
    let q = t.quotient(c);
    let g = point.gradient(current_rtt, reference_rtt);
    lemma_positive_units(c);
    lemma_pow2_adds(1200, 1074);
    lemma_pow2_strictly_increases(2274, 4000);
    lemma_pow2_pos(1074);
    lemma_mul_inequality(t.units() as int, pow2(1200) as int, pow2(1074) as int);
    crate::precision::lemma_rounding_any(t.units() * pow2(1074), c.units());
    crate::double::lemma_order(q, g);
    crate::double::lemma_order(g, q);
    if g.bits < ONE {
        lemma_mul_inequality(q.units() as int, g.units() as int, c.units() as int);
    }
    if g.bits > HALF {
        lemma_mul_inequality(g.units() as int, q.units() as int, c.units() as int);
    }
}

/// A failure multiplies the concurrency by the failure factor, up to rounding
/// and not below its lower bound.
pub proof fn law_failures_scale_the_concurrency(point: OperatingPoint, now: Instant)
    requires
        point.wf(),
    ensures
        ({
            let after = point.failed(now);
            let exact = (point.concurrency.units() * point.config.failure_factor.units()) as int;
            &&& after.concurrency.bits >= point.config.min_concurrency.bits
            &&& after.concurrency.bits > point.config.min_concurrency.bits ==> apart(
                0x20_0000_0000_0000 * (after.concurrency.units() * unity()),
                0x20_0000_0000_0000 * exact,
                exact + 0x10_0000_0000_0000 * unity(),
            )
            &&& after.concurrency.bits == point.config.min_concurrency.bits
                ==> 0x20_0000_0000_0000 * (point.config.min_concurrency.units() * unity())
                >= 0x20_0000_0000_0000 * exact - exact - 0x10_0000_0000_0000 * unity()
            &&& after.config == point.config
            &&& after.last_gradient.bits == 0
            &&& point.updates < u64::MAX ==> after.updates == point.updates + 1
            &&& after.next_update_at == Some(now.later(point.config.update_interval))
        }),
{
    let c = point.concurrency;
    let f = point.config.failure_factor;
    let q = c.product(f);
    crate::double::lemma_product_at_most(c, f);
    crate::double::lemma_one();
    crate::double::lemma_order(f, Double { bits: ONE });
    lemma_pow2_pos(1074);
    lemma_finite_times(c, f);
    crate::precision::lemma_rounding_any(c.units() * f.units(), pow2(1074));
    let least = point.config.min_concurrency;
    crate::double::lemma_order(q, least);
    if q.bits <= least.bits {
        lemma_mul_inequality(q.units() as int, least.units() as int, pow2(1074) as int);
    }
}

proof fn lemma_finite_times(a: Double, b: Double)
    requires
        a.bits < INFINITY,
        b.bits <= ONE,
    ensures
        a.units() * b.units() < pow2(4000),
        a.units() < pow2(2100),
        b.units() <= pow2(1074),
{
    crate::double::lemma_one();
    crate::double::lemma_order(b, Double { bits: ONE });
    crate::double::lemma_parts(a);
    let (m, k) = (a.mantissa(), a.scale());
    lemma2_to64_rest();
    lemma_pow2_pos(k);
    lemma_pow2_adds(53, k);
    lemma_pow2_strictly_increases(53 + k, 2100);
    lemma_mul_inequality(m as int, pow2(53) as int, pow2(k) as int);
    lemma_pow2_adds(2100, 1074);
    lemma_pow2_strictly_increases(3174, 4000);
    assert(a.units() * b.units() <= pow2(2100) * pow2(1074)) by (nonlinear_arith)
        requires
            a.units() < pow2(2100),
            b.units() <= pow2(1074),
    ;
}

/// A sample counts as evidence of spare capacity only where its request waited
/// for its slot and at least half of the concurrency was in use.
pub proof fn law_evidence_needs_demand(point: OperatingPoint, inflight: usize, was_paced: bool)
    requires
        point.concurrency.units() >= 2,
        inflight < 0x20_0000_0000_0000,
    ensures
        point.application_limited(inflight, was_paced) <==> !was_paced || 2 * (inflight * unity())
            < point.concurrency.units(),
{
    let c = point.concurrency;
    let p = pow2(1074);
    let two = Double { bits: TWO };
    let half = c.quotient(two);
    let used = Double::whole(inflight as nat);
    crate::double::lemma_power(1024);
    lemma_pow2_unfold(1075);
    assert(two.units() == 2 * p);
    lemma_pow2_pos(1074);
    crate::precision::lemma_whole_exact(inflight as nat);
    crate::double::lemma_order(used, half);
    let s = inflight * p;
    if 2 * s >= c.units() {
        // Rounding keeps the order.
        assert((c.units() * p) * 1 <= s * (2 * p)) by (nonlinear_arith)
            requires
                2 * s >= c.units(),
                p >= 0,
        ;
        crate::double::lemma_monotone(c.units() * p, 2 * p, s as nat, 1);
    } else if c.scale() > 0 {
        // Half of it is exact.
        crate::double::lemma_parts(c);
        let h = Double { bits: (c.bits - LEADING) as u64 };
        lemma_half(c, h);
        crate::double::lemma_itself(h, 2 * p);
        assert(h.units() * (2 * p) == c.units() * p) by (nonlinear_arith)
            requires
                c.units() == 2 * h.units(),
        ;
    } else {
        // Nothing is inflight.
        crate::double::lemma_parts(c);
        lemma2_to64();
        assert(c.units() < 2 * LEADING) by {
            assert(c.mantissa() * 1 == c.mantissa());
        }
        lemma2_to64_rest();
        lemma_pow2_strictly_increases(60, 1074);
        assert(inflight == 0) by (nonlinear_arith)
            requires
                2 * s < 2 * LEADING,
                s == inflight * p,
                p > 0x1000_0000_0000_0000,
        ;
        assert(0 * p == 0) by (nonlinear_arith);
        let least = Double { bits: 1 };
        assert(least.units() == 1) by {
            assert(least.scale() == 0);
            assert(1 * pow2(0) == 1);
        }
        crate::double::lemma_itself(least, 2 * p);
        assert((1 * (2 * p)) * (2 * p) <= (c.units() * p) * (2 * p)) by (nonlinear_arith)
            requires
                c.units() >= 2,
                p >= 0,
        ;
        crate::double::lemma_monotone(1 * (2 * p), 2 * p, c.units() * p, 2 * p);
        crate::double::lemma_order(least, half);
    }
}

/// A number with one less in its scale is half as large.
proof fn lemma_half(c: Double, h: Double)
    requires
        c.scale() > 0,
        c.mantissa() >= LEADING,
        c.mantissa() < 2 * LEADING,
        h.bits == c.bits - LEADING,
    ensures
        c.units() == 2 * h.units(),
{
    let (m, k) = (c.mantissa(), c.scale());
    let e = (k - 1) as nat;
    vstd::arithmetic::div_mod::lemma_fundamental_div_mod_converse(
        h.bits as int,
        LEADING as int,
        k as int,
        m - LEADING,
    );
    assert(h.scale() == e);
    assert(h.mantissa() == m);
    lemma_pow2_unfold(k);
    assert(m * (2 * pow2(e)) == 2 * (m * pow2(e))) by (nonlinear_arith);
}

/// What a healthy sample does: nothing where the caller has too little demand,
/// and nothing to the concurrency before the time of the next update; otherwise
/// it moves the concurrency, is counted, and puts the next update off.
pub proof fn law_healthy_samples_update_in_time(
    point: OperatingPoint,
    current_rtt: Duration,
    reference_rtt: Duration,
    inflight: usize,
    was_paced: bool,
    now: Instant,
)
    requires
        point.updates < u64::MAX,
    ensures
        ({
            let after = point.sampled(current_rtt, reference_rtt, inflight, was_paced, now);
            let early = match point.next_update_at {
                Some(at) => now.nanos < at.nanos,
                None => false,
            };
            &&& point.application_limited(inflight, was_paced) ==> after == point
            &&& !point.application_limited(inflight, was_paced) ==> {
                &&& after.last_gradient == point.gradient(current_rtt, reference_rtt)
                &&& early ==> after.concurrency == point.concurrency && after.updates
                    == point.updates && after.next_update_at == point.next_update_at
                &&& !early ==> after.concurrency == point.moved(after.last_gradient)
                    && after.updates == point.updates + 1 && after.next_update_at == Some(
                    now.later(point.config.update_interval),
                )
            }
            &&& after.config == point.config
        }),
{
}

/// Where the operating point moves to: a part of the old concurrency is kept,
/// and the rest is the old one times the gradient, plus the gain. Rounding takes
/// the computed one, as far as it is between its bounds, off by at most two
/// parts in two to the power 50 of the concurrency and the gain, and two of the
/// smallest numbers.
pub proof fn law_concurrency_follows_the_gradient(point: OperatingPoint, gradient: Double)
    requires
        point.wf(),
        gradient.bits <= ONE,
        point.concurrency.units() < pow2(1900),
        point.config.gain.units() < pow2(1900),
    ensures
        ({
            let p = unity();
            let (c, g) = (point.concurrency.units() as int, gradient.units() as int);
            let (k, s) = (
                point.config.gain.units() as int,
                point.config.smoothing.units() as int,
            );
            // Times one squared.
            let exact = (c * p) * (p - s) + (c * g + k * p) * s;
            let most = (p * p) * (2 * (c + k)) + 0x6_0000_0000_0000 * (p * p);
            let after = point.moved(gradient);
            let computed = 0x4_0000_0000_0000 * ((p * p) * after.units());
            &&& point.config.min_concurrency.bits <= after.bits
                <= point.config.max_concurrency.bits
            &&& after.bits < point.config.max_concurrency.bits ==> computed
                >= 0x4_0000_0000_0000 * exact - most
            &&& after.bits > point.config.min_concurrency.bits ==> computed
                <= 0x4_0000_0000_0000 * exact + most
        }),
{
    let p = unity();
    let one = Double { bits: ONE };
    let (c, g) = (point.concurrency.units() as int, gradient.units() as int);
    let (k, s) = (point.config.gain.units() as int, point.config.smoothing.units() as int);
    let first = point.concurrency.product(gradient);
    let estimate = first.sum(point.config.gain);
    let kept = one.difference(point.config.smoothing);
    let old_part = point.concurrency.product(kept);
    let new_part = estimate.product(point.config.smoothing);
    let total = old_part.sum(new_part);
    let after = point.moved(gradient);
    let (a, b, d) = (first.units() as int, estimate.units() as int, kept.units() as int);
    let (x, y, r) = (
        old_part.units() as int,
        new_part.units() as int,
        total.units() as int,
    );
    lemma_pow2_pos(1074);
    crate::double::lemma_one();
    crate::double::lemma_order(gradient, one);
    crate::double::lemma_order(point.config.smoothing, one);
    crate::double::lemma_product_at_most(point.concurrency, gradient);
    crate::double::lemma_order(first, point.concurrency);
    crate::double::lemma_difference_at_most(one, point.config.smoothing);
    crate::double::lemma_order(kept, one);
    crate::double::lemma_product_at_most(point.concurrency, kept);
    crate::double::lemma_order(old_part, point.concurrency);
    crate::double::lemma_product_at_most(estimate, point.config.smoothing);
    crate::double::lemma_order(new_part, estimate);
    lemma_pow2_strictly_increases(1900, 1990);
    lemma_pow2_strictly_increases(1074, 1990);
    lemma_pow2_strictly_increases(1990, 4000);
    lemma_pow2_unfold(1901);
    lemma_pow2_unfold(1902);
    lemma_pow2_unfold(1903);
    lemma_pow2_unfold(1904);
    lemma_pow2_strictly_increases(1904, 1990);
    lemma_fit(point.concurrency.units(), gradient.units());
    crate::precision::lemma_rounding_any(
        point.concurrency.units() * gradient.units(),
        pow2(1074),
    );
    crate::precision::lemma_rounding_units(first.units() + point.config.gain.units());
    crate::precision::lemma_rounding_units((p - s) as nat);
    lemma_fit(point.concurrency.units(), kept.units());
    crate::precision::lemma_rounding_any(point.concurrency.units() * kept.units(), pow2(1074));
    assert(b <= 2 * (c + k));
    lemma_fit(estimate.units(), point.config.smoothing.units());
    crate::precision::lemma_rounding_any(
        estimate.units() * point.config.smoothing.units(),
        pow2(1074),
    );
    crate::precision::lemma_rounding_units(old_part.units() + new_part.units());
    lemma_steps(c, g, k, s, p, a, b, d, x, y, r);
    let (low, high) = (point.config.min_concurrency, point.config.max_concurrency);
    crate::double::lemma_order(total, after);
    crate::double::lemma_order(after, total);
    let pp = p * p;
    assert(pp >= 0) by (nonlinear_arith)
        requires
            pp == p * p,
    ;
    if after.bits < high.bits {
        lemma_mul_inequality(r, after.units() as int, pp);
        lemma_mul_is_commutative(pp, r);
        lemma_mul_is_commutative(pp, after.units() as int);
    }
    if after.bits > low.bits {
        lemma_mul_inequality(after.units() as int, r, pp);
        lemma_mul_is_commutative(pp, r);
        lemma_mul_is_commutative(pp, after.units() as int);
    }
}

proof fn lemma_fit(a: nat, b: nat)
    requires
        a < pow2(1990),
        b < pow2(1990),
    ensures
        a * b < pow2(4000),
{
    lemma_pow2_adds(1990, 1990);
    lemma_pow2_strictly_increases(3980, 4000);
    assert(a * b <= pow2(1990) * pow2(1990)) by (nonlinear_arith)
        requires
            a < pow2(1990),
            b < pow2(1990),
    ;
}

/// The errors of the six steps add up.
proof fn lemma_steps(
    c: int,
    g: int,
    k: int,
    s: int,
    p: int,
    a: int,
    b: int,
    d: int,
    x: int,
    y: int,
    r: int,
)
    requires
        p > 0,
        0 <= c,
        0 <= k,
        0 <= g <= p,
        0 <= s <= p,
        0 <= a <= c,
        0 <= b <= 2 * (c + k),
        0 <= d <= p,
        0 <= x <= c,
        0 <= y <= b,
        0 <= r,
        apart(
            0x20_0000_0000_0000 * (a * p),
            0x20_0000_0000_0000 * (c * g),
            c * g + 0x10_0000_0000_0000 * p,
        ),
        apart(0x20_0000_0000_0000 * b, 0x20_0000_0000_0000 * (a + k), a + k),
        apart(0x20_0000_0000_0000 * d, 0x20_0000_0000_0000 * (p - s), p - s),
        apart(
            0x20_0000_0000_0000 * (x * p),
            0x20_0000_0000_0000 * (c * d),
            c * d + 0x10_0000_0000_0000 * p,
        ),
        apart(
            0x20_0000_0000_0000 * (y * p),
            0x20_0000_0000_0000 * (b * s),
            b * s + 0x10_0000_0000_0000 * p,
        ),
        apart(0x20_0000_0000_0000 * r, 0x20_0000_0000_0000 * (x + y), x + y),
    ensures
        apart(
            0x4_0000_0000_0000 * ((p * p) * r),
            0x4_0000_0000_0000 * ((c * p) * (p - s) + (c * g + k * p) * s),
            (p * p) * (2 * (c + k)) + 0x6_0000_0000_0000 * (p * p),
        ),
{
    let m = 0x20_0000_0000_0000int;
    let h = 0x10_0000_0000_0000int;
    let pp = p * p;
    let e1 = a * p - c * g;
    let e2 = b - (a + k);
    let e3 = d - (p - s);
    let e4 = x * p - c * d;
    let e5 = y * p - b * s;
    let e6 = r - (x + y);
    let (t1, t2, t3, t4, t5, t6) = (s * e1, (p * s) * e2, (p * c) * e3, p * e4, p * e5, pp * e6);
    let (ppc, ppk) = (pp * c, pp * k);
    lemma_scaled(e1, c * g + h * p, s, p, m);
    assert(p * (c * g + h * p) <= ppc + h * pp) by (nonlinear_arith)
        requires
            0 <= g <= p,
            0 <= c,
            p > 0,
            ppc == pp * c,
            pp == p * p,
    ;
    assert(p * s >= 0 && p * s <= pp) by (nonlinear_arith)
        requires
            0 <= s <= p,
            pp == p * p,
    ;
    lemma_scaled(e2, a + k, p * s, pp, m);
    assert(pp * (a + k) <= ppc + ppk) by (nonlinear_arith)
        requires
            a <= c,
            pp >= 0,
            ppc == pp * c,
            ppk == pp * k,
    ;
    assert(p * c >= 0) by (nonlinear_arith)
        requires
            p > 0,
            c >= 0,
    ;
    lemma_scaled(e3, p - s, p * c, p * c, m);
    assert((p * c) * (p - s) <= ppc) by (nonlinear_arith)
        requires
            0 <= s,
            p > 0,
            c >= 0,
            pp == p * p,
            ppc == pp * c,
    ;
    lemma_scaled(e4, c * d + h * p, p, p, m);
    assert(p * (c * d + h * p) <= ppc + h * pp) by (nonlinear_arith)
        requires
            0 <= d <= p,
            0 <= c,
            p > 0,
            ppc == pp * c,
            pp == p * p,
    ;
    lemma_scaled(e5, b * s + h * p, p, p, m);
    assert(p * (b * s + h * p) <= 2 * ppc + 2 * ppk + h * pp) by (nonlinear_arith)
        requires
            0 <= s <= p,
            0 <= b <= 2 * (c + k),
            p > 0,
            ppc == pp * c,
            ppk == pp * k,
            pp == p * p,
    ;
    lemma_scaled(e6, x + y, pp, pp, m);
    assert(pp * (x + y) <= 3 * ppc + 2 * ppk) by (nonlinear_arith)
        requires
            x <= c,
            y <= 2 * (c + k),
            pp >= 0,
            ppc == pp * c,
            ppk == pp * k,
    ;
    // The sum of the parts.
    let exact = (c * p) * (p - s) + (c * g + k * p) * s;
    assert(pp * r == pp * x + pp * y + t6) by (nonlinear_arith)
        requires
            e6 == r - (x + y),
            t6 == pp * e6,
    ;
    assert(pp * x == p * (c * d) + t4) by (nonlinear_arith)
        requires
            e4 == x * p - c * d,
            t4 == p * e4,
            pp == p * p,
    ;
    assert(p * (c * d) == (c * p) * (p - s) + t3) by (nonlinear_arith)
        requires
            e3 == d - (p - s),
            t3 == (p * c) * e3,
    ;
    assert(pp * y == p * (b * s) + t5) by (nonlinear_arith)
        requires
            e5 == y * p - b * s,
            t5 == p * e5,
            pp == p * p,
    ;
    assert(p * (b * s) == (p * s) * (a + k) + t2) by (nonlinear_arith)
        requires
            e2 == b - (a + k),
            t2 == (p * s) * e2,
    ;
    assert((p * s) * (a + k) == (c * g + k * p) * s + t1) by (nonlinear_arith)
        requires
            e1 == a * p - c * g,
            t1 == s * e1,
    ;
    assert(pp * r - exact == t1 + t2 + t3 + t4 + t5 + t6);
    assert(pp * (2 * (c + k)) == 2 * ppc + 2 * ppk) by (nonlinear_arith)
        requires
            ppc == pp * c,
            ppk == pp * k,
    ;
    assert(ppc >= 0 && ppk >= 0 && pp >= 0) by (nonlinear_arith)
        requires
            c >= 0,
            k >= 0,
            pp == p * p,
            ppc == pp * c,
            ppk == pp * k,
    ;
}

/// An error that is scaled stays below its scaled bound.
proof fn lemma_scaled(e: int, most: int, f: int, limit: int, m: int)
    requires
        0 <= f <= limit,
        most >= 0,
        -most <= m * e <= most,
    ensures
        -(limit * most) <= m * (f * e) <= limit * most,
{
    assert(-(f * most) <= m * (f * e) && m * (f * e) <= f * most) by (nonlinear_arith)
        requires
            -most <= m * e <= most,
            f >= 0,
    ;
    assert(f * most <= limit * most) by (nonlinear_arith)
        requires
            f <= limit,
            most >= 0,
    ;
}

/// An operating point starts at its initial concurrency, with a gradient of one,
/// and may be updated by the first sample.
pub proof fn law_operating_points_start_as_configured(config: crate::gradient::Gradient2Config)
    ensures
        ({
            let start = OperatingPoint::fresh(config);
            &&& start.config == config
            &&& start.concurrency == config.initial_concurrency
            &&& start.last_gradient.units() == unity()
            &&& start.updates == 0
            &&& start.next_update_at is None
        }),
{
    crate::double::lemma_one();
}

} // verus!
