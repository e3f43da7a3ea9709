//! What rounding means: the result of a computation is the number that is
//! nearest to the exact one, and of two that are equally near the even one.

use crate::double::{encoded, nearest, rounded, Double, INFINITY, LEADING};
use crate::time::{Duration, MAX_NANOS};
use vstd::arithmetic::div_mod::*;
use vstd::arithmetic::power2::*;
use vstd::prelude::*;

verus! {

/// How far two quantities are apart.
pub open spec fn distance(a: int, b: int) -> int {
    if a >= b {
        a - b
    } else {
        b - a
    }
}

/// Whether no number is nearer to the quotient `num / den` of units than the
/// given one, and no other is as near unless the given one is even.
pub open spec fn rounds_to(num: int, den: int, result: Double, other: Double) -> bool {
    let own = distance(result.units() * den, num);
    let others = distance(other.units() * den, num);
    &&& own <= others
    &&& own == others && other != result ==> result.bits % 2 == 0
}

/// A quotient is rounded to the nearest number, ties to the even one.
pub proof fn law_quotients_are_rounded_to_nearest(num: nat, den: nat, other: Double)
    requires
        den > 0,
        num < pow2(4000) * den,
    ensures
        rounds_to(num as int, den as int, nearest(num, den), other),
{
    let (m, k) = crate::double::lemma_found(num, den);
    crate::double::lemma_nearest(num, den, k, m);
    lemma_pow2_pos(k);
    let p = pow2(k);
    let step = den * p;
    assert(step > 0) by (nonlinear_arith)
        requires
            step == den * p,
            den > 0,
            p > 0,
    ;
    assert(k <= 4000) by {
        if k > 4000 {
            lemma_pow2_strictly_increases(4000, k);
            assert(m * step >= step) by (nonlinear_arith)
                requires
                    m >= 1,
                    step > 0,
            ;
            assert(step > pow2(4000) * den) by (nonlinear_arith)
                requires
                    step == den * p,
                    p > pow2(4000),
                    den > 0,
            ;
        }
    }
    let low = encoded(m, k);
    let high = encoded(m + 1, k);
    crate::precision::lemma_encoded(m, k);
    crate::precision::lemma_encoded(m + 1, k);
    assert(low.bits + 1 == high.bits);
    let rest = num - m * step;
    assert((m + 1) * step == m * step + step) by (nonlinear_arith);
    assert(low.units() * den == m * step && high.units() * den == (m + 1) * step)
        by (nonlinear_arith)
        requires
            low.units() == m * p,
            high.units() == (m + 1) * p,
            step == den * p,
    ;
    crate::double::lemma_order(other, low);
    crate::double::lemma_order(high, other);
    let x = other.units() * den;
    if other.bits <= low.bits {
        assert(x <= low.units() * den) by (nonlinear_arith)
            requires
                x == other.units() * den,
                other.units() <= low.units(),
        ;
        if other.bits < low.bits {
            assert(x < low.units() * den) by (nonlinear_arith)
                requires
                    x == other.units() * den,
                    other.units() < low.units(),
                    den > 0,
            ;
        }
    } else {
        assert(x >= high.units() * den) by (nonlinear_arith)
            requires
                x == other.units() * den,
                other.units() >= high.units(),
        ;
        if other.bits > high.bits {
            assert(x > high.units() * den) by (nonlinear_arith)
                requires
                    x == other.units() * den,
                    other.units() > high.units(),
                    den > 0,
            ;
        }
    }
    assert(low.bits == k * LEADING + m);
    assert(low.bits % 2 == m % 2);
}

proof fn lemma_finite(a: Double)
    requires
        a.bits < INFINITY,
    ensures
        a.units() < pow2(2098),
        2 * pow2(2098) < pow2(4000),
        pow2(2098) * pow2(2098) < pow2(4000) * pow2(1074),
        pow2(2098) * pow2(1074) < pow2(4000),
        pow2(1074) > 0,
{
    crate::double::lemma_power(2047);
    crate::double::lemma_order(a, Double { bits: INFINITY });
    lemma_pow2_unfold(2099);
    lemma_pow2_strictly_increases(2099, 4000);
    lemma_pow2_adds(2098, 2098);
    lemma_pow2_adds(4000, 1074);
    lemma_pow2_strictly_increases(4196, 5074);
    lemma_pow2_adds(2098, 1074);
    lemma_pow2_strictly_increases(3172, 4000);
    lemma_pow2_pos(1074);
}

/// Each operation rounds its exact result once: no number is nearer to the sum,
/// the difference, the product or the quotient of two numbers than what is
/// computed.
pub proof fn law_operations_round_once(a: Double, b: Double, other: Double)
    requires
        a.bits < INFINITY,
        b.bits < INFINITY,
    ensures
        rounds_to((a.units() + b.units()) as int, 1, a.sum(b), other),
        a.bits >= b.bits ==> rounds_to(a.units() - b.units(), 1, a.difference(b), other),
        a.bits < b.bits ==> a.difference(b).units() == 0,
        rounds_to((a.units() * b.units()) as int, pow2(1074) as int, a.product(b), other),
        b.bits > 0 ==> rounds_to(
            (a.units() * pow2(1074)) as int,
            b.units() as int,
            a.quotient(b),
            other,
        ),
{
    let p = pow2(1074);
    lemma_finite(a);
    lemma_finite(b);
    let (x, y) = (a.units(), b.units());
    crate::double::lemma_order(a, b);
    crate::double::lemma_order(b, Double { bits: 0 });
    assert(0 * pow2(0) == 0) by (nonlinear_arith);
    assert((Double { bits: 0 }).units() == 0);
    law_quotients_are_rounded_to_nearest(x + y, 1, other);
    if a.bits >= b.bits {
        law_quotients_are_rounded_to_nearest((x - y) as nat, 1, other);
    }
    assert(x * y <= pow2(2098) * pow2(2098)) by (nonlinear_arith)
        requires
            x <= pow2(2098),
            y <= pow2(2098),
    ;
    law_quotients_are_rounded_to_nearest(x * y, p, other);
    if b.bits > 0 {
        assert(x * p <= pow2(2098) * p) by (nonlinear_arith)
            requires
                x <= pow2(2098),
        ;
        assert(pow2(4000) * y >= pow2(4000)) by (nonlinear_arith)
            requires
                y >= 1,
        ;
        law_quotients_are_rounded_to_nearest(x * p, y, other);
    }
}

/// A whole number is the nearest number to it.
pub proof fn law_whole_numbers_are_nearest(n: nat, other: Double)
    requires
        n <= u128::MAX,
    ensures
        rounds_to((n * pow2(1074)) as int, 1, Double::whole(n), other),
{
    lemma2_to64();
    lemma_pow2_adds(64, 64);
    lemma2_to64_rest();
    lemma_pow2_adds(128, 1074);
    lemma_pow2_strictly_increases(1202, 4000);
    let p = pow2(1074);
    assert(n * p <= pow2(128) * p) by (nonlinear_arith)
        requires
            n <= pow2(128),
    ;
    law_quotients_are_rounded_to_nearest(n * p, 1, other);
}

/// A number of seconds is read as the nearest number of nanoseconds, ties to the
/// even one, and at most as the longest duration.
pub proof fn law_seconds_are_read_to_the_nearest_nanosecond(secs: Double, nanos: nat)
    ensures
        ({
            let exact = secs.units() * 1_000_000_000;
            let second = pow2(1074);
            let read = Duration::of_seconds(secs).nanos as int;
            let own = distance(read * second, exact as int);
            let others = distance((nanos * second) as int, exact as int);
            &&& read <= MAX_NANOS
            &&& nanos <= MAX_NANOS ==> own <= others
            &&& read < MAX_NANOS ==> 2 * own <= second
            &&& read < MAX_NANOS && 2 * own == second ==> read % 2 == 0
        }),
{
    let exact = secs.units() * 1_000_000_000;
    let p = pow2(1074);
    lemma_pow2_pos(1074);
    crate::precision::lemma_rounded(exact, p);
    let r = rounded(exact, p) as int;
    let read = Duration::of_seconds(secs).nanos as int;
    let n = nanos as int;
    let x = exact as int;
    lemma_fundamental_div_mod(x, p as int);
    let q = x / (p as int);
    assert((q + 1) * p == p * q + p && q * p == p * q) by (nonlinear_arith);
    if n <= MAX_NANOS {
        lemma_nearer(read, r, n, x, p as int);
    }
}

/// A rounded quotient is nearer than any other whole number, and a limit below
/// it is nearer than anything below the limit.
proof fn lemma_nearer(read: int, r: int, n: int, x: int, p: int)
    requires
        p > 0,
        read == if r <= MAX_NANOS {
            r
        } else {
            MAX_NANOS as int
        },
        n <= MAX_NANOS,
        2 * (r * p) <= 2 * x + p,
        2 * x <= 2 * (r * p) + p,
    ensures
        distance(read * p, x) <= distance(n * p, x),
{
    if n != read {
        if n > read {
            assert(n * p >= read * p + p) by (nonlinear_arith)
                requires
                    n >= read + 1,
                    p > 0,
            ;
        } else {
            assert(n * p <= read * p - p) by (nonlinear_arith)
                requires
                    n <= read - 1,
                    p > 0,
            ;
            assert(read * p <= r * p) by (nonlinear_arith)
                requires
                    read <= r,
                    p > 0,
            ;
            if read < r {
                assert(read * p <= r * p - p) by (nonlinear_arith)
                    requires
                        read <= r - 1,
                        p > 0,
                ;
            }
        }
    }
}

/// A duration in seconds is the sum of its whole seconds and the part of a second
/// that is left, where that part is rounded first and the sum then.
pub proof fn law_seconds_are_whole_seconds_and_a_rest(duration: Duration, other: Double)
    requires
        duration.nanos <= MAX_NANOS,
    ensures
        ({
            let whole = Double::whole(duration.nanos as nat / 1_000_000_000);
            let rest = duration.nanos as int % 1_000_000_000;
            let part = Double::whole(rest as nat).quotient(Double::whole(1_000_000_000));
            let one = pow2(1074) as int;
            &&& rounds_to((rest * one) * one, 1_000_000_000 * one, part, other)
            &&& rounds_to((whole.units() + part.units()) as int, 1, duration.in_seconds(), other)
        }),
{
    let w = duration.nanos as nat / 1_000_000_000;
    let r = duration.nanos as nat % 1_000_000_000;
    let whole = Double::whole(w);
    let (top, billion) = (Double::whole(r), Double::whole(1_000_000_000));
    let part = top.quotient(billion);
    lemma2_to64_rest();
    crate::precision::lemma_whole_exact(r);
    crate::precision::lemma_whole_exact(1_000_000_000);
    crate::double::lemma_whole_positive(1_000_000_000);
    crate::double::lemma_whole_at_most(w, 64);
    crate::double::lemma_whole_at_most(r, 64);
    crate::double::lemma_whole_at_most(1_000_000_000, 64);
    law_operations_round_once(top, billion, other);
    // The part is at most one.
    let one = Double { bits: crate::double::ONE };
    crate::double::lemma_one();
    crate::double::lemma_itself(one, 1);
    let p = pow2(1074);
    lemma_pow2_pos(1074);
    assert((r * p) * p * 1 <= (p * 1) * (1_000_000_000 * p)) by (nonlinear_arith)
        requires
            r <= 1_000_000_000,
    ;
    crate::double::lemma_monotone((r * p) * p, 1_000_000_000 * p, p * 1, 1);
    law_operations_round_once(whole, part, other);
}

/// A weight of at most one makes no number larger.
proof fn lemma_weighed(alpha: Double, d: Double)
    requires
        alpha.bits <= crate::double::ONE,
    ensures
        alpha.product(d).bits <= d.bits,
{
    let p = pow2(1074);
    lemma_pow2_pos(1074);
    crate::double::lemma_one();
    crate::double::lemma_order(alpha, Double { bits: crate::double::ONE });
    let (a, b) = (alpha.units(), d.units());
    assert((a * b) * 1 <= (b * 1) * p) by (nonlinear_arith)
        requires
            a <= p,
    ;
    crate::double::lemma_monotone(a * b, p, b * 1, 1);
    crate::double::lemma_itself(d, 1);
}

/// An average rounds three times: the distance to the sample, the part of it that
/// the weight takes, and the sum or the difference of the old average and that.
pub proof fn law_averages_round_each_step(
    previous: Double,
    sample: Double,
    alpha: Double,
    other: Double,
)
    requires
        previous.bits < INFINITY,
        sample.bits < INFINITY,
        alpha.bits <= crate::double::ONE,
    ensures
        ({
            let after = crate::latency::averaged(previous, sample, alpha);
            let up = sample.difference(previous);
            let down = previous.difference(sample);
            &&& sample.bits >= previous.bits ==> {
                &&& rounds_to(sample.units() - previous.units(), 1, up, other)
                &&& rounds_to(
                    (previous.units() + alpha.product(up).units()) as int,
                    1,
                    after,
                    other,
                )
            }
            &&& sample.bits < previous.bits ==> {
                &&& rounds_to(previous.units() - sample.units(), 1, down, other)
                &&& previous.units() >= alpha.product(down).units()
                &&& rounds_to(
                    previous.units() - alpha.product(down).units(),
                    1,
                    after,
                    other,
                )
            }
        }),
{
    let up = sample.difference(previous);
    let down = previous.difference(sample);
    law_operations_round_once(sample, previous, other);
    law_operations_round_once(previous, sample, other);
    crate::double::lemma_difference_at_most(sample, previous);
    crate::double::lemma_difference_at_most(previous, sample);
    lemma_weighed(alpha, up);
    lemma_weighed(alpha, down);
    let (s, t) = (alpha.product(up), alpha.product(down));
    law_operations_round_once(previous, s, other);
    law_operations_round_once(previous, t, other);
    crate::double::lemma_order(t, previous);
}

/// The rates of a snapshot round once each: the base rate is the concurrency over
/// the expected RTT, the effective rate the probed rate times the factor of
/// silence, and the effective concurrency that times the expected RTT.
pub proof fn law_snapshot_rates_round_once(
    endpoint: crate::controller::Endpoint,
    now: crate::time::Instant,
    other: Double,
)
    requires
        endpoint.latency.expected_rtt().in_seconds().bits > 0,
        endpoint.latency.expected_rtt().in_seconds().bits < INFINITY,
        endpoint.gradient.concurrency.bits < INFINITY,
        endpoint.pictured(now).probed_rate.bits < INFINITY,
        endpoint.pictured(now).effective_rate.bits < INFINITY,
        endpoint.pictured(now).feedback_factor.bits < INFINITY,
    ensures
        ({
            let shown = endpoint.pictured(now);
            let rtt = endpoint.latency.expected_rtt().in_seconds().units() as int;
            let one = pow2(1074) as int;
            &&& rounds_to(
                endpoint.gradient.concurrency.units() * one,
                rtt,
                shown.base_rate,
                other,
            )
            &&& rounds_to(
                shown.probed_rate.units() * shown.feedback_factor.units() as int,
                one,
                shown.effective_rate,
                other,
            )
            &&& rounds_to(
                shown.effective_rate.units() * rtt,
                one,
                shown.effective_concurrency,
                other,
            )
        }),
{
    let shown = endpoint.pictured(now);
    let rtt = endpoint.latency.expected_rtt().in_seconds();
    law_operations_round_once(endpoint.gradient.concurrency, rtt, other);
    law_operations_round_once(shown.probed_rate, shown.feedback_factor, other);
    law_operations_round_once(shown.effective_rate, rtt, other);
}

} // verus!
