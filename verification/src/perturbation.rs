//! What probing promises: when a decision is made, which probe it starts, and
//! what a probe does to the rate.

use crate::controller::Endpoint;
use crate::double::{Double, INFINITY, LEADING, ONE};
use crate::learning::{apart, unity};
use crate::probe::{fraction, ProbeKind, ProbeSchedule, Probing, FRACTION_UNIT};
use crate::routing::{at_most_last, minimum};
use crate::time::{Duration, Instant, MAX_NANOS};
use vstd::arithmetic::power2::*;
use vstd::prelude::*;

verus! {

/// The number that a random word stands for among the two to the power 53
/// numbers that are drawn from: its highest 53 bits.
pub open spec fn drawn(word: u64) -> int {
    word as int / 2048
}

/// A number with an exponent that is lower by 53 is smaller by that power of two.
proof fn lemma_shifted(c: Double, h: Double)
    requires
        c.scale() > 53,
        h.bits == c.bits - 53 * LEADING,
    ensures
        c.units() == pow2(53) * h.units(),
{
    crate::double::lemma_parts(c);
    let (m, k) = (c.mantissa(), c.scale());
    let e = (k - 53) as nat;
    vstd::arithmetic::div_mod::lemma_fundamental_div_mod_converse(
        h.bits as int,
        LEADING as int,
        (e + 1) as int,
        m - LEADING,
    );
    assert(h.scale() == e);
    assert(h.mantissa() == m);
    lemma_pow2_adds(53, e);
    assert(m * (pow2(53) * pow2(e)) == pow2(53) * (m * pow2(e))) by (nonlinear_arith);
}

/// A draw is a number from zero up to one, in steps of one part in two to the
/// power 53, without any rounding.
pub proof fn law_draws_are_even(word: u64)
    ensures
        fraction(word).units() * 0x20_0000_0000_0000 == drawn(word) * unity(),
        fraction(word).units() < unity(),
{
    let n = (word as nat) / 2048;
    let whole = Double::whole(n);
    let unit = Double { bits: FRACTION_UNIT };
    let p = pow2(1074);
    let q = pow2(1021);
    lemma2_to64_rest();
    lemma_pow2_pos(1074);
    lemma_pow2_pos(1021);
    lemma_pow2_adds(53, 1021);
    crate::double::lemma_power(970);
    assert(unit.units() == q);
    crate::precision::lemma_whole_exact(n);
    if n == 0 {
        assert((n * p) * q == 0) by (nonlinear_arith)
            requires
                n == 0,
        ;
        crate::double::lemma_nothing(unit);
        assert(0 * p == 0) by (nonlinear_arith);
        crate::double::lemma_order(whole, Double { bits: 0 });
        assert(0 * pow2(0) == 0) by (nonlinear_arith);
        assert((Double { bits: 0 }).units() == 0);
        crate::double::lemma_itself(Double { bits: 0 }, p);
        assert(0 * p == 0);
        assert(fraction(word).units() == 0);
    } else {
        crate::double::lemma_parts(whole);
        let k = whole.scale();
        assert(whole.units() >= p) by (nonlinear_arith)
            requires
                whole.units() == n * p,
                n >= 1,
        ;
        if k <= 1021 {
            if k < 1021 {
                lemma_pow2_strictly_increases(k, 1021);
            }
            assert(whole.mantissa() * pow2(k) < 0x20_0000_0000_0000 * q) by (nonlinear_arith)
                requires
                    whole.mantissa() < 0x20_0000_0000_0000,
                    pow2(k) <= q,
                    q > 0,
            ;
            assert(false);
        }
        let h = Double { bits: (whole.bits - 53 * LEADING) as u64 };
        assert(whole.bits >= 1021 * LEADING);
        lemma_shifted(whole, h);
        assert(whole.units() * q == h.units() * p) by (nonlinear_arith)
            requires
                whole.units() == pow2(53) * h.units(),
                p == pow2(53) * q,
        ;
        crate::double::lemma_itself(h, p);
        assert(fraction(word) == h);
        assert(h.units() * pow2(53) == n * p) by (nonlinear_arith)
            requires
                n * p == pow2(53) * h.units(),
        ;
    }
    let f = fraction(word).units();
    assert(drawn(word) * p < 0x20_0000_0000_0000 * p) by (nonlinear_arith)
        requires
            drawn(word) < 0x20_0000_0000_0000,
            p > 0,
    ;
}

/// Which probe a due decision starts depends on its draw alone: a draw below
/// the first probability raises the rate by the configured amount, one below
/// the sum of both lowers it by the configured factor, and any other one starts
/// none. A probe lasts for the configured time.
pub proof fn law_draws_decide_the_probe(schedule: ProbeSchedule, word: u64, now: Instant)
    requires
        schedule.valid(),
    ensures
        ({
            let probe = schedule.chosen(word, now);
            let draw = drawn(word) * unity();
            let first = 0x20_0000_0000_0000 * schedule.positive_probability.units();
            let sum = schedule.positive_probability.sum(schedule.negative_probability).units()
                as int;
            let both = (schedule.positive_probability.units()
                + schedule.negative_probability.units()) as int;
            &&& apart(0x20_0000_0000_0000 * sum, 0x20_0000_0000_0000 * both, both)
            &&& draw < first ==> probe is Some && probe.unwrap().kind == (ProbeKind::Positive {
                delta_rate: schedule.positive_rate_delta,
            })
            &&& first <= draw < 0x20_0000_0000_0000 * sum ==> probe is Some
                && probe.unwrap().kind == (ProbeKind::Negative {
                factor: schedule.negative_factor,
            })
            &&& probe is None <==> first <= draw && 0x20_0000_0000_0000 * sum <= draw
            &&& probe matches Some(p) ==> p.until.nanos == at_most_last(
                now.nanos + schedule.duration.nanos,
            )
        }),
{
    let draw = fraction(word);
    let p = schedule.positive_probability;
    let q = schedule.negative_probability;
    law_draws_are_even(word);
    crate::double::lemma_order(draw, p);
    crate::double::lemma_order(draw, p.sum(q));
    crate::precision::lemma_finite(p);
    crate::precision::lemma_finite(q);
    lemma_pow2_unfold(3001);
    lemma_pow2_strictly_increases(3001, 4000);
    crate::precision::lemma_rounding_units(p.units() + q.units());
}

/// The time until the next decision lies between the configured bounds, and
/// grows evenly with its draw: for bounds that are less than two to the power 49
/// nanoseconds apart it is exact to a nanosecond.
pub proof fn law_intervals_are_drawn_evenly(schedule: ProbeSchedule, word: u64)
    requires
        schedule.valid(),
        schedule.max_interval.nanos <= MAX_NANOS,
    ensures
        ({
            let span = schedule.max_interval.nanos - schedule.min_interval.nanos;
            let extra = schedule.interval(word).nanos - schedule.min_interval.nanos;
            &&& 0 <= extra <= span
            &&& span < 0x2_0000_0000_0000 ==> apart(
                0x20_0000_0000_0000 * extra,
                span * drawn(word),
                0x20_0000_0000_0000,
            )
        }),
{
    let span = schedule.span();
    let s = span.nanos as int;
    let f = fraction(word);
    let x = span.in_seconds().product(f).units();
    let p = pow2(1074);
    let n = drawn(word);
    lemma_pow2_pos(1074);
    law_draws_are_even(word);
    let jitter = Duration::of_seconds(span.in_seconds().product(f)).nanos as int;
    let extra = minimum(jitter, s);
    if s < 0x2_0000_0000_0000 {
        lemma_jitter(span, word);
        let r = crate::double::rounded(x * 1_000_000_000, p) as int;
        crate::precision::lemma_rounded(x * 1_000_000_000, p);
        lemma_settled(s, n, x as int, p as int, r);
        assert(jitter == minimum(r, MAX_NANOS as int));
        assert(s * n <= s * 0x20_0000_0000_0000) by (nonlinear_arith)
            requires
                s >= 0,
                n <= 0x20_0000_0000_0000,
        ;
        assert(apart(0x20_0000_0000_0000 * r, s * n, 0x20_0000_0000_0000));
        if r > MAX_NANOS {
            assert(false);
        }
        assert(r == jitter);
    }
}

/// A part of a short duration in seconds is the part of its length, up to three
/// parts in two to the power 52 and half of the smallest number.
proof fn lemma_jitter(span: Duration, word: u64)
    requires
        span.nanos < 0x2_0000_0000_0000,
    ensures
        ({
            let x = (span.in_seconds().product(fraction(word)).units() * 1_000_000_000) as int;
            let exact = (span.nanos * drawn(word)) * unity();
            apart(
                0x20_0000_0000_0000 * (0x20_0000_0000_0000 * x),
                0x20_0000_0000_0000 * exact,
                4 * exact + 0x10_0000_0000_0000 * (0x20_0000_0000_0000 * 1_000_000_000),
            )
        }),
{
    let p = pow2(1074);
    let f = fraction(word).units() as int;
    let d = span.in_seconds();
    let u = d.units() as int;
    let n = drawn(word);
    let s = span.nanos as int;
    lemma_pow2_pos(1074);
    law_draws_are_even(word);
    if s == 0 {
        crate::time::lemma_seconds(span);
        crate::double::lemma_order(d, Double { bits: 0 });
        assert(0 * pow2(0) == 0) by (nonlinear_arith);
        assert((Double { bits: 0 }).units() == 0);
        assert(u == 0);
        crate::double::lemma_itself(Double { bits: 0 }, p);
        assert(0 * p == 0 && (0 * n) * p == 0 && 0 * f == 0) by (nonlinear_arith);
        assert(d.units() * fraction(word).units() == 0) by (nonlinear_arith)
            requires
                d.units() == 0,
        ;
        assert(d.product(fraction(word)).units() == 0);
    } else {
        crate::precision::lemma_near_seconds(span);
        crate::precision::lemma_seconds_range(span);
        lemma_pow2_adds(66, 1074);
        lemma_pow2_strictly_increases(1140, 1990);
        lemma_pow2_strictly_increases(1074, 1990);
        lemma_pow2_adds(1990, 1990);
        lemma_pow2_strictly_increases(3980, 4000);
        assert(u * f <= pow2(1990) * pow2(1990)) by (nonlinear_arith)
            requires
                0 <= u <= pow2(1990),
                0 <= f <= pow2(1990),
        ;
        crate::precision::lemma_rounding_any(d.units() * fraction(word).units(), p);
        let x = d.product(fraction(word)).units() as int;
        lemma_jitter_bounds(u, f, n, s, p as int, x);
    }
}

/// The arithmetic of a part of a duration.
proof fn lemma_jitter_bounds(u: int, f: int, n: int, s: int, p: int, x: int)
    requires
        p > 0,
        s > 0,
        u >= 0,
        f >= 0,
        0 <= n < 0x20_0000_0000_0000,
        f * 0x20_0000_0000_0000 == n * p,
        crate::precision::near(u * 1_000_000_000, s * p, 0xF_FFFF_FFFF_FFFF),
        apart(
            0x20_0000_0000_0000 * (x * p),
            0x20_0000_0000_0000 * (u * f),
            u * f + 0x10_0000_0000_0000 * p,
        ),
    ensures
        apart(
            0x20_0000_0000_0000 * (0x20_0000_0000_0000 * (x * 1_000_000_000)),
            0x20_0000_0000_0000 * ((s * n) * p),
            4 * ((s * n) * p) + 0x10_0000_0000_0000 * (0x20_0000_0000_0000 * 1_000_000_000),
        ),
{
    // With w for two to the power 53, x p is near u f, w f is n p and b u is
    // near s p, so w b x p p is near s n p p.
    let w = 0x20_0000_0000_0000int;
    let b = 1_000_000_000int;
    let e = (s * n) * p;
    // w (u f) = u n p.
    assert(w * (u * f) == (u * n) * p) by (nonlinear_arith)
        requires
            f * w == n * p,
    ;
    // So w x is near u n.
    assert(apart((w * (w * x)) * p, (w * (u * n)) * p, (u * n) * p + ((w / 2) * w) * p))
        by (nonlinear_arith)
        requires
            w == 0x20_0000_0000_0000,
            w * (u * f) == (u * n) * p,
            apart(w * (x * p), w * (u * f), u * f + 0x10_0000_0000_0000 * p),
    ;
    let left = w * (w * x);
    let right = w * (u * n);
    let most = u * n + (w / 2) * w;
    assert(most * p == (u * n) * p + ((w / 2) * w) * p) by (nonlinear_arith)
        requires
            most == u * n + (w / 2) * w,
    ;
    lemma_apart_cancel(left, right, most, p);
    // And b u n is near s n p.
    crate::precision::lemma_near_scale(u * b, s * p, 0xF_FFFF_FFFF_FFFF, n);
    assert((u * b) * n == b * (u * n) && (s * p) * n == e) by (nonlinear_arith)
        requires
            e == (s * n) * p,
    ;
    let y = b * (u * n);
    assert(y >= 0 && e >= 0) by (nonlinear_arith)
        requires
            y == b * (u * n),
            e == (s * n) * p,
            b > 0,
            u >= 0,
            n >= 0,
            s > 0,
            p > 0,
    ;
    assert(apart(0xF_FFFF_FFFF_FFFF * y, 0xF_FFFF_FFFF_FFFF * e, e) || apart(
        0xF_FFFF_FFFF_FFFF * y,
        0xF_FFFF_FFFF_FFFF * e,
        y,
    ));
    assert(b * left == w * (w * (x * b)) && b * right == w * y && b * most == y + ((w / 2) * w)
        * b) by (nonlinear_arith)
        requires
            left == w * (w * x),
            right == w * (u * n),
            most == u * n + (w / 2) * w,
            y == b * (u * n),
    ;
    assert(apart(w * (w * (x * b)), w * y, y + ((w / 2) * w) * b)) by (nonlinear_arith)
        requires
            apart(left, right, most),
            b == 1_000_000_000,
            b * left == w * (w * (x * b)),
            b * right == w * y,
            b * most == y + ((w / 2) * w) * b,
    ;
    let z = w * (x * b);
    assert(apart(0x20_0000_0000_0000 * z, 0x20_0000_0000_0000 * y, y + 0x10_0000_0000_0000 * (
    0x20_0000_0000_0000 * 1_000_000_000)));
    assert(apart(0x20_0000_0000_0000 * z, 0x20_0000_0000_0000 * e, 4 * e + 0x10_0000_0000_0000 * (
    0x20_0000_0000_0000 * 1_000_000_000)));
}

/// A positive factor can be left out of a distance.
proof fn lemma_apart_cancel(a: int, b: int, most: int, p: int)
    requires
        p > 0,
        apart(a * p, b * p, most * p),
    ensures
        apart(a, b, most),
{
    assert(a - b <= most) by (nonlinear_arith)
        requires
            p > 0,
            a * p - b * p <= most * p,
    ;
    assert(-most <= a - b) by (nonlinear_arith)
        requires
            p > 0,
            -(most * p) <= a * p - b * p,
    ;
}

/// A wait that is rounded to whole nanoseconds is exact to one.
proof fn lemma_settled(s: int, n: int, x: int, p: int, r: int)
    requires
        p == unity(),
        0 <= s < 0x2_0000_0000_0000,
        0 <= n < 0x20_0000_0000_0000,
        apart(
            0x20_0000_0000_0000 * (0x20_0000_0000_0000 * (x * 1_000_000_000)),
            0x20_0000_0000_0000 * ((s * n) * p),
            4 * ((s * n) * p) + 0x10_0000_0000_0000 * (0x20_0000_0000_0000 * 1_000_000_000),
        ),
        2 * (r * p) <= 2 * (x * 1_000_000_000) + p,
        2 * (x * 1_000_000_000) <= 2 * (r * p) + p,
    ensures
        apart(0x20_0000_0000_0000 * r, s * n, 0x20_0000_0000_0000),
{
    let y = x * 1_000_000_000;
    let e = (s * n) * p;
    lemma2_to64();
    lemma2_to64_rest();
    lemma_pow2_adds(60, 60);
    lemma_pow2_strictly_increases(120, 1074);
    assert(p > 0x1000_0000_0000_0000 * 0x1000_0000_0000_0000);
    // Four parts of e in w are less than a quarter of w p.
    assert(e <= 0x2_0000_0000_0000 * (0x20_0000_0000_0000 * p)) by (nonlinear_arith)
        requires
            e == (s * n) * p,
            0 <= s <= 0x2_0000_0000_0000,
            0 <= n <= 0x20_0000_0000_0000,
            p > 0,
    ;
    assert(apart(0x20_0000_0000_0000 * (0x20_0000_0000_0000 * y), 0x20_0000_0000_0000 * e,
        0x8_0000_0000_0000 * (0x40_0000_0000_0000 * p)));
    assert(apart(0x20_0000_0000_0000 * y, e, 0x10_0000_0000_0000 * p));
    assert(apart(0x20_0000_0000_0000 * (r * p), e, 0x20_0000_0000_0000 * p));
    assert(0x20_0000_0000_0000 * (r * p) == (0x20_0000_0000_0000 * r) * p) by (nonlinear_arith);
    lemma_apart_cancel(0x20_0000_0000_0000 * r, s * n, 0x20_0000_0000_0000, p);
}

/// A probe changes the rate while it is active, and only then: a positive one
/// adds to the base rate and a negative one multiplies it, up to rounding to a
/// double.
pub proof fn law_probes_change_the_rate(state: Probing, base: Double, now: Instant)
    requires
        base.bits < INFINITY,
        state.active matches Some(probe) ==> match probe.kind {
            ProbeKind::Positive { delta_rate } => delta_rate.bits < INFINITY,
            ProbeKind::Negative { factor } => factor.bits < ONE,
        },
    ensures
        ({
            let rate = state.applied(base, now);
            &&& state.active is None ==> rate == base
            &&& state.active matches Some(probe) ==> {
                &&& probe.until.nanos <= now.nanos ==> rate == base
                &&& probe.until.nanos > now.nanos ==> match probe.kind {
                    ProbeKind::Positive { delta_rate } => apart(
                        0x20_0000_0000_0000 * rate.units() as int,
                        0x20_0000_0000_0000 * (base.units() + delta_rate.units()) as int,
                        (base.units() + delta_rate.units()) as int,
                    ),
                    ProbeKind::Negative { factor } => apart(
                        0x20_0000_0000_0000 * (rate.units() * unity()),
                        0x20_0000_0000_0000 * (base.units() * factor.units()) as int,
                        base.units() * factor.units() + 0x10_0000_0000_0000 * unity(),
                    ),
                }
            }
        }),
{
    lemma_pow2_pos(1074);
    crate::precision::lemma_finite(base);
    if let Some(probe) = state.active {
        match probe.kind {
            ProbeKind::Positive { delta_rate } => {
                crate::precision::lemma_finite(delta_rate);
                lemma_pow2_unfold(3001);
                lemma_pow2_strictly_increases(3001, 4000);
                crate::precision::lemma_rounding_units(base.units() + delta_rate.units());
            },
            ProbeKind::Negative { factor } => {
                crate::double::lemma_order(factor, Double { bits: ONE });
                crate::double::lemma_one();
                lemma_pow2_strictly_increases(1074, 1990);
                crate::precision::lemma_finite(base);
                lemma_finite_small(base);
                lemma_pow2_adds(2100, 1074);
                lemma_pow2_strictly_increases(3174, 4000);
                let (a, b) = (base.units(), factor.units());
                assert(a * b <= pow2(2100) * pow2(1074)) by (nonlinear_arith)
                    requires
                        a <= pow2(2100),
                        b <= pow2(1074),
                ;
                crate::precision::lemma_rounding_any(a * b, pow2(1074));
            },
        }
    }
}

/// A finite number is below two to the power 1024.
proof fn lemma_finite_small(a: Double)
    requires
        a.bits < INFINITY,
    ensures
        a.units() < pow2(2100),
{
    crate::double::lemma_power(2047);
    crate::double::lemma_order(a, Double { bits: INFINITY });
    lemma_pow2_strictly_increases(2098, 2100);
}

/// A decision is made exactly when none is pending and no probe is active. It
/// sets the time of the next one, and takes two random words for the probe and
/// two for the interval, where there is one to choose. Otherwise an ended probe
/// is dropped and no word is taken.
pub proof fn law_decisions_are_made_when_due(
    schedule: ProbeSchedule,
    state: Probing,
    words: Map<nat, u32>,
    now: Instant,
    i: nat,
)
    requires
        schedule.valid(),
        schedule.max_interval.nanos <= MAX_NANOS,
        forall|j: nat| #[trigger] words.dom().contains(j),
    ensures
        ({
            let after = schedule.consulted(state, words, now);
            let left = schedule.words_left(state, words, now);
            let probed = match state.active {
                Some(probe) => probe.until.nanos > now.nanos,
                None => false,
            };
            let pending = match state.next_probe_at {
                Some(at) => at.nanos > now.nanos,
                None => false,
            };
            let fixed = schedule.min_interval.nanos == schedule.max_interval.nanos;
            let low = words[0] + 0x1_0000_0000 * words[1];
            let high = words[2] + 0x1_0000_0000 * words[3];
            &&& probed ==> after == state && left == words
            &&& !probed && pending ==> {
                &&& after.active is None
                &&& after.next_probe_at == state.next_probe_at
                &&& left == words
            }
            &&& !probed && !pending ==> {
                &&& after.active == schedule.chosen(
                    if fixed {
                        low as u64
                    } else {
                        high as u64
                    },
                    now,
                )
                &&& after.next_probe_at is Some
                &&& fixed ==> after.next_probe_at.unwrap().nanos == at_most_last(
                    now.nanos + schedule.min_interval.nanos,
                )
                &&& !fixed ==> after.next_probe_at.unwrap().nanos == at_most_last(
                    now.nanos + schedule.interval(low as u64).nanos,
                )
                &&& fixed ==> left[i] == words[i + 2]
                &&& !fixed ==> left[i] == words[i + 4]
            }
        }),
{
    let two = crate::entropy::dropped(words, 2);
    assert(two.dom().contains(i) && two.dom().contains(i + 2));
    assert(two[i] == words[i + 2]);
    assert(two[i + 2] == words[i + 4]);
    assert(words.dom().contains(2) && words.dom().contains(3));
    assert(two.dom().contains(0) && two.dom().contains(1));
    assert(two[0] == words[2] && two[1] == words[3]);
    assert(crate::entropy::dropped(words, 0) =~= words);
}

/// Probing waits for demand: before the first sample a probe is decided on only
/// while requests are inflight and others are queued. Otherwise the schedule is
/// left alone, and an active probe still ends.
pub proof fn law_probing_waits_for_demand(endpoint: Endpoint, now: Instant)
    ensures
        ({
            let after = endpoint.refreshed(now);
            let wanted = endpoint.latency.samples > 0 || (endpoint.inflight > 0
                && endpoint.pending.len() > 0);
            let schedule = endpoint.tuning.probe_schedule;
            &&& !wanted ==> {
                &&& after.words == endpoint.words
                &&& after.probe.next_probe_at == endpoint.probe.next_probe_at
                &&& after.probe.active is Some ==> after.probe.active == endpoint.probe.active
            }
            &&& wanted ==> {
                &&& after.words == schedule.words_left(endpoint.probe, endpoint.words, now)
                &&& after.probe.next_probe_at == schedule.consulted(
                    endpoint.probe,
                    endpoint.words,
                    now,
                ).next_probe_at
                &&& after.probe.active == schedule.consulted(
                    endpoint.probe,
                    endpoint.words,
                    now,
                ).expired(now).active
            }
            &&& after.probe.active matches Some(probe) ==> probe.until.nanos > now.nanos
        }),
{
    reveal(Endpoint::refreshed);
}

} // verus!
