//! A single-rate, spacing-oriented GCRA pacer.

use crate::double::{Double, INFINITY, ONE};
use crate::time::{Duration, Instant};
use vstd::prelude::*;

verus! {

/// The encoding of two to the power 64, the number of seconds from which on a
/// duration cannot be represented.
pub const SECONDS_LIMIT: u64 = 0x43F0_0000_0000_0000;

/// A pacer: the spacing between requests, and the theoretical arrival time of
/// the next request that it admits.
#[derive(Clone, Copy)]
pub struct Pacing {
    /// The spacing between requests.
    pub interval: Duration,
    /// The theoretical arrival time.
    pub tat: Instant,
}

/// Whether a rate is positive and has an interval that can be represented.
pub open spec fn representable(rate: Double) -> bool {
    &&& 0 < rate.bits < INFINITY
    &&& (Double { bits: ONE }).quotient(rate).bits < SECONDS_LIMIT
}

/// The spacing of requests at a rate, between one nanosecond and the longest
/// duration.
pub open spec fn spacing(rate: Double) -> Duration {
    Duration::of_seconds((Double { bits: ONE }).quotient(rate)).longer_of(Duration { nanos: 1 })
}

impl Pacing {
    /// The next time a request could be dispatched.
    pub open spec fn next_at(self, now: Instant) -> Instant {
        self.tat.latest(now)
    }

    /// The pacer after a dispatch.
    pub open spec fn committed(self, at: Instant) -> Pacing {
        Pacing { interval: self.interval, tat: self.next_at(at).later(self.interval) }
    }

    /// The average dispatch rate.
    pub open spec fn rate(self) -> Double {
        (Double { bits: ONE }).quotient(self.interval.in_seconds())
    }

    /// The part of an interval that is left until the theoretical arrival time.
    pub open spec fn phase(self, now: Instant) -> Double {
        self.tat.since(now).in_seconds().quotient(self.interval.in_seconds())
    }

    /// The pacer with another interval, of which the same part is left. Where
    /// the interval does not change, nothing does.
    pub open spec fn respaced(self, interval: Duration, now: Instant) -> Pacing {
        if interval == self.interval {
            self
        } else {
            Pacing {
                interval,
                tat: now.later(
                    Duration::of_seconds(self.phase(now).product(interval.in_seconds())),
                ),
            }
        }
    }
}

/// A single-rate, spacing-oriented GCRA pacer.
///
/// `tat` is the theoretical arrival time of the next request admitted by the
/// pacer. It gives callers a dispatch deadline and a cheap virtual queue-tail
/// prediction without adding burst capacity.
#[derive(Clone, Debug)]
pub struct Gcra {
    interval: Duration,
    tat: Instant,
}

/// The result of reserving one slot in a [`Gcra`].
#[derive(Clone, Copy, Debug, PartialEq, Eq, Structural)]
pub struct GcraReservation {
    /// When the reserved request may be sent.
    pub scheduled_at: Instant,
    /// The theoretical arrival time after this reservation.
    pub next_tat: Instant,
}

impl View for Gcra {
    type V = Pacing;

    closed spec fn view(&self) -> Pacing {
        Pacing { interval: self.interval, tat: self.tat }
    }
}

impl Gcra {
    /// Creates a pacer with one request available immediately.
    pub fn new(rate_per_second: Double, now: Instant) -> (r: Gcra)
        requires
            representable(rate_per_second),
        ensures
            r@ == (Pacing { interval: spacing(rate_per_second), tat: now }),
    {
        Gcra { interval: rate_to_interval(rate_per_second), tat: now }
    }

    /// Creates a pacer with a given spacing and one request available
    /// immediately.
    pub fn with_interval(interval: Duration, now: Instant) -> (r: Gcra)
        ensures
            r@ == (Pacing { interval, tat: now }),
    {
        Gcra { interval, tat: now }
    }

    /// Returns the configured average dispatch rate.
    pub fn rate(&self) -> (r: Double)
        ensures
            r == self@.rate(),
    {
        Double { bits: ONE }.over(self.interval.as_seconds())
    }

    /// Returns the spacing between requests.
    pub fn interval(&self) -> (r: Duration)
        ensures
            r == self@.interval,
    {
        self.interval
    }

    /// Returns the next time a request could be dispatched without reserving it.
    pub fn next_at(&self, now: Instant) -> (r: Instant)
        ensures
            r == self@.next_at(now),
    {
        self.tat.later_of(now)
    }

    /// Reserves one pacing slot.
    pub fn reserve(&mut self, now: Instant) -> (r: GcraReservation)
        ensures
            r.scheduled_at == old(self)@.next_at(now),
            r.next_tat == final(self)@.tat,
            final(self)@ == old(self)@.committed(now),
    {
        let scheduled_at = self.next_at(now);
        let next_tat = saturating_add(scheduled_at, self.interval);
        self.tat = next_tat;
        GcraReservation { scheduled_at, next_tat }
    }

    /// Cancels the most recently reserved slot.
    ///
    /// An earlier reservation cannot be removed without rebuilding the virtual
    /// queue, which is why the endpoint controller owns that operation.
    pub fn cancel_last(&mut self, reservation: GcraReservation) -> (r: bool)
        ensures
            r == (old(self)@.tat == reservation.next_tat),
            r ==> final(self)@ == (Pacing { tat: reservation.scheduled_at, ..old(self)@ }),
            !r ==> final(self)@ == old(self)@,
    {
        if self.tat == reservation.next_tat {
            self.tat = reservation.scheduled_at;
            true
        } else {
            false
        }
    }

    /// Changes the rate while preserving the current pacing phase.
    pub fn set_rate(&mut self, rate_per_second: Double, now: Instant)
        requires
            representable(rate_per_second),
        ensures
            final(self)@ == old(self)@.respaced(spacing(rate_per_second), now),
    {
        let interval = rate_to_interval(rate_per_second);
        self.set_interval(interval, now);
    }

    /// Changes the spacing while preserving the current pacing phase.
    pub fn set_interval(&mut self, interval: Duration, now: Instant)
        ensures
            final(self)@ == old(self)@.respaced(interval, now),
    {
        if interval == self.interval {
            return;
        }
        let phase = self.tat.saturating_duration_since(now).as_seconds().over(
            self.interval.as_seconds(),
        );
        self.interval = interval;
        let remaining = Duration::from_seconds(phase.times(interval.as_seconds()));
        self.tat = saturating_add(now, remaining);
    }

    /// Commits a request that actually dispatched at `dispatched_at`.
    ///
    /// If the transport was not ready at the predicted time, the missed time
    /// is reflected as pacing debt. This prevents a burst after a readiness
    /// stall. Speculative queue reservations belong to the endpoint controller
    /// and are not committed here.
    pub fn commit(&mut self, dispatched_at: Instant)
        ensures
            final(self)@ == old(self)@.committed(dispatched_at),
    {
        let base = self.next_at(dispatched_at);
        self.tat = saturating_add(base, self.interval);
    }

    /// Returns the theoretical arrival time, for diagnostics and prediction.
    pub fn tat(&self) -> (r: Instant)
        ensures
            r == self@.tat,
    {
        self.tat
    }
}

/// Converts a rate to the spacing between requests.
///
/// Below nanosecond precision a timer cannot make a more useful distinction,
/// and above the longest duration there is nothing left to represent.
pub fn rate_to_interval(rate_per_second: Double) -> (r: Duration)
    ensures
        r == spacing(rate_per_second),
{
    let interval = Duration::from_seconds(Double { bits: ONE }.over(rate_per_second));
    interval.longer(Duration { nanos: 1 })
}

/// Adds a duration to an instant, to the last instant at most.
pub fn saturating_add(instant: Instant, duration: Duration) -> (r: Instant)
    ensures
        r == instant.later(duration),
{
    instant.plus(duration)
}

/// Committed dispatches keep their distance: from a dispatch on, the next one
/// is a whole interval away, or at the last instant.
pub proof fn law_no_burst(pacer: Pacing, at: Instant, now: Instant)
    ensures
        pacer.committed(at).next_at(now).nanos >= at.later(pacer.interval).nanos,
        pacer.committed(at).next_at(now).nanos >= pacer.tat.later(pacer.interval).nanos,
{
}

/// A pacer that is idle stays available whatever its spacing becomes.
pub proof fn law_idle_stays_available(pacer: Pacing, interval: Duration, now: Instant)
    requires
        pacer.tat.nanos <= now.nanos,
        pacer.interval.nanos > 0,
    ensures
        pacer.respaced(interval, now).next_at(now) == now,
{
    let none = Duration { nanos: 0 };
    assert(pacer.tat.since(now) == none);
    crate::time::lemma_seconds(none);
    crate::time::lemma_seconds(pacer.interval);
    crate::double::lemma_nothing(pacer.interval.in_seconds());
    crate::double::lemma_nothing(interval.in_seconds());
    crate::time::lemma_no_seconds();
}

/// A higher rate has an interval that is no longer.
pub proof fn law_higher_rates_are_spaced_closer(low: Double, high: Double)
    requires
        0 < low.bits <= high.bits,
    ensures
        spacing(high).nanos <= spacing(low).nanos,
{
    let one = Double { bits: ONE };
    let zero = Double { bits: 0 };
    crate::double::lemma_order(low, high);
    crate::double::lemma_order(zero, low);
    let num = one.units() * vstd::arithmetic::power2::pow2(1074);
    vstd::arithmetic::mul::lemma_mul_inequality(
        low.units() as int,
        high.units() as int,
        num as int,
    );
    vstd::arithmetic::mul::lemma_mul_is_commutative(num as int, low.units() as int);
    vstd::arithmetic::mul::lemma_mul_is_commutative(num as int, high.units() as int);
    crate::double::lemma_monotone(num, high.units(), num, low.units());
    crate::precision::lemma_of_seconds_monotone(one.quotient(high), one.quotient(low));
}

/// The precision to which a change of the rate keeps the part of an interval
/// that is left: one part in two to the power 50, less two.
pub const PHASE_PRECISION: u64 = 0x3_FFFF_FFFF_FFFE;

/// The waits that a shorter interval never lengthens: those below two to the
/// power 21 seconds. From there on a wait and its double-precision number of
/// seconds can be apart by so much that rounding shows.
pub const SETTLED_NANOS: u64 = 2_097_152_000_000_000;

/// A change of the rate keeps the part of an interval that is left: the waits
/// before and after relate as the intervals do, up to rounding to whole
/// nanoseconds and one part in two to the power 50. Where the new wait is below
/// two to the power 49 nanoseconds, that is within one nanosecond. An unchanged
/// interval moves nothing, no wait stays no wait, and a shorter interval never
/// lengthens a wait of less than two to the power 21 seconds.
pub proof fn law_rate_changes_keep_the_phase(pacer: Pacing, interval: Duration, now: Instant)
    requires
        0 < pacer.interval.nanos <= crate::time::MAX_NANOS,
        0 < interval.nanos <= crate::time::MAX_NANOS,
        now.nanos + crate::time::MAX_NANOS <= u128::MAX,
        pacer.tat.nanos <= now.nanos + crate::time::MAX_NANOS,
    ensures
        interval == pacer.interval ==> pacer.respaced(interval, now) == pacer,
        ({
            let before = pacer.next_at(now).nanos - now.nanos;
            let after = pacer.respaced(interval, now).next_at(now).nanos - now.nanos;
            let exact = before * interval.nanos;
            let m = PHASE_PRECISION as int;
            &&& before == 0 ==> after == 0
            &&& 2 * (m * (after * pacer.interval.nanos)) <= 2 * ((m + 1) * exact) + m
                * pacer.interval.nanos
            &&& after < crate::time::MAX_NANOS ==> 2 * (m * exact) <= (m + 1) * (2 * (after
                * pacer.interval.nanos) + pacer.interval.nanos)
            &&& exact <= 0x1_FFFF_FFFF_FFFF * pacer.interval.nanos ==> exact
                - pacer.interval.nanos <= after * pacer.interval.nanos <= exact
                + pacer.interval.nanos
            &&& interval.nanos <= pacer.interval.nanos && before < SETTLED_NANOS ==> after
                <= before
        }),
{
    let before = pacer.next_at(now).nanos - now.nanos;
    let after = pacer.respaced(interval, now).next_at(now).nanos - now.nanos;
    let (i, j) = (pacer.interval.nanos as int, interval.nanos as int);
    let m = PHASE_PRECISION as int;
    assert(m * i >= 0 && i >= 0) by (nonlinear_arith)
        requires
            m >= 0,
            i >= 0,
    ;
    if interval == pacer.interval {
        assert(m * (before * i) <= (m + 1) * (before * i)) by (nonlinear_arith)
            requires
                before >= 0,
                i >= 0,
        ;
        assert((m + 1) * (2 * (before * i) + i) >= 2 * (m * (before * i))) by (nonlinear_arith)
            requires
                before >= 0,
                i >= 0,
                m >= 0,
        ;
    } else if before == 0 {
        law_idle_stays_available(pacer, interval, now);
        assert(after == 0);
        assert(0 * i == 0 && 0 * j == 0 && m * 0 == 0 && (m + 1) * 0 == 0) by (nonlinear_arith);
        assert((m + 1) * (2 * 0 + i) >= 0) by (nonlinear_arith)
            requires
                m >= 0,
                i >= 0,
        ;
    } else {
        let wait = pacer.tat.since(now);
        assert(wait.nanos == before);
        let x = wait.in_seconds().quotient(pacer.interval.in_seconds()).product(
            interval.in_seconds(),
        ).units();
        let p = vstd::arithmetic::power2::pow2(1074);
        vstd::arithmetic::power2::lemma_pow2_pos(1074);
        crate::precision::lemma_near_scaled(wait, pacer.interval, interval);
        crate::precision::lemma_rounded(x * 1_000_000_000, p);
        let r = crate::double::rounded(x * 1_000_000_000, p) as int;
        let y = (x * 1_000_000_000) as int;
        assert(after == if r <= crate::time::MAX_NANOS {
            r
        } else {
            crate::time::MAX_NANOS as int
        });
        lemma_rounded_phase(y, r, p as int, before, i, j, m);
        assert(after <= r);
        assert(m * (after * i) <= m * (r * i)) by (nonlinear_arith)
            requires
                after <= r,
                m >= 0,
                i >= 0,
        ;
        if j <= i && before < SETTLED_NANOS {
            lemma_never_longer(wait, pacer.interval, interval);
        }
    }
    if before * j <= 0x1_FFFF_FFFF_FFFF * i {
        lemma_within_one(before * j, after, i);
    }
}

/// A wait that is known up to half a nanosecond and one part in two to the power
/// 50 is known to a nanosecond where it is small enough.
proof fn lemma_within_one(exact: int, after: int, i: int)
    requires
        i > 0,
        after >= 0,
        0 <= exact <= 0x1_FFFF_FFFF_FFFF * i,
        2 * (PHASE_PRECISION * (after * i)) <= 2 * ((PHASE_PRECISION + 1) * exact)
            + PHASE_PRECISION * i,
        after < crate::time::MAX_NANOS ==> 2 * (PHASE_PRECISION * exact) <= (PHASE_PRECISION + 1)
            * (2 * (after * i) + i),
    ensures
        exact - i <= after * i <= exact + i,
{
    let x = after * i;
    let m = 0x3_FFFF_FFFF_FFFEint;
    assert(2 * (m * x) <= 2 * ((m + 1) * exact) + m * i);
    assert(2 * (0x3_FFFF_FFFF_FFFE * x) <= 2 * (0x3_FFFF_FFFF_FFFF * exact) + 0x3_FFFF_FFFF_FFFE
        * i);
    assert(x <= exact + i);
    if after >= crate::time::MAX_NANOS {
        assert(x >= 0x4_0000_0000_0000 * i) by (nonlinear_arith)
            requires
                x == after * i,
                after >= 0x4_0000_0000_0000,
                i > 0,
        ;
    }
    assert(2 * (m * exact) <= (m + 1) * (2 * x + i));
    assert(2 * (0x3_FFFF_FFFF_FFFE * exact) <= 0x3_FFFF_FFFF_FFFF * (2 * x + i));
}

/// A shorter interval does not lengthen a wait whose rounding errors stay below
/// half a nanosecond.
proof fn lemma_never_longer(wait: Duration, of: Duration, to: Duration)
    requires
        0 < wait.nanos < SETTLED_NANOS,
        0 < to.nanos <= of.nanos <= crate::time::MAX_NANOS,
    ensures
        Duration::of_seconds(
            wait.in_seconds().quotient(of.in_seconds()).product(to.in_seconds()),
        ).nanos <= wait.nanos,
{
    let p = vstd::arithmetic::power2::pow2(1074);
    let h = vstd::arithmetic::power2::pow2(1022);
    let w = wait.in_seconds();
    let x = w.quotient(of.in_seconds()).product(to.in_seconds()).units();
    let n = wait.nanos as int;
    vstd::arithmetic::power2::lemma2_to64();
    vstd::arithmetic::power2::lemma2_to64_rest();
    vstd::arithmetic::power2::lemma_pow2_pos(1022);
    vstd::arithmetic::power2::lemma_pow2_adds(52, 1022);
    vstd::arithmetic::power2::lemma_pow2_adds(19, 1022);
    vstd::arithmetic::power2::lemma_pow2_adds(20, 1022);
    vstd::arithmetic::power2::lemma_pow2_adds(21, 1022);
    vstd::arithmetic::power2::lemma_pow2_adds(21, 1074);
    crate::precision::lemma_seconds_close(wait, 21);
    crate::precision::lemma_scaled_down(wait, of, to);
    crate::precision::lemma_rounded(x * 1_000_000_000, p);
    crate::double::lemma_parts(w);
    let (m, k) = (w.mantissa(), w.scale());
    assert(n * p <= (SETTLED_NANOS - 1) * p) by (nonlinear_arith)
        requires
            n <= SETTLED_NANOS - 1,
            p > 0,
    ;
    assert(w.units() < 0x20_0000 * p);
    // So one unit in the last place is at most two to the power -32.
    assert(vstd::arithmetic::power2::pow2(k) <= 0x10_0000 * h) by {
        if k >= 1043 {
            if k > 1043 {
                vstd::arithmetic::power2::lemma_pow2_strictly_increases(1043, k);
            }
            assert(m * vstd::arithmetic::power2::pow2(k) >= 0x10_0000_0000_0000 * (0x20_0000 * h))
                by (nonlinear_arith)
                requires
                    m >= 0x10_0000_0000_0000,
                    vstd::arithmetic::power2::pow2(k) >= 0x20_0000 * h,
                    h >= 0,
            ;
        } else if k < 1042 {
            vstd::arithmetic::power2::lemma_pow2_strictly_increases(k, 1042);
        }
    }
    let r = crate::double::rounded(x * 1_000_000_000, p) as int;
    if r > n {
        assert(r * p >= n * p + p) by (nonlinear_arith)
            requires
                r >= n + 1,
                p > 0,
        ;
    }
}

/// The bounds of a rounded wait follow from those of the exact one.
proof fn lemma_rounded_phase(y: int, r: int, p: int, before: int, i: int, j: int, m: int)
    requires
        p > 0,
        i > 0,
        j > 0,
        before > 0,
        m == PHASE_PRECISION,
        y >= 0,
        crate::precision::near(y * i, (before * j) * p, m),
        2 * (r * p) <= 2 * y + p,
        2 * y <= 2 * (r * p) + p,
    ensures
        2 * (m * (r * i)) <= 2 * ((m + 1) * (before * j)) + m * i,
        2 * (m * (before * j)) <= (m + 1) * (2 * (r * i) + i),
{
    assert((2 * (m * (r * i))) * p <= (2 * ((m + 1) * (before * j)) + m * i) * p)
        by (nonlinear_arith)
        requires
            2 * (r * p) <= 2 * y + p,
            m * (y * i) <= (m + 1) * ((before * j) * p),
            m >= 0,
            i >= 0,
    ;
    if 2 * (m * (r * i)) > 2 * ((m + 1) * (before * j)) + m * i {
        vstd::arithmetic::mul::lemma_mul_strict_inequality(
            2 * ((m + 1) * (before * j)) + m * i,
            2 * (m * (r * i)),
            p,
        );
    }
    assert((2 * (m * (before * j))) * p <= ((m + 1) * (2 * (r * i) + i)) * p)
        by (nonlinear_arith)
        requires
            2 * y <= 2 * (r * p) + p,
            m * ((before * j) * p) <= (m + 1) * (y * i),
            m >= 0,
            i >= 0,
    ;
    if 2 * (m * (before * j)) > (m + 1) * (2 * (r * i) + i) {
        vstd::arithmetic::mul::lemma_mul_strict_inequality(
            (m + 1) * (2 * (r * i) + i),
            2 * (m * (before * j)),
            p,
        );
    }
}

/// A slot that is reserved and cancelled again leaves no trace: every later
/// request is offered the time it would have been offered before.
pub proof fn law_cancelled_slot_leaves_no_trace(pacer: Pacing, now: Instant, later: Instant)
    requires
        now.nanos <= later.nanos,
    ensures
        (Pacing { tat: pacer.next_at(now), ..pacer.committed(now) }).next_at(later)
            == pacer.next_at(later),
{
}

} // verus!
