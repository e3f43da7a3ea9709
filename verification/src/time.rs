//! Durations and instants, counted in whole nanoseconds.

use crate::double::{Double, LEADING, ONE};
use vstd::arithmetic::power2::*;
use vstd::prelude::*;

verus! {

/// The longest duration in nanoseconds: one nanosecond less than two to the
/// power 64 seconds.
pub const MAX_NANOS: u128 = 18_446_744_073_709_551_615_999_999_999;

/// A span of time.
#[derive(Clone, Copy, Debug, PartialEq, Eq, PartialOrd, Ord, Structural)]
pub struct Duration {
    /// The length in nanoseconds.
    pub nanos: u128,
}

/// A point in time.
#[derive(Clone, Copy, Debug, PartialEq, Eq, PartialOrd, Ord, Structural)]
pub struct Instant {
    /// Nanoseconds since an arbitrary origin.
    pub nanos: u128,
}

/// A whole number of nanoseconds, at most the longest duration.
pub open spec fn capped(nanos: int) -> u128 {
    if nanos <= MAX_NANOS {
        nanos as u128
    } else {
        MAX_NANOS
    }
}

/// A number of nanoseconds as a number of seconds: the whole seconds and the
/// rest are converted one by one and added.
pub open spec fn seconds(nanos: nat) -> Double {
    Double::whole(nanos / 1_000_000_000).sum(
        Double::whole(nanos % 1_000_000_000).quotient(Double::whole(1_000_000_000)),
    )
}

impl Duration {
    /// The duration of this many seconds, rounded to the nearest nanosecond
    /// and at most the longest one.
    pub open spec fn of_seconds(secs: Double) -> Duration {
        Duration { nanos: secs.billionths(MAX_NANOS as nat) as u128 }
    }

    /// This duration in seconds.
    pub open spec fn in_seconds(self) -> Double {
        seconds(self.nanos as nat)
    }

    /// The sum of two durations, at most the longest one.
    pub open spec fn joined(self, other: Duration) -> Duration {
        Duration { nanos: capped(self.nanos + other.nanos) }
    }

    /// The shorter of two durations.
    pub open spec fn shorter_of(self, other: Duration) -> Duration {
        if self.nanos <= other.nanos {
            self
        } else {
            other
        }
    }

    /// The longer of two durations.
    pub open spec fn longer_of(self, other: Duration) -> Duration {
        if self.nanos >= other.nanos {
            self
        } else {
            other
        }
    }

    /// The duration without `other`, nothing where that is longer.
    pub open spec fn lessened(self, other: Duration) -> Duration {
        if self.nanos >= other.nanos {
            Duration { nanos: (self.nanos - other.nanos) as u128 }
        } else {
            Duration { nanos: 0 }
        }
    }

    /// Creates a duration of whole seconds.
    pub fn from_secs(secs: u64) -> (r: Duration)
        ensures
            r.nanos == secs * 1_000_000_000,
    {
        Duration { nanos: secs as u128 * 1_000_000_000 }
    }

    /// Creates a duration of whole milliseconds.
    pub fn from_millis(millis: u64) -> (r: Duration)
        ensures
            r.nanos == millis * 1_000_000,
    {
        Duration { nanos: millis as u128 * 1_000_000 }
    }

    /// Creates a duration of whole microseconds.
    pub fn from_micros(micros: u64) -> (r: Duration)
        ensures
            r.nanos == micros * 1_000,
    {
        Duration { nanos: micros as u128 * 1_000 }
    }

    /// Creates a duration of whole nanoseconds.
    pub fn from_nanos(nanos: u64) -> (r: Duration)
        ensures
            r.nanos == nanos,
    {
        Duration { nanos: nanos as u128 }
    }

    /// Creates a duration from a number of seconds.
    pub fn from_seconds(secs: Double) -> (r: Duration)
        ensures
            r == Duration::of_seconds(secs),
    {
        Duration { nanos: secs.to_billionths(MAX_NANOS) }
    }

    /// Returns the duration in seconds.
    pub fn as_seconds(self) -> (r: Double)
        ensures
            r == self.in_seconds(),
    {
        let whole: u128 = self.nanos / 1_000_000_000;
        let rest: u128 = self.nanos % 1_000_000_000;
        Double::from_int(whole).plus(
            Double::from_int(rest).over(Double::from_int(1_000_000_000)),
        )
    }

    /// Returns whether the duration is empty.
    pub fn is_zero(self) -> (r: bool)
        ensures
            r == (self.nanos == 0),
    {
        self.nanos == 0
    }

    /// Adds a duration.
    pub fn saturating_add(self, other: Duration) -> (r: Duration)
        ensures
            r == self.joined(other),
    {
        if self.nanos <= MAX_NANOS && other.nanos <= MAX_NANOS - self.nanos {
            Duration { nanos: self.nanos + other.nanos }
        } else {
            Duration { nanos: MAX_NANOS }
        }
    }

    /// Subtracts a duration.
    pub fn saturating_sub(self, other: Duration) -> (r: Duration)
        ensures
            r == self.lessened(other),
    {
        if self.nanos >= other.nanos {
            Duration { nanos: self.nanos - other.nanos }
        } else {
            Duration { nanos: 0 }
        }
    }

    /// Multiplies the duration.
    pub fn saturating_mul(self, factor: u32) -> (r: Duration)
        ensures
            r.nanos == capped(self.nanos * factor),
    {
        if factor == 0 {
            assert(self.nanos * factor == 0) by (nonlinear_arith)
                requires
                    factor == 0,
            ;
            return Duration { nanos: 0 };
        }
        proof {
            let limit = MAX_NANOS as int / factor as int;
            vstd::arithmetic::div_mod::lemma_fundamental_div_mod(MAX_NANOS as int, factor as int);
            vstd::arithmetic::div_mod::lemma_mod_bound(MAX_NANOS as int, factor as int);
            if self.nanos <= limit {
                assert(self.nanos * factor <= MAX_NANOS) by (nonlinear_arith)
                    requires
                        self.nanos <= limit,
                        factor * limit <= MAX_NANOS,
                ;
            } else {
                assert(self.nanos * factor > MAX_NANOS) by (nonlinear_arith)
                    requires
                        self.nanos >= limit + 1,
                        factor * limit + factor > MAX_NANOS,
                ;
            }
        }
        if self.nanos <= MAX_NANOS / factor as u128 {
            Duration { nanos: self.nanos * factor as u128 }
        } else {
            Duration { nanos: MAX_NANOS }
        }
    }

    /// Returns the shorter of two durations.
    pub fn shorter(self, other: Duration) -> (r: Duration)
        ensures
            r == self.shorter_of(other),
    {
        if self.nanos <= other.nanos {
            self
        } else {
            other
        }
    }

    /// Returns the longer of two durations.
    pub fn longer(self, other: Duration) -> (r: Duration)
        ensures
            r == self.longer_of(other),
    {
        if self.nanos >= other.nanos {
            self
        } else {
            other
        }
    }
}

impl Instant {
    /// The instant this much later, at most the last one.
    pub open spec fn later(self, duration: Duration) -> Instant {
        if self.nanos + duration.nanos <= u128::MAX {
            Instant { nanos: (self.nanos + duration.nanos) as u128 }
        } else {
            Instant { nanos: u128::MAX }
        }
    }

    /// The time from an earlier instant to this one, at most the longest
    /// duration; nothing where the other instant is not earlier.
    pub open spec fn since(self, earlier: Instant) -> Duration {
        if self.nanos >= earlier.nanos {
            Duration { nanos: capped(self.nanos - earlier.nanos) }
        } else {
            Duration { nanos: 0 }
        }
    }

    /// The later of two instants.
    pub open spec fn latest(self, other: Instant) -> Instant {
        if self.nanos >= other.nanos {
            self
        } else {
            other
        }
    }

    /// The earlier of two instants.
    pub open spec fn earliest(self, other: Instant) -> Instant {
        if self.nanos <= other.nanos {
            self
        } else {
            other
        }
    }

    /// Creates an instant that lies this many nanoseconds after the origin.
    pub fn from_nanos(nanos: u128) -> (r: Instant)
        ensures
            r.nanos == nanos,
    {
        Instant { nanos }
    }

    /// Returns the time elapsed since an earlier instant, clamped to zero if
    /// the clock moved backward.
    pub fn saturating_duration_since(self, earlier: Instant) -> (r: Duration)
        ensures
            r == self.since(earlier),
    {
        if self.nanos >= earlier.nanos {
            let nanos: u128 = self.nanos - earlier.nanos;
            if nanos <= MAX_NANOS {
                Duration { nanos }
            } else {
                Duration { nanos: MAX_NANOS }
            }
        } else {
            Duration { nanos: 0 }
        }
    }

    /// Returns the instant this much later.
    pub fn plus(self, duration: Duration) -> (r: Instant)
        ensures
            r == self.later(duration),
    {
        if duration.nanos <= u128::MAX - self.nanos {
            Instant { nanos: self.nanos + duration.nanos }
        } else {
            Instant { nanos: u128::MAX }
        }
    }

    /// Returns the later of two instants.
    pub fn later_of(self, other: Instant) -> (r: Instant)
        ensures
            r == self.latest(other),
    {
        if self.nanos >= other.nanos {
            self
        } else {
            other
        }
    }

    /// Returns the earlier of two instants.
    pub fn earlier_of(self, other: Instant) -> (r: Instant)
        ensures
            r == self.earliest(other),
    {
        if self.nanos <= other.nanos {
            self
        } else {
            other
        }
    }
}

/// A duration that is not empty has a positive number of seconds, an empty one
/// has none.
pub proof fn lemma_seconds(duration: Duration)
    ensures
        duration.nanos > 0 ==> duration.in_seconds().bits > 0,
        duration.nanos == 0 ==> duration.in_seconds().bits == 0,
{
    let billion = Double::whole(1_000_000_000);
    crate::double::lemma_whole_positive(1_000_000_000);
    let whole = duration.nanos as nat / 1_000_000_000;
    let rest = duration.nanos as nat % 1_000_000_000;
    let part = Double::whole(rest).quotient(billion);
    crate::double::lemma_sum_at_least(Double::whole(whole), part);
    if whole > 0 {
        crate::double::lemma_whole_positive(whole);
    } else if rest > 0 {
        crate::double::lemma_whole_positive(rest);
        crate::double::lemma_one();
        crate::double::lemma_order(Double { bits: ONE }, Double::whole(rest));
        lemma2_to64();
        crate::double::lemma_whole_at_most(1_000_000_000, 30);
        crate::double::lemma_power(1053);
        crate::double::lemma_order(billion, Double { bits: (1053 * LEADING) as u64 });
        crate::double::lemma_order(Double { bits: ONE }, billion);
        lemma_pow2_pos(1074);
        lemma_pow2_adds(1074, 30);
        lemma_pow2_strictly_increases(30, 1074);
        let p = pow2(1074);
        assert(p * p >= p * pow2(30)) by (nonlinear_arith)
            requires
                p > pow2(30),
        ;
        assert(Double::whole(rest).units() * p >= p * p) by (nonlinear_arith)
            requires
                Double::whole(rest).units() >= p,
        ;
        crate::double::lemma_positive(Double::whole(rest).units() * p, billion.units());
    } else {
        crate::double::lemma_nothing(billion);
    }
}

/// No seconds are an empty duration.
pub proof fn lemma_no_seconds()
    ensures
        Duration::of_seconds(Double { bits: 0 }).nanos == 0,
{
    lemma2_to64();
    assert((Double { bits: 0 }).units() == 0);
    lemma_pow2_pos(1074);
    vstd::arithmetic::div_mod::lemma_basic_div(0, pow2(1074) as int);
    vstd::arithmetic::div_mod::lemma_small_mod(0, pow2(1074));
}

/// Instants and durations add up: what is added can be measured and taken away
/// again, and two steps are as long as their sum.
pub proof fn law_steps_add_up(at: Instant, first: Duration, second: Duration)
    requires
        first.nanos + second.nanos <= MAX_NANOS,
        at.nanos + first.nanos + second.nanos <= u128::MAX,
    ensures
        at.later(first).nanos == at.nanos + first.nanos,
        at.later(first).since(at) == first,
        first.nanos > 0 ==> at.since(at.later(first)).nanos == 0,
        first.joined(second).nanos == first.nanos + second.nanos,
        at.later(first).later(second) == at.later(first.joined(second)),
        first.joined(second).lessened(second) == first,
        first.lessened(first.joined(second)).nanos == 0,
{
}

/// Time does not overflow: sums stay at the last instant and at the longest
/// duration, and never lie before what was added to.
pub proof fn law_sums_saturate(at: Instant, a: Duration, b: Duration)
    requires
        a.nanos <= MAX_NANOS,
    ensures
        at.later(a).nanos >= at.nanos,
        at.nanos + a.nanos >= u128::MAX ==> at.later(a).nanos == u128::MAX,
        a.joined(b).nanos >= a.nanos,
        a.joined(b).nanos <= MAX_NANOS,
        a.nanos + b.nanos >= MAX_NANOS ==> a.joined(b).nanos == MAX_NANOS,
{
}

/// Of two, the later, earlier, longer or shorter one is one of them, and no other
/// is beyond it.
pub proof fn law_extremes_are_chosen(a: Instant, b: Instant, c: Duration, d: Duration)
    ensures
        a.latest(b) == a || a.latest(b) == b,
        a.latest(b).nanos >= a.nanos && a.latest(b).nanos >= b.nanos,
        a.earliest(b) == a || a.earliest(b) == b,
        a.earliest(b).nanos <= a.nanos && a.earliest(b).nanos <= b.nanos,
        c.longer_of(d) == c || c.longer_of(d) == d,
        c.longer_of(d).nanos >= c.nanos && c.longer_of(d).nanos >= d.nanos,
        c.shorter_of(d) == c || c.shorter_of(d) == d,
        c.shorter_of(d).nanos <= c.nanos && c.shorter_of(d).nanos <= d.nanos,
{
}

} // verus!
