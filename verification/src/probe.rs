//! Temporary perturbations of an endpoint's rate.

use crate::double::{Double, INFINITY, ONE};
use crate::entropy::next_wide;
use crate::gcra::saturating_add;
use crate::time::{Duration, Instant};
use rand::rngs::StdRng;
use vstd::prelude::*;

verus! {

/// The encoding of two to the power -53.
pub const FRACTION_UNIT: u64 = 0x3CA0_0000_0000_0000;

/// The temporary perturbations supported by Loadpace.
#[derive(Clone, Copy, Debug, PartialEq, Eq, Structural)]
pub enum ProbeKind {
    /// Temporarily add a fixed number of requests per second to the base rate.
    Positive {
        /// The added rate.
        delta_rate: Double,
    },
    /// Temporarily multiply the base rate.
    Negative {
        /// The multiplier.
        factor: Double,
    },
}

/// An active temporary probe.
#[derive(Clone, Copy, Debug, PartialEq, Eq, Structural)]
pub struct Probe {
    /// What the probe does to the rate.
    pub kind: ProbeKind,
    /// When the probe ends.
    pub until: Instant,
}

/// The probe of one endpoint, and when the next one may be decided on.
#[derive(Clone, Copy)]
pub struct Probing {
    /// The probe that was started last, until it is found to have ended.
    pub active: Option<Probe>,
    /// When the next decision may be made.
    pub next_probe_at: Option<Instant>,
}

/// A uniformly distributed number in [0, 1): the highest 53 bits of a word.
pub open spec fn fraction(word: u64) -> Double {
    Double::whole(word as nat / 2048).product(Double { bits: FRACTION_UNIT })
}

impl Probing {
    /// No probe, and none decided on.
    pub open spec fn none() -> Probing {
        Probing { active: None, next_probe_at: None }
    }

    /// The state once a probe that has ended is dropped.
    pub open spec fn expired(self, now: Instant) -> Probing {
        match self.active {
            Some(probe) if probe.until.nanos <= now.nanos => Probing { active: None, ..self },
            _ => self,
        }
    }

    /// A base rate under the probe that is active at `now`.
    pub open spec fn applied(self, base: Double, now: Instant) -> Double {
        match self.expired(now).active {
            None => base,
            Some(probe) => match probe.kind {
                ProbeKind::Positive { delta_rate } => base.sum(delta_rate),
                ProbeKind::Negative { factor } => base.product(factor),
            },
        }
    }

    /// Whether a decision is due: no probe is active and the time of the next
    /// decision, which is now if none was set, has come.
    pub open spec fn due(self, now: Instant) -> bool {
        &&& self.expired(now).active is None
        &&& (self.next_probe_at matches Some(at) ==> at.nanos <= now.nanos)
    }
}

/// Per-endpoint probe state.
#[derive(Clone, Debug)]
pub struct ProbeState {
    active: Option<Probe>,
    next_probe_at: Option<Instant>,
}

impl View for ProbeState {
    type V = Probing;

    closed spec fn view(&self) -> Probing {
        Probing { active: self.active, next_probe_at: self.next_probe_at }
    }
}

impl Default for ProbeState {
    fn default() -> (r: ProbeState)
        ensures
            r@ == Probing::none(),
    {
        ProbeState { active: None, next_probe_at: None }
    }
}

impl ProbeState {
    /// Creates state without a probe.
    pub fn new() -> (r: ProbeState)
        ensures
            r@ == Probing::none(),
    {
        ProbeState { active: None, next_probe_at: None }
    }

    /// Starts a temporary positive probe.
    pub fn start_positive(&mut self, delta_rate: Double, until: Instant)
        requires
            0 < delta_rate.bits < INFINITY,
        ensures
            final(self)@ == (Probing {
                active: Some(Probe { kind: ProbeKind::Positive { delta_rate }, until }),
                ..old(self)@
            }),
    {
        self.active = Some(Probe { kind: ProbeKind::Positive { delta_rate }, until });
    }

    /// Starts a temporary negative probe.
    pub fn start_negative(&mut self, factor: Double, until: Instant)
        requires
            0 < factor.bits < ONE,
        ensures
            final(self)@ == (Probing {
                active: Some(Probe { kind: ProbeKind::Negative { factor }, until }),
                ..old(self)@
            }),
    {
        self.active = Some(Probe { kind: ProbeKind::Negative { factor }, until });
    }

    /// Drops a probe that has ended and returns the one that is left.
    pub fn active(&mut self, now: Instant) -> (r: Option<Probe>)
        ensures
            final(self)@ == old(self)@.expired(now),
            r == old(self)@.expired(now).active,
    {
        if let Some(probe) = self.active {
            if probe.until.nanos <= now.nanos {
                self.active = None;
            }
        }
        self.active
    }

    /// Applies the active probe to a base rate.
    pub fn effective_rate(&mut self, base: Double, now: Instant) -> (r: Double)
        ensures
            final(self)@ == old(self)@.expired(now),
            r == old(self)@.applied(base, now),
    {
        match self.active(now) {
            None => base,
            Some(probe) => match probe.kind {
                ProbeKind::Positive { delta_rate } => base.plus(delta_rate),
                ProbeKind::Negative { factor } => base.times(factor),
            },
        }
    }

    /// Returns the probe that was started last, unless it was found to have
    /// ended.
    pub fn current(&self) -> (r: Option<Probe>)
        ensures
            r == self@.active,
    {
        self.active
    }

    /// Returns when the next probe decision may be made.
    pub fn next_probe_at(&self) -> (r: Option<Instant>)
        ensures
            r == self@.next_probe_at,
    {
        self.next_probe_at
    }
}

/// Randomized probe policy.
#[derive(Clone, Copy, Debug)]
pub struct ProbeSchedule {
    /// Probability that a decision starts a positive probe.
    pub positive_probability: Double,
    /// Probability that a decision starts a negative probe.
    pub negative_probability: Double,
    /// Requests per second added by a positive probe.
    pub positive_rate_delta: Double,
    /// Multiplier applied by a negative probe.
    pub negative_factor: Double,
    /// How long a probe lasts.
    pub duration: Duration,
    /// Shortest time until the next decision.
    pub min_interval: Duration,
    /// Longest time until the next decision.
    pub max_interval: Duration,
}

impl Default for ProbeSchedule {
    fn default() -> (r: ProbeSchedule)
        ensures
            r == ProbeSchedule::usual(),
            r.valid(),
    {
        proof {
            lemma_usual_is_valid();
        }
        ProbeSchedule {
            // A decision is made every one to five seconds, so a tenth and
            // five hundredths give an expected probe opportunity about every
            // twenty seconds. That is short enough to repair a stale
            // allocation while still keeping probes rare relative to ordinary
            // request traffic.
            positive_probability: Double { bits: 0x3FB9_9999_9999_999A },
            negative_probability: Double { bits: 0x3FA9_9999_9999_999A },
            // Twenty requests per second, and four fifths.
            positive_rate_delta: Double { bits: 0x4034_0000_0000_0000 },
            negative_factor: Double { bits: 0x3FE9_9999_9999_999A },
            duration: Duration { nanos: 1_000_000_000 },
            min_interval: Duration { nanos: 1_000_000_000 },
            max_interval: Duration { nanos: 5_000_000_000 },
        }
    }
}

impl ProbeSchedule {
    /// The default policy: a tenth and five hundredths, twenty requests per
    /// second and four fifths, one second, and one to five seconds.
    pub open spec fn usual() -> ProbeSchedule {
        ProbeSchedule {
            positive_probability: Double { bits: 0x3FB9_9999_9999_999A },
            negative_probability: Double { bits: 0x3FA9_9999_9999_999A },
            positive_rate_delta: Double { bits: 0x4034_0000_0000_0000 },
            negative_factor: Double { bits: 0x3FE9_9999_9999_999A },
            duration: Duration { nanos: 1_000_000_000 },
            min_interval: Duration { nanos: 1_000_000_000 },
            max_interval: Duration { nanos: 5_000_000_000 },
        }
    }

    /// Whether the probabilities, perturbation parameters and timing are valid.
    pub open spec fn valid(self) -> bool {
        &&& self.positive_probability.bits < INFINITY
        &&& self.negative_probability.bits < INFINITY
        &&& self.positive_probability.sum(self.negative_probability).bits <= ONE
        &&& 0 < self.positive_rate_delta.bits < INFINITY
        &&& 0 < self.negative_factor.bits < ONE
        &&& self.duration.nanos > 0
        &&& 0 < self.min_interval.nanos <= self.max_interval.nanos
    }

    /// Validates the probabilities, perturbation parameters, and timing.
    pub fn validate(&self) -> (r: bool)
        ensures
            r == self.valid(),
    {
        self.positive_probability.bits < INFINITY && self.negative_probability.bits < INFINITY
            && self.positive_probability.plus(self.negative_probability).bits <= ONE && 0
            < self.positive_rate_delta.bits && self.positive_rate_delta.bits < INFINITY
            && 0 < self.negative_factor.bits && self.negative_factor.bits < ONE
            && self.duration.nanos > 0 && 0 < self.min_interval.nanos && self.min_interval.nanos
            <= self.max_interval.nanos
    }

    /// How far the bounds of the decision interval are apart.
    pub open spec fn span(self) -> Duration {
        self.max_interval.lessened(self.min_interval)
    }

    /// The decision interval that a random word stands for.
    pub open spec fn interval(self, word: u64) -> Duration {
        self.min_interval.joined(
            Duration::of_seconds(
                self.span().in_seconds().product(fraction(word)),
            ).shorter_of(self.span()),
        )
    }

    /// The probe that a random word stands for, if it stands for one.
    pub open spec fn chosen(self, word: u64, now: Instant) -> Option<Probe> {
        let draw = fraction(word);
        let until = now.later(self.duration);
        if draw.bits < self.positive_probability.bits {
            Some(
                Probe {
                    kind: ProbeKind::Positive { delta_rate: self.positive_rate_delta },
                    until,
                },
            )
        } else if draw.bits < self.positive_probability.sum(self.negative_probability).bits {
            Some(Probe { kind: ProbeKind::Negative { factor: self.negative_factor }, until })
        } else {
            None
        }
    }

    /// How many 32-bit words a due decision takes: two for an interval whose
    /// bounds differ, and two for the kind of the probe.
    pub open spec fn words_taken(self) -> nat {
        if self.span().nanos == 0 {
            2
        } else {
            4
        }
    }

    /// The state after a due decision with given words for the interval and
    /// the kind.
    pub open spec fn decided(self, interval: u64, kind: u64, now: Instant) -> Probing {
        Probing {
            active: self.chosen(kind, now),
            next_probe_at: Some(
                now.later(
                    if self.span().nanos == 0 {
                        self.min_interval
                    } else {
                        self.interval(interval)
                    },
                ),
            ),
        }
    }

    /// The state after the schedule was consulted with the words that are left
    /// in a generator.
    pub open spec fn consulted(self, state: Probing, words: Map<nat, u32>, now: Instant) -> Probing {
        if !state.due(now) {
            state.expired(now)
        } else {
            self.decided(
                crate::entropy::wide_word(words),
                crate::entropy::wide_word(
                    crate::entropy::dropped(words, (self.words_taken() - 2) as nat),
                ),
                now,
            )
        }
    }

    /// The words that are left after the schedule was consulted.
    pub open spec fn words_left(self, state: Probing, words: Map<nat, u32>, now: Instant) -> Map<
        nat,
        u32,
    > {
        if !state.due(now) {
            words
        } else if self.span().nanos == 0 {
            crate::entropy::dropped(words, 2)
        } else {
            crate::entropy::dropped(crate::entropy::dropped(words, 2), 2)
        }
    }

    /// Starts at most one probe when the endpoint is not already probing.
    pub fn maybe_start(&self, state: &mut ProbeState, rng: &mut StdRng, now: Instant) -> (r: Option<
        Probe,
    >)
        requires
            self.valid(),
        ensures
            final(state)@ == self.consulted(
                old(state)@,
                crate::entropy::upcoming(*old(rng)),
                now,
            ),
            crate::entropy::upcoming(*final(rng)) == self.words_left(
                old(state)@,
                crate::entropy::upcoming(*old(rng)),
                now,
            ),
            r == final(state)@.active,
    {
        if let Some(active) = state.active(now) {
            return Some(active);
        }
        if let Some(due_at) = state.next_probe_at {
            if due_at.nanos > now.nanos {
                return None;
            }
        }
        let ghost words = crate::entropy::upcoming(*rng);
        let interval: u64 = if self.max_interval.nanos == self.min_interval.nanos {
            0
        } else {
            next_wide(rng)
        };
        let kind: u64 = next_wide(rng);
        proof {
            assert(crate::entropy::dropped(words, 0) =~= words);
        }
        self.decide(state, interval, kind, now)
    }

    /// Makes a due decision with given random words for the interval and the
    /// kind of the probe.
    pub fn decide(&self, state: &mut ProbeState, interval: u64, kind: u64, now: Instant) -> (r:
        Option<Probe>)
        requires
            self.valid(),
        ensures
            final(state)@ == self.decided(interval, kind, now),
            r == self.chosen(kind, now),
    {
        let span = self.max_interval.saturating_sub(self.min_interval);
        let until_next = if span.is_zero() {
            self.min_interval
        } else {
            self.random_interval(interval)
        };
        state.next_probe_at = Some(saturating_add(now, until_next));
        state.active = None;
        let draw = to_fraction(kind);
        if draw.bits < self.positive_probability.bits {
            let until = saturating_add(now, self.duration);
            state.start_positive(self.positive_rate_delta, until);
            state.current()
        } else if draw.bits < self.positive_probability.plus(self.negative_probability).bits {
            let until = saturating_add(now, self.duration);
            state.start_negative(self.negative_factor, until);
            state.current()
        } else {
            None
        }
    }

    /// Returns the decision interval that a random word stands for.
    pub fn random_interval(&self, word: u64) -> (r: Duration)
        ensures
            r == self.interval(word),
    {
        let span = self.max_interval.saturating_sub(self.min_interval);
        let jitter = Duration::from_seconds(span.as_seconds().times(to_fraction(word)));
        self.min_interval.saturating_add(jitter.shorter(span))
    }
}

/// Returns the number in [0, 1) that a random word stands for.
pub fn to_fraction(word: u64) -> (r: Double)
    ensures
        r == fraction(word),
{
    Double::from_int((word / 2048) as u128).times(Double { bits: FRACTION_UNIT })
}

/// The default policy is valid.
pub proof fn lemma_usual_is_valid()
    ensures
        ProbeSchedule::usual().valid(),
{
    let p = ProbeSchedule::usual();
    let tenth = p.positive_probability;
    let twentieth = p.negative_probability;
    let half = Double { bits: 0x3FE0_0000_0000_0000 };
    // Two halves are one, and each term is at most a half.
    crate::double::lemma_power(1022);
    crate::double::lemma_one();
    crate::double::lemma_order(tenth, half);
    crate::double::lemma_order(twentieth, half);
    vstd::arithmetic::power2::lemma_pow2_unfold(1074);
    crate::double::lemma_itself(Double { bits: ONE }, 1);
    let one = (Double { bits: ONE }).units();
    crate::double::lemma_monotone(tenth.units() + twentieth.units(), 1, one * 1, 1);
}

/// Consulting the schedule never shortens the wait for a decision: right after
/// one was made, none is due before the shortest interval is over.
pub proof fn law_decisions_keep_their_distance(
    schedule: ProbeSchedule,
    state: Probing,
    words: Map<nat, u32>,
    now: Instant,
    later: Instant,
)
    requires
        schedule.valid(),
        schedule.max_interval.nanos <= crate::time::MAX_NANOS,
        state.due(now),
        later.nanos < now.later(schedule.min_interval).nanos,
    ensures
        !schedule.consulted(state, words, now).due(later),
        schedule.words_left(schedule.consulted(state, words, now), words, later) == words,
{
}

/// A decision is made after at most the longest interval: from then on one is
/// due, unless a probe is active.
pub proof fn law_decisions_come(
    schedule: ProbeSchedule,
    state: Probing,
    words: Map<nat, u32>,
    now: Instant,
    later: Instant,
)
    requires
        schedule.valid(),
        schedule.max_interval.nanos <= crate::time::MAX_NANOS,
        state.due(now),
        later.nanos >= now.later(schedule.max_interval).nanos,
    ensures
        ({
            let next = schedule.consulted(state, words, now);
            next.due(later) || next.expired(later).active is Some
        }),
{
}

/// A probe ends: once its time is over the base rate is back.
pub proof fn law_probes_are_temporary(
    schedule: ProbeSchedule,
    state: Probing,
    words: Map<nat, u32>,
    now: Instant,
    later: Instant,
    base: Double,
)
    requires
        state.due(now),
        later.nanos >= now.later(schedule.duration).nanos,
    ensures
        schedule.consulted(state, words, now).applied(base, later) == base,
{
}

} // verus!
