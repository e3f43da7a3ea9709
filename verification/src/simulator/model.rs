//! What a simulation computes: its states and the steps between them.

use super::{EndpointReport, SimulatedEndpoint};
use crate::controller::{DispatchState, Endpoint, Outcome};
use crate::probe::Probing;
use crate::time::{Duration, Instant};
use vstd::prelude::*;

verus! {

/// A dispatched request that is being served.
#[derive(Clone, Copy)]
pub struct Due {
    /// When it is done.
    pub at: Instant,
    /// The endpoint that serves it.
    pub endpoint: nat,
    /// When it was dispatched.
    pub sent_at: Instant,
    /// Whether it waited for its slot.
    pub was_paced: bool,
}

/// One endpoint and its workers.
#[verifier::ext_equal]
pub struct Station {
    /// The controller.
    pub controller: Endpoint,
    /// Time spent on one request.
    pub service_time: Duration,
    /// When each worker is free.
    pub available_at: Seq<Instant>,
    /// Requests dispatched so far.
    pub dispatched: nat,
    /// Requests completed so far.
    pub completed: nat,
}

/// The first of the instants that no other one precedes.
pub open spec fn soonest(at: Seq<Instant>) -> int
    decreases at.len(),
{
    if at.len() <= 1 {
        0
    } else {
        let i = soonest(at.drop_last());
        if at.last().nanos < at[i].nanos {
            at.len() - 1
        } else {
            i
        }
    }
}

/// The earlier of two instants, where either may be missing.
pub open spec fn sooner(a: Option<Instant>, b: Option<Instant>) -> Option<Instant> {
    match (a, b) {
        (Some(x), Some(y)) => Some(x.earliest(y)),
        (Some(x), None) => Some(x),
        (None, y) => y,
    }
}

/// When the first request is done.
pub open spec fn first_done(due: Seq<Due>) -> Option<Instant>
    decreases due.len(),
{
    if due.len() == 0 {
        None
    } else {
        sooner(first_done(due.drop_last()), Some(due.last().at))
    }
}

impl Station {
    /// An endpoint before its first request.
    pub open spec fn fresh(endpoint: SimulatedEndpoint, index: nat, seed: u64) -> Station {
        let start = Instant { nanos: 0 };
        Station {
            controller: Endpoint::fresh(
                index as u64,
                endpoint.config,
                endpoint.config.tuned(),
                start,
                crate::entropy::seeded_words(
                    ((seed + index) % 0x1_0000_0000_0000_0000) as u64,
                ),
            ),
            service_time: endpoint.service_time,
            available_at: Seq::new(endpoint.workers as nat, |i: int| start),
            dispatched: 0,
            completed: 0,
        }
    }

    /// The station with its controller brought up to a point in time.
    #[verifier::opaque]
    pub open spec fn refreshed(self, now: Instant) -> Station {
        Station { controller: self.controller.refreshed(now), ..self }
    }

    /// When the head of the queue should be looked at again.
    #[verifier::opaque]
    pub open spec fn next_dispatch(self, now: Instant) -> Option<Instant> {
        if self.controller.pending.len() == 0 {
            None
        } else {
            match self.controller.refreshed(now).head_state(now) {
                DispatchState::WaitUntil(at) => Some(at),
                DispatchState::Ready => Some(now),
                _ => None,
            }
        }
    }

    /// The station after its head, if there is one, asked for its state.
    #[verifier::opaque]
    pub open spec fn asked(self, now: Instant) -> Station {
        if self.controller.pending.len() == 0 {
            self
        } else {
            Station { controller: self.controller.head_asked(now), ..self }
        }
    }

    /// Whether the head of the queue may be dispatched.
    pub open spec fn ready(self, now: Instant) -> bool {
        self.controller.pending.len() > 0 && self.controller.refreshed(now).head_state(now)
            == DispatchState::Ready
    }

    /// When a request that is dispatched now will be done: the worker that is
    /// free first takes it.
    pub open spec fn done_at(self, now: Instant) -> Instant {
        self.available_at[soonest(self.available_at)].latest(now).later(self.service_time)
    }

    /// The station after its head was dispatched.
    #[verifier::opaque]
    pub open spec fn dispatched_head(self, now: Instant) -> Station {
        Station {
            controller: self.controller.head_asked(now).dispatched(now),
            available_at: self.available_at.update(
                soonest(self.available_at),
                self.done_at(now),
            ),
            dispatched: self.dispatched + 1,
            ..self
        }
    }

    /// The request that the dispatch of the head starts.
    #[verifier::opaque]
    pub open spec fn started(self, index: nat, now: Instant) -> Due {
        Due {
            at: self.done_at(now),
            endpoint: index,
            sent_at: now,
            was_paced: self.controller.pending[0].was_paced,
        }
    }

    /// The station after a request was completed.
    #[verifier::opaque]
    pub open spec fn finished(self, due: Due, now: Instant) -> Station {
        Station {
            controller: self.controller.completed_with(
                Outcome::Success,
                due.at.since(due.sent_at),
                due.was_paced,
                now,
            ),
            completed: self.completed + 1,
            ..self
        }
    }

    /// How much can still happen at the station between two arrivals: a queued
    /// request is dispatched and done, a probe ends, and every decision puts
    /// the next one off.
    pub open spec fn work(self, end: Instant) -> nat {
        2 * self.controller.pending.len() + probing_work(self.controller.probe, end)
    }

    /// What holds of a station between events: every reservation was
    /// dispatched or is queued, every dispatched request was completed or is
    /// inflight, and no failure was recorded.
    #[verifier::opaque]
    pub open spec fn wf(self) -> bool {
        &&& self.controller.wf()
        &&& self.controller.config.valid()
        &&& self.service_time.nanos > 0
        &&& self.available_at.len() > 0
        &&& self.dispatched + self.controller.pending.len() == self.controller.next_id
        &&& self.completed + self.controller.inflight == self.dispatched
        &&& self.completed == self.controller.completed
        &&& self.controller.failures == 0
        &&& self.controller.latency.samples <= self.completed
        &&& self.controller.gradient.updates <= self.completed
    }
}

/// How much can still happen to the probes of one controller.
pub open spec fn probing_work(probe: Probing, end: Instant) -> nat {
    let decisions: int = match probe.next_probe_at {
        None => end.nanos + 1,
        Some(at) => if at.nanos <= end.nanos {
            end.nanos - at.nanos
        } else {
            -1
        },
    };
    (2 * (decisions + 1) + if probe.active is Some {
        1int
    } else {
        0int
    }) as nat
}

/// The length of the queue does not change while a controller is brought up to
/// date, and neither does what it counts.
pub proof fn lemma_refresh_keeps(endpoint: Endpoint, now: Instant)
    ensures
        ({
            let fresh = endpoint.refreshed(now);
            let asked = endpoint.head_asked(now);
            &&& fresh.pending.len() == endpoint.pending.len()
            &&& fresh.id == endpoint.id
            &&& fresh.next_id == endpoint.next_id
            &&& fresh.inflight == endpoint.inflight
            &&& fresh.completed == endpoint.completed
            &&& fresh.failures == endpoint.failures
            &&& fresh.latency == endpoint.latency
            &&& fresh.gradient == endpoint.gradient
            &&& fresh.config == endpoint.config
            &&& forall|i: int|
                0 <= i < fresh.pending.len() ==> (#[trigger] fresh.pending[i]).id
                    == endpoint.pending[i].id && fresh.pending[i].was_paced
                    == endpoint.pending[i].was_paced
            &&& endpoint.pending.len() > 0 ==> asked.pending.len() == endpoint.pending.len()
            &&& asked.id == endpoint.id
            &&& asked.next_id == endpoint.next_id
            &&& asked.inflight == endpoint.inflight
            &&& asked.completed == endpoint.completed
            &&& asked.failures == endpoint.failures
            &&& asked.latency == endpoint.latency
            &&& asked.gradient == endpoint.gradient
            &&& asked.config == endpoint.config
            &&& forall|i: int|
                0 <= i < endpoint.pending.len() ==> (#[trigger] asked.pending[i]).id
                    == endpoint.pending[i].id
        }),
{
    reveal(Endpoint::refreshed);
}

/// A station after every request that is due was dispatched from its queue,
/// and the requests that are being served.
pub open spec fn driven(station: Station, index: nat, due: Seq<Due>, now: Instant) -> (
    Station,
    Seq<Due>,
)
    decreases station.controller.pending.len(),
{
    proof {
        lemma_refresh_keeps(station.controller, now);
        reveal(Station::dispatched_head);
    }
    if station.ready(now) {
        driven(
            station.dispatched_head(now),
            index,
            due.push(station.started(index, now)),
            now,
        )
    } else {
        (station.asked(now), due)
    }
}

/// The stations from one on after each was brought up to date and driven.
pub open spec fn all_driven(stations: Seq<Station>, i: int, due: Seq<Due>, now: Instant) -> (
    Seq<Station>,
    Seq<Due>,
)
    decreases stations.len() - i,
{
    if 0 <= i < stations.len() {
        let (station, more) = driven(stations[i].refreshed(now), i as nat, due, now);
        all_driven(stations.update(i, station), i + 1, more, now)
    } else {
        (stations, due)
    }
}

/// The stations after every request that is done was completed, in the order
/// in which they were dispatched, and the requests that are still being served.
pub open spec fn all_completed(stations: Seq<Station>, due: Seq<Due>, now: Instant) -> (
    Seq<Station>,
    Seq<Due>,
)
    decreases due.len(),
{
    if due.len() == 0 {
        (stations, due)
    } else {
        let first = due[0];
        let rest = due.skip(1);
        if first.at.nanos <= now.nanos {
            let i = first.endpoint as int;
            all_completed(stations.update(i, stations[i].finished(first, now)), rest, now)
        } else {
            let (after, left) = all_completed(stations, rest, now);
            (after, seq![first] + left)
        }
    }
}

/// The stations that have space in their queue, of the first ones.
pub open spec fn open_stations(stations: Seq<Station>, n: int) -> Seq<int>
    decreases n,
{
    if n <= 0 {
        Seq::empty()
    } else if stations[n - 1].controller.has_space() {
        open_stations(stations, n - 1).push(n - 1)
    } else {
        open_stations(stations, n - 1)
    }
}

/// The second of two distinct places, from a draw among those that are left.
pub open spec fn beside(first: nat, draw: nat) -> nat {
    if draw >= first {
        draw + 1
    } else {
        draw
    }
}

/// The stations after two samples were compared, the words that are left, and
/// the station that is chosen. With one open station there is nothing to
/// sample, and with none nothing to choose.
#[verifier::opaque]
pub open spec fn chosen(stations: Seq<Station>, words: Map<nat, u32>, now: Instant) -> (
    Seq<Station>,
    Map<nat, u32>,
    Option<int>,
) {
    let fresh = Seq::new(stations.len(), |i: int| stations[i].refreshed(now));
    let ready = open_stations(fresh, fresh.len() as int);
    if ready.len() == 0 {
        (fresh, words, None)
    } else if ready.len() == 1 {
        (fresh, words, Some(ready[0]))
    } else {
        let (a, a_words) = crate::entropy::sampled(words, ready.len());
        let left = crate::entropy::dropped(words, a_words);
        let (draw, b_words) = crate::entropy::sampled(left, (ready.len() - 1) as nat);
        let (i, j) = (ready[a as int], ready[beside(a, draw) as int]);
        let one = fresh.update(i, fresh[i].refreshed(now));
        let both = one.update(j, one[j].refreshed(now));
        (
            both,
            crate::entropy::dropped(left, b_words),
            if one[i].controller.load(now).bits <= both[j].controller.load(now).bits {
                Some(i)
            } else {
                Some(j)
            },
        )
    }
}

/// The longest queue of some stations.
pub open spec fn longest_queue(stations: Seq<Station>) -> nat
    decreases stations.len(),
{
    if stations.len() == 0 {
        0
    } else {
        let rest = longest_queue(stations.drop_last());
        let last = stations.last().controller.pending.len();
        if last >= rest {
            last
        } else {
            rest
        }
    }
}

/// When the first of some stations wants to be looked at again.
pub open spec fn next_dispatch(stations: Seq<Station>, now: Instant) -> Option<Instant>
    decreases stations.len(),
{
    if stations.len() == 0 {
        None
    } else {
        sooner(
            next_dispatch(stations.drop_last(), now),
            stations.last().next_dispatch(now),
        )
    }
}

/// A simulation in progress.
#[verifier::ext_equal]
pub struct Progress {
    /// The time of the next arrival.
    pub next_arrival: Instant,
    /// Requests that arrived.
    pub offered: nat,
    /// Requests that were accepted.
    pub accepted: nat,
    /// Requests that were not accepted.
    pub backpressured: nat,
    /// The longest queue seen.
    pub max_queued: nat,
    /// The random words that are left for sampling.
    pub words: Map<nat, u32>,
    /// The endpoints.
    pub stations: Seq<Station>,
    /// The requests that are being served.
    pub due: Seq<Due>,
}

impl Progress {
    /// A simulation before its first event.
    pub open spec fn fresh(endpoints: Seq<SimulatedEndpoint>, seed: u64) -> Progress {
        let start = Instant { nanos: 0 };
        Progress {
            next_arrival: start,
            offered: 0,
            accepted: 0,
            backpressured: 0,
            max_queued: 0,
            words: crate::entropy::seeded_words(seed),
            stations: Seq::new(
                endpoints.len(),
                |i: int| Station::fresh(endpoints[i], i as nat, seed),
            ),
            due: Seq::empty(),
        }
    }

    /// Whether an arrival or a completion is left before the end.
    pub open spec fn goes_on(self, end: Instant) -> bool {
        ||| self.next_arrival.nanos <= end.nanos
        ||| first_done(self.due) matches Some(at) && at.nanos <= end.nanos
    }

    /// The simulation after each queue was asked, as of the start, for its next
    /// dispatch.
    #[verifier::opaque]
    pub open spec fn asked(self) -> Progress {
        Progress {
            stations: Seq::new(
                self.stations.len(),
                |i: int| self.stations[i].asked(Instant { nanos: 0 }),
            ),
            ..self
        }
    }

    /// The time of the next event: the next arrival, completion or dispatch.
    /// Queues are asked as of the start, so a slot that lies before the last
    /// event is made up for at its own time.
    #[verifier::opaque]
    pub open spec fn next_event(self) -> Instant {
        sooner(
            Some(self.next_arrival),
            sooner(
                first_done(self.due),
                next_dispatch(self.stations, Instant { nanos: 0 }),
            ),
        ).unwrap()
    }

    /// How much time is left for arrivals.
    pub open spec fn time_left(self, end: Instant) -> nat {
        if self.next_arrival.nanos <= end.nanos {
            (end.nanos - self.next_arrival.nanos + 1) as nat
        } else {
            0
        }
    }

    /// How much can still happen between two arrivals.
    pub open spec fn work_left(self, end: Instant) -> nat {
        self.due.len() + total(works(self.stations, end))
    }

    /// Whether less is left to happen than before an event.
    pub open spec fn closer(self, before: Progress, end: Instant) -> bool {
        ||| self.time_left(end) < before.time_left(end)
        ||| self.time_left(end) == before.time_left(end) && self.work_left(end)
            < before.work_left(end)
    }

    /// The simulation after the due completions and dispatches of an event.
    #[verifier::opaque]
    pub open spec fn served(self, now: Instant) -> Progress {
        let (stations, due) = all_completed(self.stations, self.due, now);
        let (stations, due) = all_driven(stations, 0, due, now);
        Progress { stations, due, ..self }
    }

    /// The simulation after a request arrived.
    #[verifier::opaque]
    pub open spec fn arrived(self, interval: Duration, now: Instant) -> Progress {
        let (stations, words, choice) = chosen(self.stations, self.words, now);
        let heard = Progress {
            stations,
            words,
            offered: self.offered + 1,
            next_arrival: self.next_arrival.later(interval),
            ..self
        };
        match choice {
            Some(i) if crate::p2c::accepts(stations[i].controller) => Progress {
                stations: stations.update(
                    i,
                    Station { controller: stations[i].controller.reserved(now), ..stations[i] },
                ),
                accepted: self.accepted + 1,
                ..heard
            },
            _ => Progress { backpressured: self.backpressured + 1, ..heard },
        }
    }

    /// The simulation after an event.
    #[verifier::opaque]
    pub open spec fn stepped(self, interval: Duration, now: Instant) -> Progress {
        let served = self.served(now);
        let heard = if now == self.next_arrival {
            served.arrived(interval, now)
        } else {
            served
        };
        let (stations, due) = all_driven(heard.stations, 0, heard.due, now);
        let longest = longest_queue(stations);
        Progress {
            stations,
            due,
            max_queued: if longest > self.max_queued {
                longest
            } else {
                self.max_queued
            },
            ..heard
        }
    }

    /// The simulation after its last event. Every event leaves less to happen.
    pub open spec fn run(self, interval: Duration, end: Instant) -> Progress
        decreases self.time_left(end), self.work_left(end),
    {
        if !self.goes_on(end) {
            self
        } else if self.next_event().nanos > end.nanos {
            self.asked()
        } else {
            let next = self.asked().stepped(interval, self.next_event());
            if next.closer(self, end) {
                next.run(interval, end)
            } else {
                next
            }
        }
    }
}

/// How much can still happen at some stations between two arrivals.
pub open spec fn works(stations: Seq<Station>, end: Instant) -> Seq<nat> {
    Seq::new(stations.len(), |i: int| stations[i].work(end))
}

/// What an endpoint did.
#[verifier::opaque]
pub open spec fn reported(station: Station, end: Instant) -> EndpointReport {
    EndpointReport {
        dispatched: station.dispatched as u64,
        completed: station.completed as u64,
        snapshot: station.controller.refreshed(end).pictured(end),
    }
}

/// The sum of some numbers.
pub open spec fn total(numbers: Seq<nat>) -> nat
    decreases numbers.len(),
{
    if numbers.len() == 0 {
        0
    } else {
        total(numbers.drop_last()) + numbers.last()
    }
}

pub proof fn lemma_total_update(numbers: Seq<nat>, i: int, n: nat)
    requires
        0 <= i < numbers.len(),
    ensures
        total(numbers.update(i, n)) == total(numbers) - numbers[i] + n,
        numbers[i] <= total(numbers),
    decreases numbers.len(),
{
    let after = numbers.update(i, n);
    if i == numbers.len() - 1 {
        assert(after.drop_last() =~= numbers.drop_last());
    } else {
        assert(after.drop_last() =~= numbers.drop_last().update(i, n));
        lemma_total_update(numbers.drop_last(), i, n);
    }
}

pub proof fn lemma_total_adds(a: Seq<nat>, b: Seq<nat>, c: Seq<nat>)
    requires
        a.len() == b.len() == c.len(),
        forall|i: int| 0 <= i < a.len() ==> #[trigger] a[i] + b[i] == c[i],
    ensures
        total(a) + total(b) == total(c),
    decreases a.len(),
{
    if a.len() > 0 {
        assert(a.last() + b.last() == c.last());
        assert forall|i: int| 0 <= i < a.drop_last().len() implies #[trigger] a.drop_last()[i]
            + b.drop_last()[i] == c.drop_last()[i] by {
            assert(a[i] + b[i] == c[i]);
        }
        lemma_total_adds(a.drop_last(), b.drop_last(), c.drop_last());
    }
}

pub proof fn lemma_total_zero(numbers: Seq<nat>)
    requires
        forall|i: int| 0 <= i < numbers.len() ==> #[trigger] numbers[i] == 0,
    ensures
        total(numbers) == 0,
    decreases numbers.len(),
{
    if numbers.len() > 0 {
        assert forall|i: int| 0 <= i < numbers.drop_last().len() implies
            #[trigger] numbers.drop_last()[i] == 0 by {
            assert(numbers[i] == 0);
        }
        lemma_total_zero(numbers.drop_last());
    }
}

/// The longest scheduling horizon of some endpoints.
pub open spec fn widest_horizon(endpoints: Seq<SimulatedEndpoint>) -> nat
    decreases endpoints.len(),
{
    if endpoints.len() == 0 {
        0
    } else {
        let rest = widest_horizon(endpoints.drop_last());
        let last = endpoints.last().config.queue_capacity as nat;
        if last >= rest {
            last
        } else {
            rest
        }
    }
}

/// No queue is longer than the longest horizon.
pub proof fn lemma_queues_fit(stations: Seq<Station>, endpoints: Seq<SimulatedEndpoint>)
    requires
        stations.len() == endpoints.len(),
        forall|i: int|
            0 <= i < stations.len() ==> (#[trigger] stations[i]).controller.pending.len()
                <= endpoints[i].config.queue_capacity,
    ensures
        longest_queue(stations) <= widest_horizon(endpoints),
    decreases stations.len(),
{
    if stations.len() > 0 {
        let (s, e) = (stations.drop_last(), endpoints.drop_last());
        assert forall|i: int| 0 <= i < s.len() implies (
        #[trigger] s[i]).controller.pending.len() <= e[i].config.queue_capacity by {
            assert(s[i] == stations[i] && e[i] == endpoints[i]);
        }
        lemma_queues_fit(s, e);
        assert(stations.last() == stations[stations.len() - 1]);
    }
}

/// How many requests each endpoint dispatched.
pub open spec fn dispatched_by(reports: Seq<EndpointReport>) -> Seq<nat> {
    Seq::new(reports.len(), |i: int| reports[i].dispatched as nat)
}

/// How many requests each endpoint completed.
pub open spec fn completed_by(reports: Seq<EndpointReport>) -> Seq<nat> {
    Seq::new(reports.len(), |i: int| reports[i].completed as nat)
}

/// How many requests are left in the queue of each endpoint.
pub open spec fn queued_at(reports: Seq<EndpointReport>) -> Seq<nat> {
    Seq::new(reports.len(), |i: int| reports[i].snapshot.queued as nat)
}

/// The requests that were dispatched by the first endpoints are at most the
/// reservations that were made by all.
pub proof fn lemma_reports_fit(reports: Seq<EndpointReport>, made: Seq<nat>)
    requires
        reports.len() <= made.len(),
        forall|j: int|
            0 <= j < reports.len() ==> (#[trigger] reports[j]).dispatched <= made[j],
    ensures
        total(dispatched_by(reports)) <= total(made),
    decreases made.len(),
{
    if made.len() > 0 {
        if reports.len() == made.len() {
            let rest = reports.drop_last();
            assert(dispatched_by(reports).drop_last() =~= dispatched_by(rest));
            assert forall|j: int| 0 <= j < rest.len() implies (#[trigger] rest[j]).dispatched
                <= made.drop_last()[j] by {
                assert(rest[j] == reports[j]);
            }
            lemma_reports_fit(rest, made.drop_last());
            assert(reports[reports.len() - 1].dispatched <= made[made.len() - 1]);
        } else {
            assert forall|j: int| 0 <= j < reports.len() implies (#[trigger] reports[j]).dispatched
                <= made.drop_last()[j] by {}
            lemma_reports_fit(reports, made.drop_last());
        }
    } else {
        assert(reports.len() == 0);
    }
}

/// Counts the arrivals from the start to the end.
pub proof fn lemma_offered(offered: int, interval: int, end: int)
    requires
        interval > 0,
        end >= 0,
        offered >= 0,
        offered * interval > end,
        offered > 0 ==> (offered - 1) * interval <= end,
    ensures
        offered == end / interval + 1,
{
    assert(offered > 0) by (nonlinear_arith)
        requires
            offered >= 0,
            offered * interval > end,
            end >= 0,
    ;
    let rest = end - (offered - 1) * interval;
    assert(offered * interval == (offered - 1) * interval + interval) by (nonlinear_arith);
    vstd::arithmetic::div_mod::lemma_fundamental_div_mod_converse(
        end,
        interval,
        offered - 1,
        rest,
    );
}

} // verus!
