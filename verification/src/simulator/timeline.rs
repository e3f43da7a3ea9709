//! What happens at each event of a simulation, and when the next one is.

use super::model::{
    self, all_completed, all_driven, chosen, driven, first_done, longest_queue, next_dispatch,
    open_stations, reported, Due, Progress, Station,
};
use super::workers::done_by;
use super::{SimulatedEndpoint, SimulationConfig};
use crate::controller::{Endpoint, Outcome};
use crate::time::{Duration, Instant, MAX_NANOS};
use vstd::prelude::*;

verus! {

/// Whether a station can serve: it has workers, a request takes them some time,
/// and its controller has valid parameters.
pub open spec fn manned(station: Station) -> bool {
    &&& station.available_at.len() > 0
    &&& station.service_time.nanos > 0
    &&& station.controller.tuning.valid()
}

/// Whether all stations can serve, and every request is at one of them.
pub open spec fn all_manned(stations: Seq<Station>, due: Seq<Due>) -> bool {
    &&& forall|i: int| 0 <= i < stations.len() ==> manned(#[trigger] stations[i])
    &&& forall|k: int| 0 <= k < due.len() ==> (#[trigger] due[k]).endpoint < stations.len()
}

/// When the next request arrives, is done, or may be dispatched, whichever is
/// first: the next event is none later than these, and one of them.
pub proof fn law_events_come_in_order(before: Progress, i: int, k: int)
    ensures
        ({
            let start = Instant { nanos: 0 };
            let at = before.next_event();
            &&& at.nanos <= before.next_arrival.nanos
            &&& 0 <= k < before.due.len() ==> at.nanos <= before.due[k].at.nanos
            &&& 0 <= i < before.stations.len() ==> (before.stations[i].next_dispatch(
                start,
            ) matches Some(slot) ==> at.nanos <= slot.nanos)
            &&& at == before.next_arrival || (exists|k: int|
                0 <= k < before.due.len() && #[trigger] before.due[k].at == at) || (exists|i: int|
                0 <= i < before.stations.len() && (#[trigger] before.stations[i]).next_dispatch(
                    start,
                ) == Some(at))
        }),
{
    let start = Instant { nanos: 0 };
    reveal(Progress::next_event);
    lemma_first_done(before.due, k);
    lemma_first_dispatch(before.stations, start, i);
}

proof fn lemma_first_done(due: Seq<Due>, k: int)
    ensures
        first_done(due) is None <==> due.len() == 0,
        first_done(due) matches Some(at) ==> {
            &&& exists|j: int| 0 <= j < due.len() && #[trigger] due[j].at == at
            &&& 0 <= k < due.len() ==> at.nanos <= due[k].at.nanos
        },
    decreases due.len(),
{
    if due.len() > 0 {
        let rest = due.drop_last();
        lemma_first_done(rest, k);
        let n = due.len() - 1;
        assert(due[n] == due.last());
        if k < n && k >= 0 {
            assert(rest[k] == due[k]);
        }
        if let Some(at) = first_done(rest) {
            let j = choose|j: int| 0 <= j < rest.len() && #[trigger] rest[j].at == at;
            assert(due[j].at == at);
        }
        assert(due[n].at == due.last().at);
    }
}

proof fn lemma_first_dispatch(stations: Seq<Station>, now: Instant, i: int)
    ensures
        next_dispatch(stations, now) matches Some(at) ==> exists|j: int|
            0 <= j < stations.len() && (#[trigger] stations[j]).next_dispatch(now) == Some(at),
        0 <= i < stations.len() ==> (stations[i].next_dispatch(now) matches Some(slot)
            ==> (next_dispatch(stations, now) matches Some(at) && at.nanos <= slot.nanos)),
    decreases stations.len(),
{
    if stations.len() > 0 {
        let rest = stations.drop_last();
        lemma_first_dispatch(rest, now, i);
        let n = stations.len() - 1;
        assert(stations[n] == stations.last());
        if 0 <= i < n {
            assert(rest[i] == stations[i]);
        }
        if let Some(at) = next_dispatch(rest, now) {
            let j = choose|j: int|
                0 <= j < rest.len() && (#[trigger] rest[j]).next_dispatch(now) == Some(at);
            assert(stations[j] == rest[j]);
        }
    }
}

/// A queue wants to be looked at when its head may be dispatched: at once where
/// it may be already, at its deadline where it has one, and not before something
/// else happens where too many requests are inflight or none is queued.
pub proof fn law_queues_are_looked_at_in_time(station: Station, now: Instant)
    ensures
        ({
            let fresh = station.controller.refreshed(now);
            let next = station.next_dispatch(now);
            let queued = station.controller.pending.len() > 0;
            let free = fresh.inflight < fresh.config.max_inflight;
            let slot = fresh.pending[0].scheduled_at;
            &&& next is Some <==> queued && free
            &&& queued && free && slot.nanos <= now.nanos ==> next == Some(now)
            &&& queued && free && slot.nanos > now.nanos ==> {
                &&& next.unwrap().nanos <= slot.nanos
                &&& next == Some(slot) || next == fresh.recheck_at()
            }
        }),
{
    reveal(Station::next_dispatch);
}

/// A completed request is a healthy one, and what its endpoint learns is the
/// time from its dispatch to its end, whenever that is recorded.
pub proof fn law_requests_are_measured_from_dispatch(station: Station, due: Due, now: Instant)
    requires
        due.sent_at.nanos <= due.at.nanos <= due.sent_at.nanos + MAX_NANOS,
    ensures
        ({
            let after = station.finished(due, now);
            let latency = Duration { nanos: (due.at.nanos - due.sent_at.nanos) as u128 };
            &&& after.controller == station.controller.completed_with(
                Outcome::Success,
                latency,
                due.was_paced,
                now,
            )
            &&& after.completed == station.completed + 1
            &&& after.dispatched == station.dispatched
            &&& after.available_at == station.available_at
            &&& after.service_time == station.service_time
        }),
{
    reveal(Station::finished);
}

/// Requests are completed once they are done and not before: those that are left
/// are the ones that end later, and each endpoint has as many more completions
/// as it had requests done.
pub proof fn law_what_is_done_is_completed(
    stations: Seq<Station>,
    due: Seq<Due>,
    now: Instant,
    i: int,
)
    requires
        0 <= i < stations.len(),
        forall|k: int| 0 <= k < due.len() ==> (#[trigger] due[k]).endpoint < stations.len(),
    ensures
        ({
            let (after, left) = all_completed(stations, due, now);
            &&& after.len() == stations.len()
            &&& left == due.filter(|d: Due| d.at.nanos > now.nanos)
            &&& after[i].completed == stations[i].completed + done_by(due, i, now.nanos as int)
            &&& after[i].dispatched == stations[i].dispatched
            &&& after[i].available_at == stations[i].available_at
            &&& after[i].service_time == stations[i].service_time
            &&& after[i].controller.tuning == stations[i].controller.tuning
        }),
    decreases due.len(),
{
    let later = |d: Due| d.at.nanos > now.nanos;
    if due.len() == 0 {
        assert(due.filter(later) =~= due) by {
            reveal(Seq::filter);
        }
    } else {
        let first = due[0];
        let rest = due.skip(1);
        assert forall|k: int| 0 <= k < rest.len() implies (#[trigger] rest[k]).endpoint
            < stations.len() by {
            assert(rest[k] == due[k + 1]);
        }
        assert(due =~= seq![first] + rest);
        Seq::filter_distributes_over_add(seq![first], rest, later);
        assert(seq![first].filter(later) =~= if later(first) {
            seq![first]
        } else {
            Seq::empty()
        }) by {
            reveal(Seq::filter);
            assert(seq![first].drop_last() =~= Seq::empty());
            assert(Seq::<Due>::empty().filter(later) =~= Seq::empty());
        }
        super::workers::lemma_done_first(due, i, now.nanos as int);
        let e = first.endpoint as int;
        assert(due[0].endpoint < stations.len());
        if first.at.nanos <= now.nanos {
            let next = stations.update(e, stations[e].finished(first, now));
            reveal(Station::finished);
            law_what_is_done_is_completed(next, rest, now, i);
            assert(Seq::<Due>::empty() + rest.filter(later) =~= rest.filter(later));
        } else {
            law_what_is_done_is_completed(stations, rest, now, i);
        }
    }
}

/// A queue that is asked tells what it has told before.
proof fn lemma_asked(station: Station, now: Instant)
    requires
        station.controller.tuning.valid(),
        now.nanos < u128::MAX,
        !station.ready(now),
    ensures
        !station.asked(now).ready(now),
        station.asked(now).controller.pending.len() == station.controller.pending.len(),
        station.asked(now).dispatched == station.dispatched,
        station.asked(now).completed == station.completed,
        station.asked(now).available_at == station.available_at,
        station.asked(now).service_time == station.service_time,
        station.asked(now).controller.tuning == station.controller.tuning,
{
    reveal(Station::asked);
    let endpoint = station.controller;
    model::lemma_refresh_keeps(endpoint, now);
    lemma_same_tuning(endpoint, now);
    if endpoint.pending.len() > 0 {
        let fresh = endpoint.refreshed(now);
        let asked = endpoint.head_asked(now);
        crate::laws::lemma_settled(endpoint, now);
        assert(asked.effective_rate(now) == fresh.effective_rate(now));
        assert(asked.demand() == fresh.demand());
        crate::laws::lemma_stays(asked, now);
        assert(asked.recheck_at() == fresh.recheck_at());
    }
}

proof fn lemma_same_tuning(endpoint: Endpoint, now: Instant)
    ensures
        endpoint.refreshed(now).tuning == endpoint.tuning,
        endpoint.head_asked(now).tuning == endpoint.tuning,
{
    reveal(Endpoint::refreshed);
}

/// What is ready is dispatched, one request after the other, until no more is:
/// then the head of the queue has to wait. Each dispatch is one more request
/// being served, from now on, and one less queued.
pub proof fn law_ready_requests_are_dispatched(
    station: Station,
    index: nat,
    due: Seq<Due>,
    now: Instant,
)
    requires
        manned(station),
        now.nanos < u128::MAX,
    ensures
        ({
            let (after, all) = driven(station, index, due, now);
            let sent = all.len() - due.len();
            &&& !after.ready(now)
            &&& manned(after)
            &&& sent >= 0
            &&& forall|k: int| 0 <= k < due.len() ==> #[trigger] all[k] == due[k]
            &&& forall|k: int|
                due.len() <= k < all.len() ==> {
                    &&& (#[trigger] all[k]).sent_at == now
                    &&& all[k].endpoint == index
                    &&& all[k].at.nanos > now.nanos
                }
            &&& after.dispatched == station.dispatched + sent
            &&& after.controller.pending.len() == station.controller.pending.len() - sent
            &&& after.completed == station.completed
            &&& station.ready(now) <==> sent > 0
        }),
    decreases station.controller.pending.len(),
{
    if station.ready(now) {
        let next = station.dispatched_head(now);
        let started = station.started(index, now);
        reveal(Station::dispatched_head);
        reveal(Station::started);
        super::workers::lemma_soonest(station.available_at);
        model::lemma_refresh_keeps(station.controller, now);
        lemma_same_tuning(station.controller, now);
        assert(next.controller.pending.len() == station.controller.pending.len() - 1);
        law_ready_requests_are_dispatched(next, index, due.push(started), now);
        let (after, all) = driven(station, index, due, now);
        assert(all[due.len() as int] == due.push(started)[due.len() as int]);
        assert forall|k: int| 0 <= k < due.len() implies #[trigger] all[k] == due[k] by {
            assert(all[k] == due.push(started)[k]);
        }
    } else {
        lemma_asked(station, now);
    }
}

/// Whether nothing is left to do now: no request is done, and no queue has a
/// head that may be dispatched.
pub open spec fn at_rest(stations: Seq<Station>, due: Seq<Due>, now: Instant) -> bool {
    &&& forall|k: int| 0 <= k < due.len() ==> (#[trigger] due[k]).at.nanos > now.nanos
    &&& forall|i: int| 0 <= i < stations.len() ==> !(#[trigger] stations[i]).ready(now)
}

proof fn lemma_all_driven(stations: Seq<Station>, i: int, due: Seq<Due>, now: Instant)
    requires
        0 <= i <= stations.len(),
        all_manned(stations, due),
        now.nanos < u128::MAX,
        forall|k: int| 0 <= k < due.len() ==> (#[trigger] due[k]).at.nanos > now.nanos,
        forall|j: int| 0 <= j < i ==> !(#[trigger] stations[j]).ready(now),
    ensures
        ({
            let (after, all) = all_driven(stations, i, due, now);
            &&& after.len() == stations.len()
            &&& all_manned(after, all)
            &&& at_rest(after, all, now)
        }),
    decreases stations.len() - i,
{
    if i < stations.len() {
        reveal(Station::refreshed);
        let fresh = stations[i].refreshed(now);
        lemma_same_tuning(stations[i].controller, now);
        assert(manned(stations[i]));
        law_ready_requests_are_dispatched(fresh, i as nat, due, now);
        let (station, more) = driven(fresh, i as nat, due, now);
        let next = stations.update(i, station);
        assert forall|k: int| 0 <= k < more.len() implies (#[trigger] more[k]).endpoint
            < next.len() && more[k].at.nanos > now.nanos by {
            if k < due.len() {
                assert(more[k] == due[k]);
            }
        }
        lemma_all_driven(next, i + 1, more, now);
    }
}

/// What is done and what may be dispatched leave nothing to do.
proof fn lemma_served(before: Progress, now: Instant)
    requires
        all_manned(before.stations, before.due),
        now.nanos < u128::MAX,
    ensures
        before.served(now).stations.len() == before.stations.len(),
        all_manned(before.served(now).stations, before.served(now).due),
        at_rest(before.served(now).stations, before.served(now).due, now),
{
    reveal(Progress::served);
    let (stations, due) = all_completed(before.stations, before.due, now);
    let later = |d: Due| d.at.nanos > now.nanos;
    assert(stations.len() == before.stations.len() && due == before.due.filter(later)) by {
        if before.stations.len() > 0 {
            law_what_is_done_is_completed(before.stations, before.due, now, 0);
        } else {
            if before.due.len() > 0 {
                assert(before.due[0].endpoint < 0);
            }
            assert(before.due =~= Seq::empty());
            assert(before.due.filter(later) =~= before.due) by {
                reveal(Seq::filter);
            }
        }
    }
    assert forall|i: int| 0 <= i < stations.len() implies manned(#[trigger] stations[i]) by {
        assert(manned(before.stations[i]));
        law_what_is_done_is_completed(before.stations, before.due, now, i);
    }
    assert forall|k: int| 0 <= k < due.len() implies (#[trigger] due[k]).at.nanos > now.nanos
        && due[k].endpoint < stations.len() by {
        before.due.lemma_filter_contains_rev(later, due[k]);
    }
    lemma_all_driven(stations, 0, due, now);
}

/// An event leaves nothing to do at its time: what is done is completed, and
/// what may be dispatched is, also what has just arrived.
pub proof fn law_an_event_leaves_nothing_to_do(before: Progress, interval: Duration, now: Instant)
    requires
        all_manned(before.stations, before.due),
        before.stations.len() <= u64::MAX,
        now.nanos < u128::MAX,
    ensures
        at_rest(
            before.stepped(interval, now).stations,
            before.stepped(interval, now).due,
            now,
        ),
        all_manned(before.stepped(interval, now).stations, before.stepped(interval, now).due),
{
    reveal(Progress::stepped);
    lemma_served(before, now);
    let served = before.served(now);
    let heard = if now == before.next_arrival {
        served.arrived(interval, now)
    } else {
        served
    };
    if now == before.next_arrival {
        super::workers::law_arrivals_compare_two_stations(served.stations, served.words, now);
        lemma_choosing(served.stations, served.words, now);
        reveal(Progress::arrived);
        let (seen, _, choice) = chosen(served.stations, served.words, now);
        assert forall|i: int| 0 <= i < heard.stations.len() implies manned(
            #[trigger] heard.stations[i],
        ) by {
            assert(super::workers::same_workers(served.stations[i], seen[i]));
            assert(manned(served.stations[i]));
        }
    }
    lemma_all_driven(heard.stations, 0, heard.due, now);
}

/// Comparing stations keeps their parameters.
proof fn lemma_choosing(stations: Seq<Station>, words: Map<nat, u32>, now: Instant)
    ensures
        forall|i: int|
            0 <= i < stations.len() && stations.len() <= u64::MAX ==> (#[trigger] chosen(
                stations,
                words,
                now,
            ).0[i]).controller.tuning == stations[i].controller.tuning,
{
    reveal(model::chosen);
    reveal(Station::refreshed);
    let fresh = Seq::new(stations.len(), |i: int| stations[i].refreshed(now));
    let ready = open_stations(fresh, fresh.len() as int);
    super::workers::lemma_open(fresh, fresh.len() as int);
    assert forall|i: int| 0 <= i < stations.len() && stations.len() <= u64::MAX implies (
    #[trigger] chosen(stations, words, now).0[i]).controller.tuning
        == stations[i].controller.tuning by {
        lemma_same_tuning(stations[i].controller, now);
        lemma_same_tuning(fresh[i].controller, now);
        if ready.len() >= 2 {
            let (a, a_words) = crate::entropy::sampled(words, ready.len());
            let left = crate::entropy::dropped(words, a_words);
            crate::entropy::lemma_sampled(words, ready.len());
            crate::entropy::lemma_sampled(left, (ready.len() - 1) as nat);
        }
    }
}

/// Two stations with space are drawn one after the other, the second among those
/// that are left, and the first one is preferred where their loads are equal.
/// The draws take the words from the front of the stream.
pub proof fn law_ties_go_to_the_first_draw(
    stations: Seq<Station>,
    words: Map<nat, u32>,
    now: Instant,
)
    requires
        stations.len() <= u64::MAX,
    ensures
        ({
            let fresh = Seq::new(stations.len(), |i: int| stations[i].refreshed(now));
            let open = open_stations(fresh, fresh.len() as int);
            let (after, left, choice) = chosen(stations, words, now);
            let (first, taken) = crate::entropy::sampled(words, open.len());
            let rest = crate::entropy::dropped(words, taken);
            let (draw, more) = crate::entropy::sampled(rest, (open.len() - 1) as nat);
            let second = if draw < first {
                draw as int
            } else {
                (draw + 1) as int
            };
            &&& open.len() < 2 ==> left == words
            &&& open.len() >= 2 ==> {
                let one = after[open[first as int]].controller.load(now);
                let two = after[open[second]].controller.load(now);
                &&& left == crate::entropy::dropped(rest, more)
                &&& choice == Some(open[first as int]) || choice == Some(open[second])
                &&& choice == Some(open[first as int]) <==> one.units() <= two.units()
            }
        }),
{
    reveal(model::chosen);
    reveal(Station::refreshed);
    let fresh = Seq::new(stations.len(), |i: int| stations[i].refreshed(now));
    let open = open_stations(fresh, fresh.len() as int);
    super::workers::lemma_open(fresh, fresh.len() as int);
    if open.len() >= 2 {
        let (first, taken) = crate::entropy::sampled(words, open.len());
        let rest = crate::entropy::dropped(words, taken);
        let (draw, more) = crate::entropy::sampled(rest, (open.len() - 1) as nat);
        crate::entropy::lemma_sampled(words, open.len());
        crate::entropy::lemma_sampled(rest, (open.len() - 1) as nat);
        let second = if draw < first {
            draw as int
        } else {
            (draw + 1) as int
        };
        let (i, j) = (open[first as int], open[second]);
        assert(i != j);
        let one = fresh.update(i, fresh[i].refreshed(now));
        let both = one.update(j, one[j].refreshed(now));
        assert(both[i] == one[i]);
        crate::double::lemma_order(one[i].controller.load(now), both[j].controller.load(now));
    }
}

/// A request arrives at every event that is set for the next arrival, and at no
/// other. The longest queue that was seen is the longest of all times.
pub proof fn law_arrivals_come_at_their_time(before: Progress, interval: Duration, now: Instant)
    requires
        before.stations.len() <= u64::MAX,
    ensures
        ({
            let after = before.stepped(interval, now);
            let longest = longest_queue(after.stations);
            &&& now == before.next_arrival ==> {
                &&& after.offered == before.offered + 1
                &&& after.next_arrival.nanos == crate::routing::at_most_last(
                    now.nanos + interval.nanos,
                )
            }
            &&& now != before.next_arrival ==> {
                &&& after.offered == before.offered
                &&& after.accepted == before.accepted
                &&& after.backpressured == before.backpressured
                &&& after.next_arrival == before.next_arrival
                &&& after.words == before.words
            }
            &&& after.max_queued == crate::routing::maximum(
                longest as int,
                before.max_queued as int,
            )
        }),
{
    reveal(Progress::stepped);
    reveal(Progress::served);
    reveal(Progress::arrived);
}

/// The longest queue is one of the queues, and none is longer.
pub proof fn law_the_longest_queue_is_a_maximum(stations: Seq<Station>, i: int)
    requires
        0 <= i < stations.len(),
    ensures
        stations[i].controller.pending.len() <= longest_queue(stations),
        exists|j: int|
            0 <= j < stations.len() && (#[trigger] stations[j]).controller.pending.len()
                == longest_queue(stations),
    decreases stations.len(),
{
    let rest = stations.drop_last();
    let n = stations.len() - 1;
    assert(stations[n] == stations.last());
    if n > 0 {
        let k = if i < n {
            i
        } else {
            0
        };
        law_the_longest_queue_is_a_maximum(rest, k);
        assert(rest[k] == stations[k]);
        let j = choose|j: int|
            0 <= j < rest.len() && (#[trigger] rest[j]).controller.pending.len() == longest_queue(
                rest,
            );
        assert(stations[j] == rest[j]);
    } else {
        assert(longest_queue(rest) == 0);
    }
}

/// Every endpoint starts with its workers free and its queue empty, with the
/// parameters that follow from its workload, and draws from words of its own:
/// those of the seed plus its place.
pub proof fn law_endpoints_start_idle(endpoint: SimulatedEndpoint, index: nat, seed: u64)
    requires
        seed + index <= u64::MAX,
    ensures
        ({
            let station = Station::fresh(endpoint, index, seed);
            &&& station.available_at.len() == endpoint.workers
            &&& forall|k: int|
                0 <= k < endpoint.workers ==> (#[trigger] station.available_at[k]).nanos == 0
            &&& station.service_time == endpoint.service_time
            &&& station.dispatched == 0
            &&& station.completed == 0
            &&& station.controller.pending.len() == 0
            &&& station.controller.inflight == 0
            &&& station.controller.pacer.tat.nanos == 0
            &&& station.controller.config == endpoint.config
            &&& station.controller.tuning.latency == endpoint.config.latency_tuning()
            &&& station.controller.tuning.gradient == endpoint.config.gradient_tuning()
            &&& station.controller.tuning.probe_schedule == crate::probe::ProbeSchedule::usual()
            &&& station.controller.words == crate::entropy::seeded_words((seed + index) as u64)
        }),
{
}

/// A simulation starts at zero with one station for each endpoint, nothing being
/// served, and the words of the seed.
pub proof fn law_simulations_start_empty(endpoints: Seq<SimulatedEndpoint>, seed: u64, i: int)
    requires
        0 <= i < endpoints.len(),
    ensures
        ({
            let start = Progress::fresh(endpoints, seed);
            &&& start.next_arrival.nanos == 0
            &&& start.offered == 0
            &&& start.accepted == 0
            &&& start.backpressured == 0
            &&& start.max_queued == 0
            &&& start.due.len() == 0
            &&& start.words == crate::entropy::seeded_words(seed)
            &&& start.stations.len() == endpoints.len()
            &&& start.stations[i] == Station::fresh(endpoints[i], i as nat, seed)
        }),
{
}

/// An endpoint reports what it counted, and shows its controller as it is at the
/// end.
pub proof fn law_reports_tell_what_was_counted(station: Station, end: Instant)
    requires
        station.dispatched <= u64::MAX,
        station.completed <= u64::MAX,
    ensures
        ({
            let report = reported(station, end);
            &&& report.dispatched == station.dispatched
            &&& report.completed == station.completed
            &&& report.snapshot == station.controller.refreshed(end).pictured(end)
        }),
{
    reveal(reported);
}

/// Asking the queues, as of the start, changes their controllers alone, and only
/// where something is queued.
pub proof fn law_asking_moves_nothing(before: Progress, i: int)
    requires
        0 <= i < before.stations.len(),
    ensures
        ({
            let after = before.asked();
            let start = Instant { nanos: 0 };
            &&& after.stations.len() == before.stations.len()
            &&& after.stations[i].dispatched == before.stations[i].dispatched
            &&& after.stations[i].completed == before.stations[i].completed
            &&& after.stations[i].available_at == before.stations[i].available_at
            &&& after.stations[i].service_time == before.stations[i].service_time
            &&& before.stations[i].controller.pending.len() == 0 ==> after.stations[i]
                == before.stations[i]
            &&& before.stations[i].controller.pending.len() > 0 ==> after.stations[i].controller
                == before.stations[i].controller.head_asked(start)
            &&& after.due == before.due
            &&& after.next_arrival == before.next_arrival
            &&& after.offered == before.offered
            &&& after.accepted == before.accepted
            &&& after.backpressured == before.backpressured
            &&& after.max_queued == before.max_queued
            &&& after.words == before.words
        }),
{
    reveal(Progress::asked);
    reveal(Station::asked);
}

/// A simulation ends where no request arrives and none is done any more up to its
/// end, and goes on with the next event otherwise, as long as that is not past
/// the end.
pub proof fn law_simulations_end_with_the_last_arrival_or_completion(
    before: Progress,
    interval: Duration,
    end: Instant,
)
    ensures
        ({
            let over = before.next_arrival.nanos > end.nanos && forall|k: int|
                0 <= k < before.due.len() ==> (#[trigger] before.due[k]).at.nanos > end.nanos;
            let at = before.next_event();
            let next = before.asked().stepped(interval, at);
            &&& over ==> before.run(interval, end) == before
            &&& !over && next.closer(before, end) ==> before.run(interval, end) == next.run(
                interval,
                end,
            )
        }),
{
    let over = before.next_arrival.nanos > end.nanos && forall|k: int|
        0 <= k < before.due.len() ==> (#[trigger] before.due[k]).at.nanos > end.nanos;
    lemma_first_done(before.due, 0);
    law_events_come_in_order(before, 0, 0);
    if over {
        if let Some(at) = first_done(before.due) {
            let j = choose|j: int| 0 <= j < before.due.len() && #[trigger] before.due[j].at == at;
            assert(before.due[j].at.nanos > end.nanos);
        }
    } else if before.next_arrival.nanos > end.nanos {
        let k = choose|k: int|
            0 <= k < before.due.len() && (#[trigger] before.due[k]).at.nanos <= end.nanos;
        lemma_first_done(before.due, k);
        law_events_come_in_order(before, 0, k);
    }
}

/// A request that arrives finds the stations as the completions and dispatches of
/// that time leave them: with nothing left to do. What it finds decides where it
/// goes.
pub proof fn law_arrivals_come_after_completions(
    before: Progress,
    interval: Duration,
    now: Instant,
)
    requires
        all_manned(before.stations, before.due),
        before.stations.len() <= u64::MAX,
        now.nanos < u128::MAX,
    ensures
        at_rest(before.served(now).stations, before.served(now).due, now),
        before.served(now).offered == before.offered,
        before.served(now).accepted == before.accepted,
        before.served(now).words == before.words,
        now == before.next_arrival ==> {
            let after = before.stepped(interval, now);
            let heard = before.served(now).arrived(interval, now);
            &&& after.accepted == heard.accepted
            &&& after.backpressured == heard.backpressured
            &&& after.words == heard.words
            &&& (after.stations, after.due) == all_driven(heard.stations, 0, heard.due, now)
        },
        now != before.next_arrival ==> {
            let after = before.stepped(interval, now);
            let served = before.served(now);
            (after.stations, after.due) == all_driven(served.stations, 0, served.due, now)
        },
{
    lemma_served(before, now);
    reveal(Progress::stepped);
    reveal(Progress::served);
}

/// A simulation can be run where requests arrive at a rate that can be paced, its
/// arrivals can be counted, and it has endpoints, each with a worker, a service
/// time and a valid workload.
pub proof fn law_simulations_are_bounded(config: SimulationConfig, i: int)
    ensures
        config.valid() ==> {
            &&& crate::gcra::representable(config.offered_rate)
            &&& config.duration.nanos <= MAX_NANOS
            &&& config.duration.nanos / config.arrival_interval().nanos < u64::MAX
            &&& config.endpoints@.len() > 0
            &&& 0 <= i < config.endpoints@.len() ==> {
                &&& config.endpoints@[i].workers > 0
                &&& config.endpoints@[i].service_time.nanos > 0
                &&& config.endpoints@[i].config.valid()
            }
        },
        config.endpoints@.len() == 1 && config.endpoints@[0].workers > 0
            && config.endpoints@[0].service_time.nanos > 0 && config.endpoints@[0].config.valid()
            && crate::gcra::representable(config.offered_rate) && config.duration.nanos
            <= MAX_NANOS && config.duration.nanos / config.arrival_interval().nanos < u64::MAX
            ==> config.valid(),
        config.arrival_interval() == crate::gcra::spacing(config.offered_rate),
        config.end().nanos == config.duration.nanos,
{
    if config.valid() && 0 <= i < config.endpoints@.len() {
        assert(config.endpoints@[i].workers > 0);
    }
}

} // verus!
