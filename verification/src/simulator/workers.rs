//! What a limited number of workers can do: each serves one request at a time.

use super::model::{
    self, all_completed, all_driven, chosen, driven, open_stations, soonest, total, Due, Progress,
    Station,
};
use super::SimulationConfig;
use crate::time::{Duration, Instant};
use vstd::arithmetic::div_mod::*;
use vstd::arithmetic::mul::*;
use vstd::prelude::*;

verus! {

/// How many requests each worker can have served by a time, going by when it is
/// free next: one for every whole service time.
pub open spec fn servable(station: Station, time: int) -> Seq<nat> {
    Seq::new(
        station.available_at.len(),
        |k: int|
            {
                let free = station.available_at[k].nanos as int;
                ((if free <= time { free } else { time }) / (station.service_time.nanos as int))
                    as nat
            },
    )
}

/// How many of some requests one endpoint has done by a time.
pub open spec fn done_by(due: Seq<Due>, index: int, time: int) -> nat
    decreases due.len(),
{
    if due.len() == 0 {
        0
    } else {
        let last = due.last();
        done_by(due.drop_last(), index, time) + if last.endpoint == index && last.at.nanos
            <= time {
            1nat
        } else {
            0nat
        }
    }
}

pub proof fn lemma_done_first(due: Seq<Due>, index: int, time: int)
    requires
        due.len() > 0,
    ensures
        done_by(due, index, time) == done_by(due.skip(1), index, time) + if due[0].endpoint == index
            && due[0].at.nanos <= time {
            1nat
        } else {
            0nat
        },
    decreases due.len(),
{
    if due.len() == 1 {
        assert(due.drop_last() =~= Seq::empty());
        assert(due.skip(1) =~= Seq::empty());
        reveal_with_fuel(done_by, 2);
    } else {
        let rest = due.drop_last();
        lemma_done_first(rest, index, time);
        assert(due.skip(1).drop_last() =~= rest.skip(1));
        assert(due.skip(1).last() == due.last());
    }
}

proof fn lemma_done_ahead(first: Due, due: Seq<Due>, index: int, time: int)
    ensures
        done_by(seq![first] + due, index, time) == done_by(due, index, time) + if first.endpoint
            == index && first.at.nanos <= time {
            1nat
        } else {
            0nat
        },
{
    let all = seq![first] + due;
    lemma_done_first(all, index, time);
    assert(all.skip(1) =~= due);
}

/// The soonest worker is not free later than any other.
pub proof fn lemma_soonest(at: Seq<Instant>)
    requires
        at.len() > 0,
    ensures
        0 <= soonest(at) < at.len(),
        forall|k: int| 0 <= k < at.len() ==> at[soonest(at)].nanos <= (#[trigger] at[k]).nanos,
    decreases at.len(),
{
    if at.len() > 1 {
        let rest = at.drop_last();
        lemma_soonest(rest);
        assert forall|k: int| 0 <= k < at.len() implies at[soonest(at)].nanos <= (
        #[trigger] at[k]).nanos by {
            if k < rest.len() {
                assert(rest[soonest(rest)].nanos <= rest[k].nanos);
            }
        }
    }
}

/// A worker serves one request at a time: a request that is dispatched is done
/// one service time after the first worker becomes free, or after now where
/// one is free already. That worker alone is taken, until then.
pub proof fn law_a_worker_serves_one_request_at_a_time(station: Station, index: nat, now: Instant)
    requires
        station.available_at.len() > 0,
    ensures
        exists|k: int| #[trigger]
            takes(station, station.dispatched_head(now), station.started(index, now), k, now),
        station.started(index, now).sent_at == now,
        station.started(index, now).endpoint == index,
        station.dispatched_head(now).dispatched == station.dispatched + 1,
        station.dispatched_head(now).completed == station.completed,
        station.dispatched_head(now).service_time == station.service_time,
{
    reveal(Station::dispatched_head);
    reveal(Station::started);
    lemma_soonest(station.available_at);
    let k = soonest(station.available_at);
    assert(takes(station, station.dispatched_head(now), station.started(index, now), k, now));
}

/// Whether a worker takes a request that is dispatched now: no other one is
/// free earlier, it begins when it is free, and it is busy for one service time.
pub open spec fn takes(before: Station, after: Station, due: Due, k: int, now: Instant) -> bool {
    let free = before.available_at[k].nanos as int;
    let begin = if free >= now.nanos {
        free
    } else {
        now.nanos as int
    };
    let end = begin + before.service_time.nanos;
    &&& 0 <= k < before.available_at.len()
    &&& forall|j: int|
        0 <= j < before.available_at.len() ==> free <= (#[trigger] before.available_at[j]).nanos
    &&& due.at.nanos == if end <= u128::MAX {
        end
    } else {
        u128::MAX as int
    }
    &&& after.available_at == before.available_at.update(k, due.at)
}

/// Whether an endpoint has done no more by a time than its workers can.
pub open spec fn within(station: Station, index: int, due: Seq<Due>, time: int) -> bool {
    &&& station.service_time.nanos > 0
    &&& station.available_at.len() > 0
    &&& station.completed + done_by(due, index, time) <= total(servable(station, time))
}

/// Whether all endpoints have, and every request is at one of them.
pub open spec fn all_within(stations: Seq<Station>, due: Seq<Due>, time: int) -> bool {
    &&& forall|i: int| 0 <= i < stations.len() ==> within(#[trigger] stations[i], i, due, time)
    &&& forall|k: int| 0 <= k < due.len() ==> (#[trigger] due[k]).endpoint < stations.len()
}

/// A dispatch takes as much from what the workers can do as it adds.
proof fn lemma_dispatch_within(station: Station, index: nat, due: Seq<Due>, now: Instant, time: int)
    requires
        within(station, index as int, due, time),
        0 <= time < u128::MAX,
    ensures
        within(
            station.dispatched_head(now),
            index as int,
            due.push(station.started(index, now)),
            time,
        ),
{
    law_a_worker_serves_one_request_at_a_time(station, index, now);
    let after = station.dispatched_head(now);
    let started = station.started(index, now);
    let k = choose|k: int| #[trigger] takes(station, after, started, k, now);
    let (a, b) = (servable(station, time), servable(after, time));
    let s = station.service_time.nanos as int;
    let free = station.available_at[k].nanos as int;
    let at = started.at.nanos as int;
    let capped = if free <= time { free } else { time };
    let later = if at <= time { at } else { time };
    assert(b =~= a.update(k, b[k]));
    model::lemma_total_update(a, k, b[k]);
    lemma_div_pos_is_pos(capped, s);
    lemma_div_pos_is_pos(later, s);
    assert(capped / s <= later / s) by {
        lemma_div_is_ordered(capped, later, s);
    }
    let all = due.push(started);
    assert(all.drop_last() =~= due);
    if at <= time {
        assert(free + s <= at);
        assert((free + s) / s == free / s + 1) by {
            lemma_div_plus_one(free, s);
        }
        lemma_div_is_ordered(free + s, at, s);
    }
}

/// What another endpoint has done does not change with a dispatch elsewhere.
proof fn lemma_elsewhere(due: Seq<Due>, more: Due, index: int, time: int)
    requires
        more.endpoint != index,
    ensures
        done_by(due.push(more), index, time) == done_by(due, index, time),
{
    assert(due.push(more).drop_last() =~= due);
}

/// Whether a controller alone may differ.
pub open spec fn same_workers(a: Station, b: Station) -> bool {
    &&& a.available_at == b.available_at
    &&& a.service_time == b.service_time
    &&& a.completed == b.completed
}

proof fn lemma_driven_within(
    station: Station,
    index: nat,
    due: Seq<Due>,
    now: Instant,
    time: int,
    n: nat,
)
    requires
        within(station, index as int, due, time),
        index < n,
        forall|k: int| 0 <= k < due.len() ==> (#[trigger] due[k]).endpoint < n,
        0 <= time < u128::MAX,
    ensures
        ({
            let (after, more) = driven(station, index, due, now);
            &&& within(after, index as int, more, time)
            &&& after.service_time == station.service_time
            &&& after.available_at.len() == station.available_at.len()
            &&& forall|j: int|
                j != index ==> #[trigger] done_by(more, j, time) == done_by(due, j, time)
            &&& forall|k: int| 0 <= k < more.len() ==> (#[trigger] more[k]).endpoint < n
        }),
    decreases station.controller.pending.len(),
{
    model::lemma_refresh_keeps(station.controller, now);
    if station.ready(now) {
        let next = station.dispatched_head(now);
        let started = station.started(index, now);
        lemma_dispatch_within(station, index, due, now, time);
        law_a_worker_serves_one_request_at_a_time(station, index, now);
        assert(next.controller.pending.len() < station.controller.pending.len()) by {
            reveal(Station::dispatched_head);
        }
        lemma_driven_within(next, index, due.push(started), now, time, n);
        assert forall|j: int| j != index implies done_by(due.push(started), j, time) == done_by(
            due,
            j,
            time,
        ) by {
            lemma_elsewhere(due, started, j, time);
        }
    } else {
        reveal(Station::asked);
        assert(servable(station.asked(now), time) =~= servable(station, time));
    }
}

proof fn lemma_all_driven_within(
    stations: Seq<Station>,
    i: int,
    due: Seq<Due>,
    now: Instant,
    time: int,
)
    requires
        all_within(stations, due, time),
        0 <= i <= stations.len(),
        0 <= time < u128::MAX,
    ensures
        ({
            let (after, more) = all_driven(stations, i, due, now);
            &&& all_within(after, more, time)
            &&& alike(after, stations)
        }),
    decreases stations.len() - i,
{
    if i < stations.len() {
        let fresh = stations[i].refreshed(now);
        reveal(Station::refreshed);
        assert(servable(fresh, time) =~= servable(stations[i], time));
        lemma_driven_within(fresh, i as nat, due, now, time, stations.len());
        let (station, more) = driven(fresh, i as nat, due, now);
        let next = stations.update(i, station);
        assert forall|j: int| 0 <= j < next.len() implies within(#[trigger] next[j], j, more, time)
            by {
            if j != i {
                assert(within(stations[j], j, due, time));
                assert(done_by(more, j, time) == done_by(due, j, time));
            }
        }
        lemma_all_driven_within(next, i + 1, more, now, time);
    }
}

/// Whether the endpoints are the same but for what happened at them.
pub open spec fn alike(a: Seq<Station>, b: Seq<Station>) -> bool {
    &&& a.len() == b.len()
    &&& forall|i: int|
        0 <= i < a.len() ==> (#[trigger] a[i]).service_time == b[i].service_time
            && a[i].available_at.len() == b[i].available_at.len()
}

/// A completion counts a request that was done.
proof fn lemma_completed_within(stations: Seq<Station>, due: Seq<Due>, now: Instant, time: int)
    requires
        all_within(stations, due, time),
        now.nanos <= time,
    ensures
        ({
            let (after, left) = all_completed(stations, due, now);
            &&& all_within(after, left, time)
            &&& alike(after, stations)
        }),
    decreases due.len(), 1int,
{
    if due.len() > 0 {
        let first = due[0];
        let rest = due.skip(1);
        let i = first.endpoint as int;
        assert(due[0].endpoint < stations.len());
        assert forall|k: int| 0 <= k < rest.len() implies (#[trigger] rest[k]).endpoint
            < stations.len() by {
            assert(rest[k] == due[k + 1]);
        }
        if first.at.nanos <= now.nanos {
            let next = stations.update(i, stations[i].finished(first, now));
            reveal(Station::finished);
            assert forall|j: int| 0 <= j < next.len() implies within(
                #[trigger] next[j],
                j,
                rest,
                time,
            ) by {
                lemma_done_first(due, j, time);
                assert(within(stations[j], j, due, time));
                assert(servable(next[j], time) =~= servable(stations[j], time));
            }
            lemma_completed_within(next, rest, now, time);
        } else {
            lemma_completed_later(stations, due, now, time);
        }
    }
}

/// A request that is not done yet stays.
proof fn lemma_completed_later(stations: Seq<Station>, due: Seq<Due>, now: Instant, time: int)
    requires
        all_within(stations, due, time),
        now.nanos <= time,
        due.len() > 0,
        due[0].at.nanos > now.nanos,
    ensures
        ({
            let (after, left) = all_completed(stations, due, now);
            &&& all_within(after, left, time)
            &&& alike(after, stations)
        }),
    decreases due.len(), 0int,
{
    let first = due[0];
    let rest = due.skip(1);
    let (after, left) = all_completed(stations, rest, now);
    let index = first.endpoint as int;
    assert(due[0].endpoint < stations.len());
    // The first one is set aside, and one less is asked of its endpoint.
    let spare = if first.at.nanos <= time { 1nat } else { 0nat };
    let station = stations[index];
    let aside = stations.update(index, Station { completed: station.completed + spare, ..station });
    assert forall|k: int| 0 <= k < rest.len() implies (#[trigger] rest[k]).endpoint < aside.len()
        by {
        assert(rest[k] == due[k + 1]);
    }
    assert forall|j: int| 0 <= j < aside.len() implies within(#[trigger] aside[j], j, rest, time)
        by {
        lemma_done_first(due, j, time);
        assert(within(stations[j], j, due, time));
        assert(servable(aside[j], time) =~= servable(stations[j], time));
    }
    lemma_completed_shift(stations, rest, now, index, spare);
    lemma_completed_within(aside, rest, now, time);
    let (other, same) = all_completed(aside, rest, now);
    let all = seq![first] + left;
    assert forall|j: int| 0 <= j < after.len() implies within(
        #[trigger] after[j],
        j,
        all,
        time,
    ) by {
        lemma_done_ahead(first, left, j, time);
        assert(within(other[j], j, same, time));
        assert(servable(after[j], time) =~= servable(other[j], time));
    }
    assert forall|k: int| 0 <= k < all.len() implies (#[trigger] all[k]).endpoint < after.len() by {
        if k > 0 {
            assert(all[k] == left[k - 1]);
        }
    }
    assert forall|j: int| 0 <= j < after.len() implies (#[trigger] after[j]).service_time
        == stations[j].service_time && after[j].available_at.len()
        == stations[j].available_at.len() by {
        assert(other[j].service_time == aside[j].service_time);
    }
}

/// What a completion does to a station does not depend on how many it has counted.
proof fn lemma_finished_shift(station: Station, due: Due, now: Instant, spare: nat)
    ensures
        ({
            let after = station.finished(due, now);
            (Station { completed: station.completed + spare, ..station }).finished(due, now)
                == (Station { completed: after.completed + spare, ..after })
        }),
{
    reveal(Station::finished);
}

/// Completions elsewhere do not depend on how many an endpoint has counted.
#[verifier::rlimit(40)]
#[verifier::spinoff_prover]
proof fn lemma_completed_shift(
    stations: Seq<Station>,
    due: Seq<Due>,
    now: Instant,
    index: int,
    spare: nat,
)
    requires
        0 <= index < stations.len(),
        forall|k: int| 0 <= k < due.len() ==> (#[trigger] due[k]).endpoint < stations.len(),
    ensures
        ({
            let station = stations[index];
            let aside = stations.update(
                index,
                Station { completed: station.completed + spare, ..station },
            );
            let (after, left) = all_completed(stations, due, now);
            let (other, same) = all_completed(aside, due, now);
            &&& left == same
            &&& after.len() == stations.len()
            &&& other == after.update(
                index,
                Station { completed: after[index].completed + spare, ..after[index] },
            )
        }),
    decreases due.len(),
{
    let station = stations[index];
    let aside = stations.update(
        index,
        Station { completed: station.completed + spare, ..station },
    );
    if due.len() > 0 {
        let first = due[0];
        let rest = due.skip(1);
        let i = first.endpoint as int;
        assert(due[0].endpoint < stations.len());
        assert forall|k: int| 0 <= k < rest.len() implies (#[trigger] rest[k]).endpoint
            < stations.len() by {
            assert(rest[k] == due[k + 1]);
        }
        if first.at.nanos <= now.nanos {
            let next = stations.update(i, stations[i].finished(first, now));
            let other = aside.update(i, aside[i].finished(first, now));
            lemma_completed_shift(next, rest, now, index, spare);
            lemma_finished_shift(stations[i], first, now, spare);
            let shifted = next.update(
                index,
                Station { completed: next[index].completed + spare, ..next[index] },
            );
            assert forall|j: int| 0 <= j < next.len() implies other[j] == shifted[j] by {}
            assert(other =~= shifted);
        } else {
            lemma_completed_shift(stations, rest, now, index, spare);
        }
    } else {
        assert(aside =~= stations.update(
            index,
            Station { completed: station.completed + spare, ..station },
        ));
    }
}

/// What happens at controllers alone changes nothing for the workers.
proof fn lemma_controllers_alone(a: Seq<Station>, b: Seq<Station>, due: Seq<Due>, time: int)
    requires
        all_within(a, due, time),
        a.len() == b.len(),
        forall|i: int| 0 <= i < a.len() ==> same_workers(#[trigger] a[i], b[i]),
    ensures
        all_within(b, due, time),
        alike(b, a),
{
    assert forall|i: int| 0 <= i < b.len() implies within(#[trigger] b[i], i, due, time) by {
        assert(within(a[i], i, due, time));
        assert(same_workers(a[i], b[i]));
        assert(servable(b[i], time) =~= servable(a[i], time));
    }
    assert forall|i: int| 0 <= i < b.len() implies (#[trigger] b[i]).service_time
        == a[i].service_time && b[i].available_at.len() == a[i].available_at.len() by {
        assert(same_workers(a[i], b[i]));
    }
}

/// The open stations are those with space, each of them once.
pub proof fn lemma_open(stations: Seq<Station>, n: int)
    requires
        0 <= n <= stations.len(),
    ensures
        ({
            let open = open_stations(stations, n);
            &&& open.len() <= n
            &&& forall|k: int|
                0 <= k < open.len() ==> {
                    &&& 0 <= #[trigger] open[k] < n
                    &&& stations[open[k]].controller.has_space()
                }
            &&& forall|j: int, k: int|
                0 <= j < k < open.len() ==> #[trigger] open[j] < #[trigger] open[k]
            &&& forall|i: int|
                0 <= i < n && (#[trigger] stations[i]).controller.has_space() ==> open.contains(i)
        }),
    decreases n,
{
    if n > 0 {
        lemma_open(stations, n - 1);
        let rest = open_stations(stations, n - 1);
        let open = open_stations(stations, n);
        assert forall|i: int|
            0 <= i < n && (#[trigger] stations[i]).controller.has_space() implies open.contains(
            i,
        ) by {
            if i < n - 1 {
                let k = choose|k: int| 0 <= k < rest.len() && rest[k] == i;
                assert(open[k] == i);
            } else {
                assert(open[open.len() - 1] == i);
            }
        }
    }
}

/// An arriving request is compared at two distinct stations with space, and
/// goes to the one with the lower load. It goes to the only one with space
/// where there is one, and to none only where all queues are full.
pub proof fn law_arrivals_compare_two_stations(
    stations: Seq<Station>,
    words: Map<nat, u32>,
    now: Instant,
)
    requires
        stations.len() <= u64::MAX,
    ensures
        ({
            let (after, _, choice) = chosen(stations, words, now);
            &&& after.len() == stations.len()
            &&& forall|i: int|
                0 <= i < stations.len() ==> same_workers(#[trigger] stations[i], after[i])
            &&& choice is None <==> forall|i: int|
                0 <= i < stations.len() ==> full(#[trigger] stations[i])
            &&& choice matches Some(i) ==> {
                &&& 0 <= i < stations.len()
                &&& !full(stations[i])
                &&& (forall|j: int| 0 <= j < stations.len() && j != i ==> full(
                    #[trigger] stations[j],
                )) || exists|j: int|
                    0 <= j < stations.len() && j != i && !full(#[trigger] stations[j])
                        && after[i].controller.load(now).bits <= after[j].controller.load(now).bits
            }
        }),
{
    reveal(model::chosen);
    reveal(Station::refreshed);
    let fresh = Seq::new(stations.len(), |i: int| stations[i].refreshed(now));
    let ready = open_stations(fresh, fresh.len() as int);
    lemma_open(fresh, fresh.len() as int);
    assert forall|i: int| 0 <= i < stations.len() implies full(#[trigger] stations[i])
        == !fresh[i].controller.has_space() by {
        model::lemma_refresh_keeps(stations[i].controller, now);
    }
    let (after, _, choice) = chosen(stations, words, now);
    if ready.len() == 0 {
        assert forall|i: int| 0 <= i < stations.len() implies full(#[trigger] stations[i]) by {
            assert(!fresh[i].controller.has_space());
        }
    } else if ready.len() == 1 {
        let i = ready[0];
        assert(!full(stations[i]));
        assert forall|j: int| 0 <= j < stations.len() && j != i implies full(
            #[trigger] stations[j],
        ) by {
            if fresh[j].controller.has_space() {
                assert(ready.contains(j));
            }
        }
    } else {
        let (a, a_words) = crate::entropy::sampled(words, ready.len());
        let left = crate::entropy::dropped(words, a_words);
        let (draw, b_words) = crate::entropy::sampled(left, (ready.len() - 1) as nat);
        crate::entropy::lemma_sampled(words, ready.len());
        crate::entropy::lemma_sampled(left, (ready.len() - 1) as nat);
        let b = model::beside(a, draw);
        assert(a != b && b < ready.len());
        let (i, j) = (ready[a as int], ready[b as int]);
        assert(i != j);
        assert(!full(stations[i]) && !full(stations[j]));
        let one = fresh.update(i, fresh[i].refreshed(now));
        let both = one.update(j, one[j].refreshed(now));
        assert(after == both);
        assert(both[i] == one[i]);
    }
}

/// Whether the queue of a station is full.
pub open spec fn full(station: Station) -> bool {
    station.controller.pending.len() >= station.controller.config.queue_capacity
}

/// A request that arrives is accepted unless all queues are full or a controller
/// has no identity left, and then waits at the end of the queue that was chosen.
pub proof fn law_arrivals_are_accepted_or_pushed_back(
    before: Progress,
    interval: Duration,
    now: Instant,
)
    requires
        before.stations.len() <= u64::MAX,
    ensures
        ({
            let after = before.arrived(interval, now);
            let (seen, _, choice) = chosen(before.stations, before.words, now);
            &&& after.offered == before.offered + 1
            &&& after.accepted + after.backpressured == before.accepted + before.backpressured + 1
            &&& after.accepted == before.accepted + 1 <==> choice is Some
                && seen[choice.unwrap()].controller.next_id < u64::MAX
            &&& after.next_arrival == before.next_arrival.later(interval)
            &&& after.due == before.due
            &&& after.accepted > before.accepted ==> {
                let i = choice.unwrap();
                &&& after.stations[i].controller.pending.len()
                    == seen[i].controller.pending.len() + 1
                &&& forall|j: int|
                    0 <= j < seen.len() && j != i ==> #[trigger] after.stations[j] == seen[j]
            }
            &&& after.accepted == before.accepted ==> after.stations == seen
        }),
{
    law_arrivals_compare_two_stations(before.stations, before.words, now);
    lemma_chosen_space(before.stations, before.words, now);
    reveal(Progress::arrived);
}

/// A station that is chosen still has space.
proof fn lemma_chosen_space(stations: Seq<Station>, words: Map<nat, u32>, now: Instant)
    requires
        stations.len() <= u64::MAX,
    ensures
        ({
            let (after, _, choice) = chosen(stations, words, now);
            choice matches Some(i) ==> after[i].controller.has_space()
        }),
{
    reveal(model::chosen);
    reveal(Station::refreshed);
    let fresh = Seq::new(stations.len(), |i: int| stations[i].refreshed(now));
    let ready = open_stations(fresh, fresh.len() as int);
    lemma_open(fresh, fresh.len() as int);
    if ready.len() >= 2 {
        let (a, a_words) = crate::entropy::sampled(words, ready.len());
        let left = crate::entropy::dropped(words, a_words);
        let (draw, b_words) = crate::entropy::sampled(left, (ready.len() - 1) as nat);
        crate::entropy::lemma_sampled(words, ready.len());
        crate::entropy::lemma_sampled(left, (ready.len() - 1) as nat);
        let b = model::beside(a, draw);
        let (i, j) = (ready[a as int], ready[b as int]);
        assert(fresh[i].controller.has_space() && fresh[j].controller.has_space());
        model::lemma_refresh_keeps(fresh[i].controller, now);
        model::lemma_refresh_keeps(fresh[j].controller, now);
    }
}

proof fn lemma_arrived_within(before: Progress, interval: Duration, now: Instant, time: int)
    requires
        before.stations.len() <= u64::MAX,
        all_within(before.stations, before.due, time),
    ensures
        ({
            let after = before.arrived(interval, now);
            &&& all_within(after.stations, after.due, time)
            &&& alike(after.stations, before.stations)
        }),
{
    reveal(Progress::arrived);
    law_arrivals_compare_two_stations(before.stations, before.words, now);
    let after = before.arrived(interval, now);
    lemma_controllers_alone(before.stations, after.stations, before.due, time);
}

proof fn lemma_stepped_within(before: Progress, interval: Duration, now: Instant, time: int)
    requires
        before.stations.len() <= u64::MAX,
        all_within(before.stations, before.due, time),
        now.nanos <= time < u128::MAX,
    ensures
        ({
            let after = before.stepped(interval, now);
            &&& all_within(after.stations, after.due, time)
            &&& alike(after.stations, before.stations)
        }),
{
    reveal(Progress::stepped);
    reveal(Progress::served);
    lemma_completed_within(before.stations, before.due, now, time);
    let (stations, due) = all_completed(before.stations, before.due, now);
    lemma_all_driven_within(stations, 0, due, now, time);
    let served = before.served(now);
    assert(all_within(served.stations, served.due, time));
    let heard = if now == before.next_arrival {
        lemma_arrived_within(served, interval, now, time);
        served.arrived(interval, now)
    } else {
        served
    };
    lemma_all_driven_within(heard.stations, 0, heard.due, now, time);
    lemma_alike(stations, before.stations, served.stations);
    lemma_alike(served.stations, before.stations, heard.stations);
    let after = before.stepped(interval, now);
    lemma_alike(heard.stations, before.stations, after.stations);
}

proof fn lemma_alike(b: Seq<Station>, a: Seq<Station>, c: Seq<Station>)
    requires
        alike(b, a),
        alike(c, b),
    ensures
        alike(c, a),
{
    assert forall|i: int| 0 <= i < c.len() implies (#[trigger] c[i]).service_time
        == a[i].service_time && c[i].available_at.len() == a[i].available_at.len() by {
        assert(b[i].service_time == a[i].service_time);
    }
}

proof fn lemma_asked_within(before: Progress, time: int)
    requires
        all_within(before.stations, before.due, time),
    ensures
        all_within(before.asked().stations, before.asked().due, time),
        alike(before.asked().stations, before.stations),
{
    reveal(Progress::asked);
    reveal(Station::asked);
    lemma_controllers_alone(before.stations, before.asked().stations, before.due, time);
}

/// No endpoint ever gets ahead of its workers.
proof fn lemma_run_within(before: Progress, interval: Duration, end: Instant)
    requires
        before.stations.len() <= u64::MAX,
        all_within(before.stations, before.due, end.nanos as int),
        end.nanos < u128::MAX,
    ensures
        ({
            let after = before.run(interval, end);
            &&& all_within(after.stations, after.due, end.nanos as int)
            &&& alike(after.stations, before.stations)
        }),
    decreases before.time_left(end), before.work_left(end),
{
    let time = end.nanos as int;
    if before.goes_on(end) {
        lemma_asked_within(before, time);
        let asked = before.asked();
        let now = before.next_event();
        if now.nanos <= end.nanos {
            lemma_stepped_within(asked, interval, now, time);
            let next = asked.stepped(interval, now);
            lemma_alike(asked.stations, before.stations, next.stations);
            if next.closer(before, end) {
                lemma_run_within(next, interval, end);
                lemma_alike(next.stations, before.stations, next.run(interval, end).stations);
            }
        }
    }
}

proof fn lemma_total_bounded(numbers: Seq<nat>, most: nat)
    requires
        forall|i: int| 0 <= i < numbers.len() ==> #[trigger] numbers[i] <= most,
    ensures
        total(numbers) <= numbers.len() * most,
    decreases numbers.len(),
{
    if numbers.len() > 0 {
        let rest = numbers.drop_last();
        assert forall|i: int| 0 <= i < rest.len() implies #[trigger] rest[i] <= most by {
            assert(rest[i] == numbers[i]);
        }
        lemma_total_bounded(rest, most);
        assert(numbers[numbers.len() - 1] <= most);
        assert(numbers.len() * most == rest.len() * most + most) by (nonlinear_arith)
            requires
                numbers.len() == rest.len() + 1,
        ;
    } else {
        assert(0 * most == 0) by (nonlinear_arith);
    }
}

/// Workers limit what an endpoint completes: each of them one request for every
/// service time of the whole simulation.
pub proof fn law_workers_limit_completions(config: SimulationConfig, i: int)
    requires
        config.valid(),
        0 <= i < config.endpoints@.len(),
    ensures
        config.outcome().stations.len() == config.endpoints@.len(),
        config.outcome().stations[i].completed <= config.endpoints@[i].workers * (
        config.duration.nanos / config.endpoints@[i].service_time.nanos),
{
    let start = Progress::fresh(config.endpoints@, config.seed);
    let end = config.end();
    let time = end.nanos as int;
    assert(time == config.duration.nanos);
    assert forall|j: int| 0 <= j < start.stations.len() implies within(
        #[trigger] start.stations[j],
        j,
        start.due,
        time,
    ) by {
        assert(config.endpoints@[j].workers > 0);
    }
    assert(config.endpoints.len() <= usize::MAX);
    lemma_run_within(start, config.arrival_interval(), end);
    let station = config.outcome().stations[i];
    let s = station.service_time.nanos as int;
    assert(within(station, i, config.outcome().due, time));
    assert(station.service_time == start.stations[i].service_time);
    assert(station.available_at.len() == config.endpoints@[i].workers);
    lemma_div_pos_is_pos(time, s);
    let most = (time / s) as nat;
    let numbers = servable(station, time);
    assert forall|k: int| 0 <= k < numbers.len() implies #[trigger] numbers[k] <= most by {
        let free = station.available_at[k].nanos as int;
        let by_then = if free <= time { free } else { time };
        lemma_div_is_ordered(by_then, time, s);
        lemma_div_pos_is_pos(by_then, s);
    }
    lemma_total_bounded(numbers, most);
}

} // verus!
