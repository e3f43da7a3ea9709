//! Why a simulation ends: every event leaves less to happen.

use super::model::{
    self, all_completed, all_driven, driven, first_done, next_dispatch, probing_work, total, works,
    Due, Progress, Station,
};
use crate::controller::{DispatchState, Endpoint};
use crate::time::{Duration, Instant};
use vstd::prelude::*;

verus! {

/// Bringing a controller up to date leaves its probes no more to do.
proof fn lemma_refreshing(endpoint: Endpoint, now: Instant, end: Instant)
    requires
        endpoint.tuning.valid(),
        now.nanos <= end.nanos < u128::MAX,
    ensures
        probing_work(endpoint.refreshed(now).probe, end) <= probing_work(endpoint.probe, end),
        probing_work(endpoint.head_asked(now).probe, end) <= probing_work(endpoint.probe, end),
        endpoint.refreshed(now).tuning == endpoint.tuning,
        endpoint.head_asked(now).tuning == endpoint.tuning,
        endpoint.refreshed(now).probe == endpoint.decided(now).probe.expired(now),
{
    reveal(Endpoint::refreshed);
    let decided = endpoint.decided(now);
    let fresh = endpoint.refreshed(now);
    assert(fresh.probe == decided.probe.expired(now));
    if endpoint.demand() && endpoint.probe.due(now) {
        assert(decided.probe.next_probe_at matches Some(at) && at.nanos > now.nanos);
    }
}

/// A head that was told when to be looked at again is ready then, or its
/// controller's probes have less to do from then on.
proof fn lemma_waiting_ends(endpoint: Endpoint, at: Instant, end: Instant)
    requires
        endpoint.wf(),
        endpoint.pending.len() > 0,
        endpoint.inflight < endpoint.config.max_inflight,
        at == match endpoint.recheck_at() {
            Some(recheck) => endpoint.pending[0].scheduled_at.earliest(recheck),
            None => endpoint.pending[0].scheduled_at,
        },
        at.nanos <= end.nanos < u128::MAX,
    ensures
        ({
            let fresh = endpoint.refreshed(at);
            ||| fresh.head_state(at) == DispatchState::Ready
            ||| probing_work(fresh.probe, end) < probing_work(endpoint.probe, end)
        }),
{
    let fresh = endpoint.refreshed(at);
    lemma_refreshing(endpoint, at, end);
    model::lemma_refresh_keeps(endpoint, at);
    let decided = endpoint.decided(at);
    if at == endpoint.pending[0].scheduled_at {
        reveal(Endpoint::refreshed);
        let moved = Endpoint { probe: decided.probe.expired(at), ..decided };
        let interval = crate::gcra::spacing(moved.effective_rate(at));
        assert(endpoint.pacer.tat.nanos <= at.nanos);
        crate::gcra::law_idle_stays_available(moved.pacer, interval, at);
        crate::controller::lemma_first_slot(at, interval);
        assert(fresh.pending[0].scheduled_at == at);
    } else if endpoint.demand() && endpoint.probe.due(at) {
        assert(decided.probe.next_probe_at matches Some(next) && next.nanos > at.nanos);
    }
}

/// Driving a station leaves it no more to do, and less where its head is ready.
proof fn lemma_driving(station: Station, index: nat, due: Seq<Due>, now: Instant, end: Instant)
    requires
        station.controller.tuning.valid(),
        now.nanos <= end.nanos < u128::MAX,
    ensures
        ({
            let (after, more) = driven(station, index, due, now);
            &&& after.work(end) + more.len() <= station.work(end) + due.len()
            &&& station.ready(now) ==> after.work(end) + more.len() < station.work(end)
                + due.len()
            &&& after.controller.tuning == station.controller.tuning
        }),
    decreases station.controller.pending.len(),
{
    model::lemma_refresh_keeps(station.controller, now);
    lemma_refreshing(station.controller, now, end);
    reveal(Station::dispatched_head);
    reveal(Station::asked);
    if station.ready(now) {
        let next = station.dispatched_head(now);
        assert(next.controller.pending.len() == station.controller.pending.len() - 1);
        lemma_driving(next, index, due.push(station.started(index, now)), now, end);
    }
}

/// Whether every controller has valid parameters.
pub open spec fn tuned(stations: Seq<Station>) -> bool {
    forall|i: int| 0 <= i < stations.len() ==> (#[trigger] stations[i]).controller.tuning.valid()
}

/// Whether a station is ready once it is brought up to date, or has less to do
/// then.
pub open spec fn moves(station: Station, now: Instant, end: Instant) -> bool {
    station.refreshed(now).ready(now) || station.refreshed(now).work(end) < station.work(end)
}

/// Driving all stations leaves no more to do, and less where one moves.
proof fn lemma_driving_all(
    stations: Seq<Station>,
    i: int,
    due: Seq<Due>,
    now: Instant,
    end: Instant,
)
    requires
        tuned(stations),
        0 <= i <= stations.len(),
        now.nanos <= end.nanos < u128::MAX,
    ensures
        ({
            let (after, more) = all_driven(stations, i, due, now);
            &&& total(works(after, end)) + more.len() <= total(works(stations, end)) + due.len()
            &&& (exists|k: int| i <= k < stations.len() && #[trigger] moves(stations[k], now, end))
                ==> total(works(after, end)) + more.len() < total(works(stations, end))
                + due.len()
            &&& tuned(after)
            &&& after.len() == stations.len()
        }),
    decreases stations.len() - i,
{
    if i < stations.len() {
        let fresh = stations[i].refreshed(now);
        reveal(Station::refreshed);
        model::lemma_refresh_keeps(stations[i].controller, now);
        lemma_refreshing(stations[i].controller, now, end);
        lemma_driving(fresh, i as nat, due, now, end);
        let (station, more) = driven(fresh, i as nat, due, now);
        let next = stations.update(i, station);
        lemma_driving_all(next, i + 1, more, now, end);
        assert(works(next, end) =~= works(stations, end).update(i, station.work(end)));
        model::lemma_total_update(works(stations, end), i, station.work(end));
        if exists|k: int| i <= k < stations.len() && #[trigger] moves(stations[k], now, end) {
            let k = choose|k: int|
                i <= k < stations.len() && #[trigger] moves(stations[k], now, end);
            if k > i {
                assert(next[k] == stations[k]);
                assert(moves(next[k], now, end));
            }
        }
    }
}

/// Completing what is done leaves no more to do, and less where something is
/// done; where nothing is, nothing changes.
proof fn lemma_completing(stations: Seq<Station>, due: Seq<Due>, now: Instant, end: Instant)
    requires
        tuned(stations),
        now.nanos <= end.nanos < u128::MAX,
        forall|k: int| 0 <= k < due.len() ==> (#[trigger] due[k]).endpoint < stations.len(),
    ensures
        ({
            let (after, left) = all_completed(stations, due, now);
            &&& total(works(after, end)) + left.len() <= total(works(stations, end)) + due.len()
            &&& (exists|k: int| 0 <= k < due.len() && (#[trigger] due[k]).at.nanos <= now.nanos)
                ==> total(works(after, end)) + left.len() < total(works(stations, end))
                + due.len()
            &&& (forall|k: int| 0 <= k < due.len() ==> (#[trigger] due[k]).at.nanos > now.nanos)
                ==> after == stations && left == due
            &&& tuned(after)
            &&& after.len() == stations.len()
        }),
    decreases due.len(),
{
    if due.len() > 0 {
        let first = due[0];
        let rest = due.skip(1);
        assert forall|k: int| 0 <= k < rest.len() implies (#[trigger] rest[k]).endpoint
            < stations.len() by {
            assert(rest[k] == due[k + 1]);
        }
        if first.at.nanos <= now.nanos {
            let i = first.endpoint as int;
            let station = stations[i].finished(first, now);
            reveal(Station::finished);
            assert(station.controller.pending.len() == stations[i].controller.pending.len());
            assert(station.controller.probe == stations[i].controller.probe.expired(now));
            assert(station.controller.tuning == stations[i].controller.tuning);
            let next = stations.update(i, station);
            lemma_completing(next, rest, now, end);
            assert(works(next, end) =~= works(stations, end).update(i, station.work(end)));
            model::lemma_total_update(works(stations, end), i, station.work(end));
        } else {
            lemma_completing(stations, rest, now, end);
            let (after, left) = all_completed(stations, rest, now);
            if exists|k: int| 0 <= k < due.len() && (#[trigger] due[k]).at.nanos <= now.nanos {
                let k = choose|k: int|
                    0 <= k < due.len() && (#[trigger] due[k]).at.nanos <= now.nanos;
                assert(rest[k - 1] == due[k]);
            }
            if forall|k: int| 0 <= k < due.len() ==> (#[trigger] due[k]).at.nanos > now.nanos {
                assert forall|k: int| 0 <= k < rest.len() implies (#[trigger] rest[k]).at.nanos
                    > now.nanos by {
                    assert(rest[k] == due[k + 1]);
                }
                assert(seq![first] + rest =~= due);
            }
        }
    }
}

/// The time at which the first request is done is that of a request.
pub proof fn lemma_first_done(due: Seq<Due>)
    ensures
        first_done(due) matches Some(at) ==> {
            &&& exists|k: int| 0 <= k < due.len() && (#[trigger] due[k]).at == at
            &&& forall|k: int| 0 <= k < due.len() ==> (#[trigger] due[k]).at.nanos >= at.nanos
        },
        first_done(due) is None ==> due.len() == 0,
    decreases due.len(),
{
    if due.len() > 0 {
        let rest = due.drop_last();
        lemma_first_done(rest);
        assert forall|k: int| 0 <= k < rest.len() implies due[k] == #[trigger] rest[k] by {}
        if let Some(earlier) = first_done(rest) {
            let k = choose|k: int| 0 <= k < rest.len() && (#[trigger] rest[k]).at == earlier;
            assert(due[k].at == earlier);
        }
        assert(due[due.len() - 1] == due.last());
        let at = first_done(due).unwrap();
        assert forall|k: int| 0 <= k < due.len() implies (#[trigger] due[k]).at.nanos
            >= at.nanos by {
            if k < rest.len() {
                assert(rest[k] == due[k]);
            }
        }
    }
}

/// The time at which the first station wants to be looked at again is that of a
/// station.
proof fn lemma_next_dispatch(stations: Seq<Station>, now: Instant)
    ensures
        next_dispatch(stations, now) matches Some(at) ==> exists|i: int|
            0 <= i < stations.len() && (#[trigger] stations[i]).next_dispatch(now) == Some(at),
    decreases stations.len(),
{
    if stations.len() > 0 {
        let rest = stations.drop_last();
        lemma_next_dispatch(rest, now);
        if let Some(at) = next_dispatch(rest, now) {
            let i = choose|i: int|
                0 <= i < rest.len() && (#[trigger] rest[i]).next_dispatch(now) == Some(at);
            assert(stations[i] == rest[i]);
        }
        assert(stations[stations.len() - 1] == stations.last());
    }
}

/// Asking a station leaves it no more to do.
proof fn lemma_asking(station: Station, now: Instant, end: Instant)
    requires
        station.controller.tuning.valid(),
        now.nanos <= end.nanos < u128::MAX,
    ensures
        station.asked(now).work(end) <= station.work(end),
        station.asked(now).controller.tuning == station.controller.tuning,
{
    reveal(Station::asked);
    model::lemma_refresh_keeps(station.controller, now);
    lemma_refreshing(station.controller, now, end);
}

/// Asking all stations leaves no more to do.
proof fn lemma_asking_all(before: Progress, end: Instant)
    requires
        tuned(before.stations),
        end.nanos < u128::MAX,
    ensures
        before.asked().work_left(end) <= before.work_left(end),
        tuned(before.asked().stations),
{
    let start = Instant { nanos: 0 };
    reveal(Progress::asked);
    let after = before.asked().stations;
    assert forall|i: int| 0 <= i < after.len() implies works(after, end)[i] <= #[trigger] works(
        before.stations,
        end,
    )[i] by {
        lemma_asking(before.stations[i], start, end);
    }
    assert forall|i: int| 0 <= i < after.len() implies (
    #[trigger] after[i]).controller.tuning.valid() by {
        lemma_asking(before.stations[i], start, end);
    }
    lemma_total_ordered(works(after, end), works(before.stations, end));
}

proof fn lemma_total_ordered(a: Seq<nat>, b: Seq<nat>)
    requires
        a.len() == b.len(),
        forall|i: int| 0 <= i < a.len() ==> a[i] <= #[trigger] b[i],
    ensures
        total(a) <= total(b),
    decreases a.len(),
{
    if a.len() > 0 {
        lemma_total_ordered(a.drop_last(), b.drop_last());
        assert(a[a.len() - 1] <= b[b.len() - 1]);
    }
}

/// The station that an event was set for moves at that event.
proof fn lemma_asked_station_moves(station: Station, at: Instant, end: Instant)
    requires
        station.wf(),
        station.asked(Instant { nanos: 0 }).wf(),
        station.next_dispatch(Instant { nanos: 0 }) == Some(at),
        at.nanos <= end.nanos < u128::MAX,
    ensures
        moves(station.asked(Instant { nanos: 0 }), at, end),
{
    let start = Instant { nanos: 0 };
    reveal(Station::wf);
    reveal(Station::asked);
    reveal(Station::next_dispatch);
    reveal(Station::refreshed);
    let endpoint = station.controller;
    let fresh = endpoint.refreshed(start);
    let asked = station.asked(start);
    model::lemma_refresh_keeps(endpoint, start);
    model::lemma_refresh_keeps(asked.controller, at);
    lemma_refreshing(endpoint, start, end);
    assert(asked.controller == endpoint.head_asked(start));
    crate::laws::law_refreshing_again_changes_nothing(asked.controller, at);
    let later = asked.controller.refreshed(at);
    match fresh.head_state(start) {
        DispatchState::WaitUntil(_) => {
            assert(asked.controller == fresh.head_waited());
            assert(asked.controller.pending[0].scheduled_at == fresh.pending[0].scheduled_at);
            assert(asked.controller.recheck_at() == fresh.recheck_at());
            lemma_waiting_ends(asked.controller, at, end);
        },
        _ => {
            assert(at == start);
            assert(asked.controller == fresh);
            crate::laws::law_refreshing_again_changes_nothing(endpoint, start);
        },
    }
}

/// An event that is no arrival leaves less to happen.
pub proof fn lemma_event_moves(before: Progress, interval: Duration, end: Instant)
    requires
        forall|i: int| 0 <= i < before.stations.len() ==> (#[trigger] before.stations[i]).wf(),
        forall|i: int|
            0 <= i < before.stations.len() ==> (#[trigger] before.asked().stations[i]).wf(),
        forall|k: int|
            0 <= k < before.due.len() ==> (#[trigger] before.due[k]).endpoint
                < before.stations.len(),
        before.next_event().nanos <= end.nanos < u128::MAX,
        before.next_event() != before.next_arrival,
    ensures
        before.asked().stepped(interval, before.next_event()).work_left(end) < before.work_left(
            end,
        ),
        before.asked().stepped(interval, before.next_event()).next_arrival == before.next_arrival,
{
    let now = before.next_event();
    let asked = before.asked();
    let start = Instant { nanos: 0 };
    assert(tuned(before.stations)) by {
        assert forall|i: int| 0 <= i < before.stations.len() implies (
        #[trigger] before.stations[i]).controller.tuning.valid() by {
            reveal(Station::wf);
        }
    }
    lemma_asking_all(before, end);
    assert(asked.due == before.due && asked.stations.len() == before.stations.len()
        && asked.next_arrival == before.next_arrival) by {
        reveal(Progress::asked);
    }
    lemma_completing(asked.stations, asked.due, now, end);
    let (stations, due) = all_completed(asked.stations, asked.due, now);
    lemma_driving_all(stations, 0, due, now, end);
    let (driven_once, flying) = all_driven(stations, 0, due, now);
    lemma_driving_all(driven_once, 0, flying, now, end);
    assert(total(works(driven_once, end)) + flying.len() < asked.work_left(end)) by {
        lemma_first_done(before.due);
        lemma_next_dispatch(before.stations, start);
        if forall|k: int| 0 <= k < asked.due.len() ==> (#[trigger] asked.due[k]).at.nanos
            > now.nanos {
            assert(next_dispatch(before.stations, start) == Some(now)) by {
                reveal(Progress::next_event);
            }
            let i = choose|i: int|
                0 <= i < before.stations.len() && (#[trigger] before.stations[i]).next_dispatch(
                    start,
                ) == Some(now);
            assert(asked.stations[i] == before.stations[i].asked(start)) by {
                reveal(Progress::asked);
            }
            lemma_asked_station_moves(before.stations[i], now, end);
            assert(moves(stations[i], now, end));
        }
    }
    reveal(Progress::stepped);
    reveal(Progress::served);
}

} // verus!
