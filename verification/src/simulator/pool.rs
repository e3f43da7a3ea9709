//! All simulated endpoints together.

use super::model::{self, Due, Station};
use super::station::{self, EndpointRuntime, Flight};
use super::SimulatedEndpoint;
use crate::entropy::next_index;
use crate::p2c::distinct_second;
use crate::time::Instant;
use rand::rngs::StdRng;
use vstd::prelude::*;

verus! {

pub open spec fn stations(endpoints: Seq<EndpointRuntime>) -> Seq<Station> {
    Seq::new(endpoints.len(), |i: int| endpoints[i]@)
}

/// Whether every endpoint is well-formed and counts exactly the requests that
/// it serves.
pub open spec fn linked(endpoints: Seq<EndpointRuntime>, flights: Seq<Flight>) -> bool {
    &&& forall|i: int| 0 <= i < endpoints.len() ==> (#[trigger] endpoints[i]).wf()
    &&& forall|i: int|
        0 <= i < endpoints.len() ==> (#[trigger] endpoints[i])@.controller.inflight == station::served_by(
            flights,
            i,
        )
    &&& forall|k: int|
        0 <= k < flights.len() ==> {
            &&& (#[trigger] flights[k]).endpoint < endpoints.len()
            &&& flights[k].request.owner() == endpoints[flights[k].endpoint as int]@.controller.id
        }
}

/// Whether two states of the endpoints have the same controllers in the same
/// configuration and with as many reservations made.
pub open spec fn same_stations(before: Seq<EndpointRuntime>, after: Seq<EndpointRuntime>) -> bool {
    &&& before.len() == after.len()
    &&& forall|i: int|
        0 <= i < before.len() ==> {
            &&& (#[trigger] after[i])@.controller.id == before[i]@.controller.id
            &&& after[i]@.controller.next_id == before[i]@.controller.next_id
            &&& after[i]@.controller.config == before[i]@.controller.config
        }
}

/// Completes every request that is done.
pub fn complete_ready(
    endpoints: &mut Vec<EndpointRuntime>,
    flights: &mut Vec<Flight>,
    now: Instant,
)
    requires
        linked(old(endpoints)@, old(flights)@),
    ensures
        linked(final(endpoints)@, final(flights)@),
        same_stations(old(endpoints)@, final(endpoints)@),
        (stations(final(endpoints)@), station::dues(final(flights)@)) == model::all_completed(
            stations(old(endpoints)@),
            station::dues(old(flights)@),
            now,
        ),
{
    let ghost before = endpoints@;
    let ghost all = model::all_completed(stations(endpoints@), station::dues(flights@), now);
    let mut i: usize = 0;
    proof {
        let (s, d) = all;
        assert(station::dues(flights@).skip(0) =~= station::dues(flights@));
        assert(station::dues(flights@).take(0) + d =~= d);
    }
    while i < flights.len()
        invariant
            i <= flights@.len(),
            linked(endpoints@, flights@),
            same_stations(before, endpoints@),
            ({
                let (s, d) = model::all_completed(
                    stations(endpoints@),
                    station::dues(flights@).skip(i as int),
                    now,
                );
                all == (s, station::dues(flights@).take(i as int) + d)
            }),
        decreases flights@.len() - i,
    {
        let ghost held = flights@;
        let ghost ends = endpoints@;
        let ghost todo = station::dues(held).skip(i as int);
        assert(todo[0] == station::due_of(held[i as int]));
        if flights[i].at.nanos <= now.nanos {
            let flight = flights.remove(i);
            let index: usize = flight.endpoint;
            proof {
                assert(held[i as int] == flight);
                station::lemma_served_by_removed(held, i as int, index as int);
            }
            endpoints[index].complete(flight, now);
            proof {
                assert forall|j: int| 0 <= j < endpoints@.len() implies (
                #[trigger] endpoints@[j])@.controller.inflight == station::served_by(flights@, j) by {
                    station::lemma_served_by_removed(held, i as int, j);
                    assert(ends[j]@.controller.inflight == station::served_by(held, j));
                }
                assert forall|k: int| 0 <= k < flights@.len() implies {
                    &&& (#[trigger] flights@[k]).endpoint < endpoints@.len()
                    &&& flights@[k].request.owner()
                        == endpoints@[flights@[k].endpoint as int]@.controller.id
                } by {
                    let l = if k < i { k } else { k + 1 };
                    assert(flights@[k] == held[l]);
                }
                assert(stations(endpoints@) =~= stations(ends).update(
                    index as int,
                    stations(ends)[index as int].finished(todo[0], now),
                ));
                assert(station::dues(flights@).skip(i as int) =~= todo.skip(1));
                assert(station::dues(flights@).take(i as int) =~= station::dues(held).take(i as int));
            }
        } else {
            proof {
                assert(station::dues(held).skip(i + 1) =~= todo.skip(1));
                let (s, d) = model::all_completed(stations(ends), todo.skip(1), now);
                assert(station::dues(held).take(i as int) + (seq![todo[0]] + d) =~= station::dues(held).take(i + 1)
                    + d);
            }
            i = i + 1;
        }
    }
    proof {
        assert(station::dues(flights@).skip(i as int) =~= Seq::empty());
        assert(station::dues(flights@).take(i as int) + Seq::<Due>::empty() =~= station::dues(flights@));
    }
}

/// Brings every endpoint up to date and dispatches what is due.
pub fn drive_all(
    endpoints: &mut Vec<EndpointRuntime>,
    flights: &mut Vec<Flight>,
    now: Instant,
)
    requires
        linked(old(endpoints)@, old(flights)@),
    ensures
        linked(final(endpoints)@, final(flights)@),
        same_stations(old(endpoints)@, final(endpoints)@),
        (stations(final(endpoints)@), station::dues(final(flights)@)) == model::all_driven(
            stations(old(endpoints)@),
            0,
            station::dues(old(flights)@),
            now,
        ),
{
    let ghost before = endpoints@;
    let ghost all = model::all_driven(stations(endpoints@), 0, station::dues(flights@), now);
    let mut i: usize = 0;
    while i < endpoints.len()
        invariant
            i <= endpoints@.len(),
            linked(endpoints@, flights@),
            same_stations(before, endpoints@),
            all == model::all_driven(stations(endpoints@), i as int, station::dues(flights@), now),
        decreases endpoints@.len() - i,
    {
        let ghost held = flights@;
        let ghost ends = endpoints@;
        endpoints[i].refresh(now);
        endpoints[i].drive(i, flights, now);
        proof {
            assert forall|j: int| 0 <= j < endpoints@.len() implies (
            #[trigger] endpoints@[j])@.controller.inflight == station::served_by(flights@, j) by {
                assert(ends[j]@.controller.inflight == station::served_by(held, j));
            }
            assert forall|k: int| 0 <= k < flights@.len() implies {
                &&& (#[trigger] flights@[k]).endpoint < endpoints@.len()
                &&& flights@[k].request.owner()
                    == endpoints@[flights@[k].endpoint as int]@.controller.id
            } by {
                if k < held.len() {
                    assert(flights@[k] == held[k]);
                }
            }
            assert(stations(endpoints@) =~= stations(ends).update(
                i as int,
                endpoints@[i as int]@,
            ));
        }
        i = i + 1;
    }
}

/// Chooses an endpoint for a request: the cheaper of two samples of those that
/// have space.
pub fn choose_p2c(endpoints: &mut Vec<EndpointRuntime>, rng: &mut StdRng, now: Instant, Ghost(
    flights,
): Ghost<Seq<Flight>>) -> (r: Option<usize>)
    requires
        linked(old(endpoints)@, flights),
    ensures
        linked(final(endpoints)@, flights),
        same_stations(old(endpoints)@, final(endpoints)@),
        ({
            let (after, words, choice) = model::chosen(
                stations(old(endpoints)@),
                crate::entropy::upcoming(*old(rng)),
                now,
            );
            &&& stations(final(endpoints)@) == after
            &&& crate::entropy::upcoming(*final(rng)) == words
            &&& match r {
                Some(i) => choice == Some(i as int) && i < final(endpoints)@.len(),
                None => choice is None,
            }
        }),
{
    reveal(model::chosen);
    let ghost before = endpoints@;
    let ghost fresh = Seq::new(
        before.len(),
        |i: int| stations(before)[i].refreshed(now),
    );
    let mut ready: Vec<usize> = Vec::new();
    let mut i: usize = 0;
    while i < endpoints.len()
        invariant
            i <= endpoints@.len(),
            fresh == Seq::new(before.len(), |i: int| stations(before)[i].refreshed(now)),
            linked(endpoints@, flights),
            same_stations(before, endpoints@),
            forall|j: int| 0 <= j < i ==> (#[trigger] endpoints@[j])@ == fresh[j],
            forall|j: int| i <= j < before.len() ==> (#[trigger] endpoints@[j]) == before[j],
            forall|k: int| 0 <= k < ready@.len() ==> (#[trigger] ready@[k]) < i,
            ready@.map_values(|x: usize| x as int) == model::open_stations(fresh, i as int),
        decreases endpoints@.len() - i,
    {
        let ghost ends = endpoints@;
        let ghost sofar = ready@;
        endpoints[i].refresh(now);
        if endpoints[i].has_space() {
            ready.push(i);
            proof {
                assert(ready@.map_values(|x: usize| x as int) =~= sofar.map_values(
                    |x: usize| x as int,
                ).push(i as int));
            }
        }
        proof {
            lemma_same_links(ends, endpoints@, flights);
        }
        i = i + 1;
    }
    let ghost opened = model::open_stations(fresh, fresh.len() as int);
    proof {
        assert(stations(endpoints@) =~= fresh);
        assert(opened.len() == ready@.len());
        assert forall|k: int| 0 <= k < ready@.len() implies opened[k] == #[trigger] ready@[k] by {
            assert(ready@.map_values(|x: usize| x as int)[k] == ready@[k] as int);
        }
    }
    if ready.len() == 0 {
        return None;
    }
    if ready.len() == 1 {
        return Some(ready[0]);
    }
    let a: usize = next_index(rng, ready.len());
    let draw: usize = next_index(rng, ready.len() - 1);
    let b: usize = distinct_second(a, draw);
    let (a_index, b_index) = (ready[a], ready[b]);
    let ghost ends = endpoints@;
    let a_load = endpoints[a_index].load(now);
    let ghost one = endpoints@;
    proof {
        assert(stations(one) =~= fresh.update(
            a_index as int,
            fresh[a_index as int].refreshed(now),
        ));
        lemma_same_links(ends, one, flights);
    }
    let b_load = endpoints[b_index].load(now);
    proof {
        assert(stations(endpoints@) =~= stations(one).update(
            b_index as int,
            stations(one)[b_index as int].refreshed(now),
        ));
        lemma_same_links(one, endpoints@, flights);
    }
    if a_load.bits <= b_load.bits {
        Some(a_index)
    } else {
        Some(b_index)
    }
}

/// Endpoints that only refreshed keep their links.
pub proof fn lemma_same_links(
    before: Seq<EndpointRuntime>,
    after: Seq<EndpointRuntime>,
    flights: Seq<Flight>,
)
    requires
        linked(before, flights),
        before.len() == after.len(),
        forall|i: int|
            0 <= i < after.len() ==> {
                &&& (#[trigger] after[i]).wf()
                &&& after[i]@.controller.inflight == before[i]@.controller.inflight
                &&& after[i]@.controller.id == before[i]@.controller.id
            },
    ensures
        linked(after, flights),
{
    assert forall|i: int| 0 <= i < after.len() implies (
    #[trigger] after[i])@.controller.inflight == station::served_by(flights, i) by {
        assert(before[i]@.controller.inflight == station::served_by(flights, i));
    }
}

/// How many reservations each endpoint has made.
pub open spec fn made(endpoints: Seq<EndpointRuntime>) -> Seq<nat> {
    Seq::new(endpoints.len(), |i: int| endpoints[i]@.controller.next_id as nat)
}

/// Well-formed endpoints keep to their horizons.
pub proof fn lemma_horizons(runtimes: Seq<EndpointRuntime>, endpoints: Seq<SimulatedEndpoint>)
    requires
        runtimes.len() == endpoints.len(),
        forall|i: int| 0 <= i < runtimes.len() ==> (#[trigger] runtimes[i]).wf(),
        forall|i: int|
            0 <= i < endpoints.len() ==> (#[trigger] runtimes[i])@.controller.config
                == endpoints[i].config,
    ensures
        model::longest_queue(stations(runtimes)) <= model::widest_horizon(endpoints),
{
    let all = stations(runtimes);
    assert forall|i: int| 0 <= i < all.len() implies (#[trigger] all[i]).controller.pending.len()
        <= endpoints[i].config.queue_capacity by {
        runtimes[i].lemma_horizon();
    }
    model::lemma_queues_fit(all, endpoints);
}

} // verus!
