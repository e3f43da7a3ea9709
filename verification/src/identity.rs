//! Identities of controllers, and why no token is ever issued twice.
//!
//! A reservation belongs to the controller that made it. The identities of all
//! controllers of a process come from one counter, so that a token that is
//! brought to another controller is recognized.

use crate::controller::{Endpoint, EndpointConfig, Tuning};
use crate::history::Call;
use crate::time::Instant;
use vstd::prelude::*;

verus! {

/// Hands out the identities of controllers: no two get the same one.
#[derive(Debug)]
pub struct Identities {
    next: u64,
}

impl View for Identities {
    type V = nat;

    /// How many identities have been handed out.
    closed spec fn view(&self) -> nat {
        self.next as nat
    }
}

impl Identities {
    /// Starts counting.
    pub fn new() -> (r: Identities)
        ensures
            r@ == 0,
    {
        Identities { next: 0 }
    }

    /// Returns the next identity, which is the number of those handed out
    /// before; nothing where all have been.
    pub fn take(&mut self) -> (r: Option<u64>)
        ensures
            match r {
                Some(id) => id == old(self)@ && final(self)@ == old(self)@ + 1,
                None => old(self)@ == u64::MAX && final(self)@ == old(self)@,
            },
    {
        if self.next == u64::MAX {
            return None;
        }
        let id: u64 = self.next;
        self.next = id + 1;
        Some(id)
    }
}

/// What happens in a process: a controller is created with the next identity,
/// or an operation of one of them is called.
pub enum Event {
    /// A controller is created.
    Create {
        /// Its configuration.
        config: EndpointConfig,
        /// Its parameters.
        tuning: Tuning,
        /// When.
        now: Instant,
        /// The words that its probes are decided by.
        words: Map<nat, u32>,
    },
    /// An operation is called.
    Use {
        /// The controller, in the order of creation.
        controller: int,
        /// The operation.
        call: Call,
    },
}

/// The controllers after one more event, in the order of creation.
pub open spec fn happened(controllers: Seq<Endpoint>, event: Event) -> Seq<Endpoint> {
    match event {
        Event::Create { config, tuning, now, words } => controllers.push(
            Endpoint::fresh(controllers.len() as u64, config, tuning, now, words),
        ),
        Event::Use { controller, call } => if 0 <= controller < controllers.len() {
            controllers.update(controller, call.made(controllers[controller]))
        } else {
            controllers
        },
    }
}

/// The controllers after all events.
pub open spec fn process(events: Seq<Event>) -> Seq<Endpoint>
    decreases events.len(),
{
    if events.len() == 0 {
        Seq::empty()
    } else {
        happened(process(events.drop_last()), events.last())
    }
}

/// The controller and the number of the token that an event issues, if it makes
/// a reservation.
pub open spec fn issued(controllers: Seq<Endpoint>, event: Event) -> Option<(u64, u64)> {
    match event {
        Event::Use { controller, call } if 0 <= controller < controllers.len()
            && call.operation is Reserve && crate::p2c::accepts(controllers[controller]) => Some(
            (controllers[controller].id, controllers[controller].next_id),
        ),
        _ => None,
    }
}

/// Every controller has the identity of its place.
proof fn lemma_identities(events: Seq<Event>)
    requires
        process(events).len() <= u64::MAX,
    ensures
        forall|i: int|
            0 <= i < process(events).len() ==> (#[trigger] process(events)[i]).id == i,
    decreases events.len(),
{
    if events.len() > 0 {
        let rest = events.drop_last();
        lemma_identities(rest);
        if let Event::Use { controller, call } = events.last() {
            if 0 <= controller < process(rest).len() {
                crate::history::lemma_call_keeps(call, process(rest)[controller]);
            }
        }
    }
}

/// Controllers stay, and their numbers never go back.
proof fn lemma_numbers_grow(events: Seq<Event>, n: int, i: int)
    requires
        0 <= n <= events.len(),
        0 <= i < process(events.take(n)).len(),
    ensures
        i < process(events).len(),
        process(events.take(n))[i].next_id <= process(events)[i].next_id,
    decreases events.len(),
{
    if n == events.len() {
        assert(events.take(n) =~= events);
    } else {
        let rest = events.drop_last();
        assert(rest.take(n) =~= events.take(n));
        lemma_numbers_grow(rest, n, i);
        if let Event::Use { controller, call } = events.last() {
            if controller == i {
                crate::history::lemma_call_keeps(call, process(rest)[i]);
            }
        }
    }
}

/// Tokens that are returned by different reservations are all different, on
/// whichever controllers of a process they were made.
pub proof fn law_tokens_are_issued_once(events: Seq<Event>, j: int, k: int)
    requires
        0 <= j < k < events.len(),
        process(events).len() <= u64::MAX,
        issued(process(events.take(j)), events[j]) is Some,
        issued(process(events.take(k)), events[k]) is Some,
    ensures
        issued(process(events.take(j)), events[j]) != issued(process(events.take(k)), events[k]),
{
    let a = events[j]->controller;
    let b = events[k]->controller;
    let (first, second) = (process(events.take(j)), process(events.take(k)));
    lemma_grows(events, j);
    lemma_grows(events, k);
    lemma_identities(events.take(j));
    lemma_identities(events.take(k));
    if a == b {
        let next = events.take(j + 1);
        assert(next.drop_last() =~= events.take(j));
        assert(next.last() == events[j]);
        assert(process(next)[a].next_id == first[a].next_id + 1);
        assert(events.take(k).take(j + 1) =~= next);
        lemma_numbers_grow(events.take(k), j + 1, a);
    }
}

/// No controller goes away.
proof fn lemma_grows(events: Seq<Event>, n: int)
    requires
        0 <= n <= events.len(),
    ensures
        process(events.take(n)).len() <= process(events).len(),
    decreases events.len(),
{
    if n == events.len() {
        assert(events.take(n) =~= events);
    } else {
        let rest = events.drop_last();
        assert(rest.take(n) =~= events.take(n));
        lemma_grows(rest, n);
    }
}

} // verus!
