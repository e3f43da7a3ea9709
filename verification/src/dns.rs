//! Decisions of a balancer that discovers its endpoints by name.
//!
//! Looking up names, keeping the cache and serving requests is left to an
//! adapter. What it does with an answer, when it asks again, and in which order
//! it goes through the life of a request is decided here.

use crate::controller::Completion;
use crate::p2c::sample_pair;
use crate::request::{completion_of, Step};
use crate::time::Duration;
use crate::ScheduleError;
use vstd::prelude::*;

verus! {

/// Default maximum number of cached host/port entries.
pub const DEFAULT_MAX_ENTRIES: u64 = 1024;

/// How long answers are kept.
#[derive(Clone, Copy, Debug, PartialEq, Eq, Structural)]
pub struct CachePolicy {
    /// Age after which a successful result refreshes in the background.
    pub refresh_after: Duration,
    /// Idle lifetime of a host/port cache entry.
    pub evict_after_idle: Duration,
    /// Maximum age of the last successful result before it is discarded.
    pub evict_after_stale: Duration,
    /// Maximum number of cached entries.
    pub max_entries: u64,
}

impl Default for CachePolicy {
    fn default() -> (r: CachePolicy)
        ensures
            r.refresh_after.nanos == 30_000_000_000,
            r.evict_after_idle.nanos == 300_000_000_000,
            r.evict_after_stale.nanos == 300_000_000_000,
            r.max_entries == 1024,
    {
        CachePolicy {
            refresh_after: Duration::from_secs(30),
            evict_after_idle: Duration::from_secs(300),
            evict_after_stale: Duration::from_secs(300),
            max_entries: DEFAULT_MAX_ENTRIES,
        }
    }
}

/// What an answer of some age is good for.
#[derive(Clone, Copy, Debug, PartialEq, Eq, Structural)]
pub enum Freshness {
    /// It is used as it is.
    Current,
    /// It is used, and refreshed in the background.
    Refresh,
    /// It is discarded, and the name is looked up again first.
    Expired,
}

impl CachePolicy {
    /// Returns what an answer of this age is good for.
    pub fn judge(&self, age: Duration) -> (r: Freshness)
        ensures
            r == Freshness::Current <==> age.nanos < self.refresh_after.nanos,
            r == Freshness::Refresh <==> self.refresh_after.nanos <= age.nanos
                < self.evict_after_stale.nanos,
            r == Freshness::Expired <==> age.nanos >= self.refresh_after.nanos && age.nanos
                >= self.evict_after_stale.nanos,
    {
        if age.nanos < self.refresh_after.nanos {
            Freshness::Current
        } else if age.nanos < self.evict_after_stale.nanos {
            Freshness::Refresh
        } else {
            Freshness::Expired
        }
    }
}

/// An address family.
#[derive(Clone, Copy, Debug, PartialEq, Eq, Structural)]
pub enum Family {
    /// IPv4.
    V4,
    /// IPv6.
    V6,
}

/// Address families and preference used for resolution.
#[derive(Clone, Copy, Debug, PartialEq, Eq, Structural)]
pub enum ResolveMode {
    /// IPv4 alone.
    SingleIpV4,
    /// IPv6 alone.
    SingleIpV6,
    /// Both, IPv6 first.
    Dual,
    /// Both, IPv4 first.
    DualPreferIpV4,
}

impl ResolveMode {
    /// The families that are looked up, in their order.
    pub open spec fn looked_up(self) -> Seq<Family> {
        match self {
            ResolveMode::SingleIpV4 => seq![Family::V4],
            ResolveMode::SingleIpV6 => seq![Family::V6],
            ResolveMode::Dual => seq![Family::V6, Family::V4],
            ResolveMode::DualPreferIpV4 => seq![Family::V4, Family::V6],
        }
    }

    /// Returns the families that are looked up, in their order.
    pub fn families(self) -> (r: Vec<Family>)
        ensures
            r@ == self.looked_up(),
    {
        let mut families: Vec<Family> = Vec::new();
        match self {
            ResolveMode::SingleIpV4 => {
                families.push(Family::V4);
            },
            ResolveMode::SingleIpV6 => {
                families.push(Family::V6);
            },
            ResolveMode::Dual => {
                families.push(Family::V6);
                families.push(Family::V4);
            },
            ResolveMode::DualPreferIpV4 => {
                families.push(Family::V4);
                families.push(Family::V6);
            },
        }
        assert(families@ =~= self.looked_up());
        families
    }
}

/// A resolved address, as the number that its octets make up.
#[derive(Clone, Copy, Debug, PartialEq, Eq, PartialOrd, Ord, Hash, Structural)]
pub enum Ip {
    /// An IPv4 address.
    V4(u32),
    /// An IPv6 address.
    V6(u128),
}

impl Ip {
    /// The place of an address in the order of all: IPv4 comes before IPv6.
    pub open spec fn rank(self) -> nat {
        match self {
            Ip::V4(number) => number as nat,
            Ip::V6(number) => (0x1_0000_0000 + number) as nat,
        }
    }

    /// Returns whether this address comes before another.
    pub fn precedes(self, other: Ip) -> (r: bool)
        ensures
            r == (self.rank() < other.rank()),
    {
        match (self, other) {
            (Ip::V4(a), Ip::V4(b)) => a < b,
            (Ip::V4(_), Ip::V6(_)) => true,
            (Ip::V6(_), Ip::V4(_)) => false,
            (Ip::V6(a), Ip::V6(b)) => a < b,
        }
    }
}

/// Whether addresses are in their order, each of them once.
pub open spec fn ascending(addresses: Seq<Ip>) -> bool {
    forall|i: int, j: int|
        0 <= i < j < addresses.len() ==> (#[trigger] addresses[i]).rank() < (
        #[trigger] addresses[j]).rank()
}

/// Returns the addresses of an answer in their order, each of them once, or
/// nothing where there is no address.
pub fn answer_set(found: &Vec<Ip>) -> (r: Option<Vec<Ip>>)
    ensures
        r is None <==> found@.len() == 0,
        r matches Some(addresses) ==> {
            &&& ascending(addresses@)
            &&& forall|ip: Ip| #[trigger] addresses@.contains(ip) <==> found@.contains(ip)
        },
{
    if found.len() == 0 {
        return None;
    }
    let mut addresses: Vec<Ip> = Vec::new();
    let mut i: usize = 0;
    while i < found.len()
        invariant
            i <= found@.len(),
            ascending(addresses@),
            forall|ip: Ip| #[trigger]
                addresses@.contains(ip) <==> found@.take(i as int).contains(ip),
        decreases found@.len() - i,
    {
        let ip = found[i];
        let ghost before = addresses@;
        insert(&mut addresses, ip);
        proof {
            let shorter = found@.take(i as int);
            let longer = found@.take(i + 1);
            assert(longer =~= shorter.push(ip));
            assert forall|x: Ip| #[trigger] addresses@.contains(x) <==> longer.contains(x) by {
                if longer.contains(x) {
                    let k = choose|k: int| 0 <= k < longer.len() && longer[k] == x;
                    if k < i {
                        assert(shorter[k] == x);
                        assert(shorter.contains(x));
                    }
                }
                if shorter.contains(x) {
                    let k = choose|k: int| 0 <= k < shorter.len() && shorter[k] == x;
                    assert(longer[k] == x);
                }
                if x == ip {
                    assert(longer[i as int] == x);
                }
                assert(before.contains(x) <==> shorter.contains(x));
            }
        }
        i = i + 1;
    }
    proof {
        assert(found@.take(i as int) =~= found@);
    }
    Some(addresses)
}

/// Adds an address at its place, unless it is there.
fn insert(addresses: &mut Vec<Ip>, ip: Ip)
    requires
        ascending(old(addresses)@),
    ensures
        ascending(final(addresses)@),
        forall|x: Ip| #[trigger]
            final(addresses)@.contains(x) <==> old(addresses)@.contains(x) || x == ip,
{
    let ghost before = addresses@;
    let mut at: usize = 0;
    while at < addresses.len() && addresses[at].precedes(ip)
        invariant
            at <= addresses@.len(),
            addresses@ == before,
            forall|k: int| 0 <= k < at ==> (#[trigger] before[k]).rank() < ip.rank(),
        decreases addresses@.len() - at,
    {
        at = at + 1;
    }
    if at < addresses.len() && addresses[at] == ip {
        assert(before[at as int] == ip);
        return;
    }
    proof {
        if at < before.len() {
            assert(before[at as int].rank() != ip.rank());
        }
    }
    addresses.insert(at, ip);
    proof {
        let after = addresses@;
        assert(after =~= before.insert(at as int, ip));
        assert forall|i: int, j: int| 0 <= i < j < after.len() implies (#[trigger] after[i]).rank()
            < (#[trigger] after[j]).rank() by {
            let k = if i < at { i } else { i - 1 };
            let l = if j < at { j } else { j - 1 };
            if i != at {
                assert(after[i] == before[k]);
            }
            if j != at {
                assert(after[j] == before[l]);
            }
            if i == at {
                if at < before.len() && l > at {
                    assert(before[at as int].rank() < before[l].rank());
                }
            } else if j == at {
                assert(before[k].rank() < ip.rank());
            } else {
                assert(before[k].rank() < before[l].rank());
            }
        }
        assert forall|x: Ip| #[trigger] after.contains(x) <==> before.contains(x) || x == ip by {
            if after.contains(x) {
                let k = choose|k: int| 0 <= k < after.len() && after[k] == x;
                if k < at {
                    assert(before[k] == x);
                } else if k > at {
                    assert(before[k - 1] == x);
                }
            }
            if before.contains(x) {
                let k = choose|k: int| 0 <= k < before.len() && before[k] == x;
                if k < at {
                    assert(after[k] == x);
                } else {
                    assert(after[k + 1] == x);
                }
            }
            if x == ip {
                assert(after[at as int] == x);
            }
        }
    }
}

/// Returns, for each address, the place of the endpoint that already serves it
/// and keeps its controller, or nothing where an endpoint has to be made.
pub fn carried_over(addresses: &Vec<Ip>, previous: &Vec<Ip>) -> (r: Vec<Option<usize>>)
    ensures
        r@.len() == addresses@.len(),
        forall|i: int|
            0 <= i < addresses@.len() ==> match #[trigger] r@[i] {
                Some(k) => {
                    &&& k < previous@.len()
                    &&& previous@[k as int] == addresses@[i]
                    &&& forall|j: int| 0 <= j < k ==> previous@[j] != addresses@[i]
                },
                None => !previous@.contains(addresses@[i]),
            },
{
    let mut places: Vec<Option<usize>> = Vec::new();
    let mut i: usize = 0;
    while i < addresses.len()
        invariant
            i <= addresses@.len(),
            places@.len() == i,
            forall|i: int|
                0 <= i < places@.len() ==> match #[trigger] places@[i] {
                    Some(k) => {
                        &&& k < previous@.len()
                        &&& previous@[k as int] == addresses@[i]
                        &&& forall|j: int| 0 <= j < k ==> previous@[j] != addresses@[i]
                    },
                    None => !previous@.contains(addresses@[i]),
                },
        decreases addresses@.len() - i,
    {
        let ip = addresses[i];
        let mut k: usize = 0;
        while k < previous.len() && previous[k] != ip
            invariant
                k <= previous@.len(),
                forall|j: int| 0 <= j < k ==> previous@[j] != ip,
            decreases previous@.len() - k,
        {
            k = k + 1;
        }
        if k < previous.len() {
            places.push(Some(k));
        } else {
            places.push(None);
        }
        i = i + 1;
    }
    places
}

/// The endpoints among which a request is admitted.
#[derive(Clone, Copy, Debug, PartialEq, Eq, Structural)]
pub enum Sample {
    /// The only one.
    Only,
    /// Two distinct ones, in the order in which they were sampled.
    Pair {
        /// The place of the first one.
        first: usize,
        /// The place of the second one.
        second: usize,
        /// Whether the first one comes first in the order of addresses, in
        /// which both are locked.
        first_is_lower: bool,
    },
}

/// Returns two endpoints that were sampled, with the order in which to lock
/// them.
pub fn lock_order(addresses: &Vec<Ip>, first: usize, second: usize) -> (r: Sample)
    requires
        first < addresses@.len(),
        second < addresses@.len(),
    ensures
        r == (Sample::Pair {
            first,
            second,
            first_is_lower: addresses@[first as int].rank() < addresses@[second as int].rank(),
        }),
{
    Sample::Pair { first, second, first_is_lower: addresses[first].precedes(addresses[second]) }
}

/// Samples the endpoints of an answer: the only one, or two distinct ones.
pub fn sample_endpoints(addresses: &Vec<Ip>) -> (r: Sample)
    requires
        addresses@.len() > 0,
    ensures
        r == Sample::Only <==> addresses@.len() == 1,
        r matches Sample::Pair { first, second, first_is_lower } ==> {
            &&& first < addresses@.len()
            &&& second < addresses@.len()
            &&& first != second
            &&& first_is_lower == (addresses@[first as int].rank()
                < addresses@[second as int].rank())
        },
{
    if addresses.len() == 1 {
        return Sample::Only;
    }
    let (first, second) = sample_pair(addresses.len());
    lock_order(addresses, first, second)
}

/// What a request's connector target is.
#[derive(Clone, Copy, Debug, PartialEq, Eq, Structural)]
pub enum Target {
    /// There is none.
    Missing,
    /// An address, which needs no discovery.
    Address,
    /// A name.
    Name,
}

/// How far a balancer is with a request.
#[derive(Clone, Copy, Debug, PartialEq, Eq, Structural)]
pub enum Phase {
    /// The target is looked at.
    Routing,
    /// The name is being looked up.
    Discovering,
    /// An endpoint is being reserved.
    Selecting,
    /// It is looked up whether the reserved endpoint is still among the
    /// answers.
    Confirming,
    /// The reservation waits for its dispatch.
    Dispatching,
    /// The inner service is at work.
    Serving,
    /// The request is done, or was handed on without discovery.
    Done,
}

/// What a balancer learns.
#[derive(Clone, Copy, Debug, PartialEq, Eq)]
pub enum Event {
    /// What the target is.
    Target(Target),
    /// Whether endpoints are known.
    Discovered(bool),
    /// Whether one of two samples was reserved.
    Reserved(Result<(), ScheduleError>),
    /// Whether the reserved endpoint is among the answers.
    Listed(bool),
    /// What the controller has the request do.
    Stepped(Step),
    /// Whether the inner service answered without an error.
    Answered(bool),
}

/// What a balancer does next.
#[derive(Clone, Copy, Debug, PartialEq, Eq, Structural)]
pub enum Action {
    /// Hands the request to the inner service, unpaced.
    PassThrough,
    /// Looks the name up.
    Discover,
    /// Samples two endpoints and reserves one.
    Select,
    /// Loads the current answers.
    Confirm,
    /// Cancels the reservation, wakes its endpoint's waiters, and selects
    /// again.
    CancelAndSelect,
    /// Pins the target to the endpoint's address and asks for dispatch.
    PinAndAsk,
    /// Waits as the step says, and asks again.
    Wait(Step),
    /// Hands the dispatched request to the inner service.
    Serve,
    /// Records the end of the request, and returns the answer.
    Finish(Completion),
    /// Returns the discovery error.
    FailDiscovery,
    /// Returns the admission error.
    Reject(ScheduleError),
}

/// Whether an event belongs to a phase. A reservation is only lost when it is
/// cancelled, which the balancer alone does, and not in this phase.
pub open spec fn expected(phase: Phase, event: Event) -> bool {
    match event {
        Event::Target(_) => phase == Phase::Routing,
        Event::Discovered(_) => phase == Phase::Discovering,
        Event::Reserved(_) => phase == Phase::Selecting,
        Event::Listed(_) => phase == Phase::Confirming,
        Event::Stepped(step) => phase == Phase::Dispatching && step != Step::Lost,
        Event::Answered(_) => phase == Phase::Serving,
    }
}

/// The next phase and action.
pub open spec fn decided(event: Event) -> (Phase, Action) {
    match event {
        Event::Target(Target::Name) => (Phase::Discovering, Action::Discover),
        Event::Target(_) => (Phase::Done, Action::PassThrough),
        Event::Discovered(true) => (Phase::Selecting, Action::Select),
        Event::Discovered(false) => (Phase::Done, Action::FailDiscovery),
        Event::Reserved(Ok(_)) => (Phase::Confirming, Action::Confirm),
        Event::Reserved(Err(error)) => (Phase::Done, Action::Reject(error)),
        Event::Listed(true) => (Phase::Dispatching, Action::PinAndAsk),
        Event::Listed(false) => (Phase::Selecting, Action::CancelAndSelect),
        Event::Stepped(Step::Proceed) => (Phase::Serving, Action::Serve),
        Event::Stepped(step) => (Phase::Dispatching, Action::Wait(step)),
        Event::Answered(true) => (Phase::Done, Action::Finish(Completion::Success)),
        Event::Answered(false) => (Phase::Done, Action::Finish(Completion::Failure)),
    }
}

/// Decides what a balancer does after an event.
pub fn serve(phase: Phase, event: Event) -> (r: (Phase, Action))
    requires
        expected(phase, event),
    ensures
        r == decided(event),
{
    match event {
        Event::Target(target) => match target {
            Target::Name => (Phase::Discovering, Action::Discover),
            Target::Missing => (Phase::Done, Action::PassThrough),
            Target::Address => (Phase::Done, Action::PassThrough),
        },
        Event::Discovered(found) => if found {
            (Phase::Selecting, Action::Select)
        } else {
            (Phase::Done, Action::FailDiscovery)
        },
        Event::Reserved(result) => match result {
            Ok(_) => (Phase::Confirming, Action::Confirm),
            Err(error) => (Phase::Done, Action::Reject(error)),
        },
        Event::Listed(listed) => if listed {
            (Phase::Dispatching, Action::PinAndAsk)
        } else {
            (Phase::Selecting, Action::CancelAndSelect)
        },
        Event::Stepped(step) => match step {
            Step::Proceed => (Phase::Serving, Action::Serve),
            _ => (Phase::Dispatching, Action::Wait(step)),
        },
        Event::Answered(healthy) => (Phase::Done, Action::Finish(completion_of(healthy))),
    }
}

/// All callers lock two endpoints of an answer in the same order, in whichever
/// order they sampled them.
pub proof fn law_lock_order_is_stable(addresses: Seq<Ip>, first: int, second: int)
    requires
        ascending(addresses),
        0 <= first < addresses.len(),
        0 <= second < addresses.len(),
        first != second,
    ensures
        (addresses[first].rank() < addresses[second].rank()) != (addresses[second].rank()
            < addresses[first].rank()),
        addresses[first].rank() < addresses[second].rank() <==> first < second,
{
    if first < second {
        assert(addresses[first].rank() < addresses[second].rank());
    } else {
        assert(addresses[second].rank() < addresses[first].rank());
    }
}

/// A discovered endpoint is served only after its dispatch, and what was served
/// is always finished: there is no other way on from there.
pub proof fn law_served_requests_were_dispatched(phase: Phase, event: Event)
    requires
        expected(phase, event),
    ensures
        decided(event).1 == Action::Serve ==> phase == Phase::Dispatching && event
            == Event::Stepped(Step::Proceed),
        phase == Phase::Serving ==> decided(event).1 is Finish,
        decided(event).1 is Finish ==> phase == Phase::Serving,
{
}

/// A reservation is never left behind: after it was made, the request goes on
/// to its dispatch or the reservation is cancelled before another one is made.
pub proof fn law_reservations_are_not_left_behind(phase: Phase, event: Event)
    requires
        expected(phase, event),
        phase == Phase::Confirming || phase == Phase::Dispatching,
    ensures
        decided(event).0 == Phase::Selecting ==> decided(event).1 == Action::CancelAndSelect,
        decided(event).0 != Phase::Done,
{
}

/// Where an answer has not changed, every address keeps its own endpoint: the
/// place that is carried over to an address is that of the address itself.
pub proof fn law_unchanged_answers_keep_every_endpoint(addresses: Seq<Ip>, i: int, k: int)
    requires
        ascending(addresses),
        0 <= i < addresses.len(),
        0 <= k < addresses.len(),
        addresses[k] == addresses[i],
    ensures
        k == i,
{
    if k < i {
        assert(addresses[k].rank() < addresses[i].rank());
    } else if i < k {
        assert(addresses[i].rank() < addresses[k].rank());
    }
}

/// Only names are discovered, and whatever has none is handed on unpaced.
pub proof fn law_only_names_are_discovered(event: Event)
    ensures
        ({
            let (phase, action) = decided(event);
            &&& action == Action::Discover <==> event == Event::Target(Target::Name)
            &&& action == Action::PassThrough <==> event is Target && event
                != Event::Target(Target::Name)
            &&& action == Action::Discover <==> phase == Phase::Discovering
            &&& action == Action::PassThrough ==> phase == Phase::Done
        }),
{
}

/// What goes wrong is told: no endpoint is a discovery error, and a refused
/// reservation is answered with its own reason. Both end the request, and
/// nothing else is an error.
pub proof fn law_refusals_are_passed_on(event: Event, error: ScheduleError)
    ensures
        ({
            let (phase, action) = decided(event);
            &&& action == Action::FailDiscovery <==> event == Event::Discovered(false)
            &&& action == Action::Reject(error) <==> event == Event::Reserved(Err(error))
            &&& action is FailDiscovery || action is Reject ==> phase == Phase::Done
        }),
{
}

/// A request is reserved among known endpoints, and bound to the one that it
/// got only if that one is still among the answers; otherwise the reservation
/// is given back and another one made.
pub proof fn law_departed_endpoints_are_left(event: Event)
    ensures
        ({
            let (phase, action) = decided(event);
            &&& action == Action::Select <==> event == Event::Discovered(true)
            &&& action == Action::CancelAndSelect <==> event == Event::Listed(false)
            &&& action is Select || action is CancelAndSelect <==> phase == Phase::Selecting
            &&& action == Action::Confirm <==> event is Reserved && event->Reserved_0 is Ok
            &&& action == Action::Confirm <==> phase == Phase::Confirming
            &&& action == Action::PinAndAsk <==> event == Event::Listed(true)
            &&& action == Action::PinAndAsk ==> phase == Phase::Dispatching
        }),
{
}

/// A request that may not go yet waits as it was told and keeps its
/// reservation, and one that may is served.
pub proof fn law_requests_wait_as_told(step: Step)
    ensures
        ({
            let (phase, action) = decided(Event::Stepped(step));
            &&& step == Step::Proceed <==> action == Action::Serve
            &&& step == Step::Proceed <==> phase == Phase::Serving
            &&& step != Step::Proceed ==> action == Action::Wait(step) && phase
                == Phase::Dispatching
        }),
{
}

/// An answer without an error is a success, any other one a failure, and what
/// was answered was not abandoned.
pub proof fn law_answers_are_recorded(healthy: bool)
    ensures
        ({
            let (phase, action) = decided(Event::Answered(healthy));
            &&& phase == Phase::Done
            &&& action == Action::Finish(Completion::Success) <==> healthy
            &&& action == Action::Finish(Completion::Failure) <==> !healthy
        }),
{
}

/// A mode looks up the families that it is named after, each once, and the
/// preferred one first.
pub proof fn law_families_follow_the_mode(mode: ResolveMode)
    ensures
        ({
            let families = mode.looked_up();
            let dual = mode == ResolveMode::Dual || mode == ResolveMode::DualPreferIpV4;
            let four_first = mode == ResolveMode::SingleIpV4 || mode
                == ResolveMode::DualPreferIpV4;
            &&& families.len() == if dual {
                2int
            } else {
                1int
            }
            &&& families[0] == Family::V4 <==> four_first
            &&& families[0] == Family::V6 <==> !four_first
            &&& dual ==> families[0] != families[1]
        }),
{
}

/// Addresses of one family are ordered as numbers, and every IPv4 address comes
/// before every IPv6 address.
pub proof fn law_addresses_are_ordered(a: u32, b: u32, c: u128, d: u128)
    ensures
        Ip::V4(a).rank() < Ip::V4(b).rank() <==> a < b,
        Ip::V6(c).rank() < Ip::V6(d).rank() <==> c < d,
        Ip::V4(a).rank() < Ip::V6(c).rank(),
{
}

} // verus!
