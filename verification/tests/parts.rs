//! Limits, probes, and the decisions of adapters.

use loadpace::admission::{Admission, Readiness, Refusal};
use loadpace::dns::{
    answer_set, carried_over, lock_order, sample_endpoints, serve, Action, CachePolicy, Event,
    Family, Freshness, Ip, Phase, ResolveMode, Sample, Target,
};
use loadpace::errors::{DnsServiceError, ServiceError};
use loadpace::execution::{execute, Order, Report, Stage};
use loadpace::gcra::rate_to_interval;
use loadpace::probe::to_fraction;
use loadpace::request::{reserve_single, PendingRequest, RequestState, Step};
use loadpace::{
    Completion, ControllerChanges, DispatchState, Double, Duration, EndpointConfig,
    EndpointController, Gcra, Gradient2, Gradient2Config, Instant, LatencyEstimator,
    LatencyEstimatorConfig, Outcome, ProbeKind, ProbeSchedule, ProbeState, ScheduleError, Tuning,
};
use rand::rngs::StdRng;
use rand::{RngExt, SeedableRng};

fn num(value: f64) -> Double {
    Double { bits: value.to_bits() }
}

fn val(number: Double) -> f64 {
    f64::from_bits(number.bits)
}

fn start() -> Instant {
    Instant::from_nanos(50_000_000_000)
}

fn ms(millis: u64) -> Duration {
    Duration::from_millis(millis)
}

fn config() -> EndpointConfig {
    EndpointConfig::new(ms(20), 32).with_queue_capacity(2)
}

fn controller(id: u64) -> EndpointController {
    EndpointController::new_with_seed(config(), start(), 42, id)
}

#[test]
fn configurations_are_derived_from_the_workload() {
    let config = EndpointConfig::new(ms(20), 32);
    assert_eq!(config.expected_rtt(), ms(20));
    assert_eq!(config.initial_concurrency(), 32);
    assert_eq!(config.queue_tolerance(), ms(10));
    assert_eq!(config.queue_capacity(), 4);
    assert_eq!(config.max_inflight(), 1024);
    assert_eq!(EndpointConfig::new(ms(20), 1000).max_inflight(), 4000);
    assert_eq!(EndpointConfig::new(ms(20), usize::MAX).max_inflight(), usize::MAX);
    assert_eq!(config.with_queue_tolerance(ms(3)).queue_tolerance(), ms(3));

    let tuning = config.tuning();
    assert!(tuning.is_valid());
    assert_eq!(val(tuning.latency.short_alpha), 1.0 - 0.5f64.powf((32.0f64 * 2.0).recip()));
    assert_eq!(val(tuning.latency.long_alpha), 1.0 - 0.5f64.powf((32.0f64 * 20.0).recip()));
    assert_eq!(tuning.latency.min_rtt, Duration::from_micros(1));
    assert_eq!(tuning.latency.baseline_window, Duration::from_secs(60));
    assert_eq!(val(tuning.gradient.initial_concurrency), 32.0);
    assert_eq!(val(tuning.gradient.min_concurrency), 0.25);
    assert_eq!(val(tuning.gradient.max_concurrency), 1024.0);
    assert_eq!(val(tuning.gradient.gain), 0.1);
    assert_eq!(val(tuning.gradient.smoothing), 0.2);
    assert_eq!(val(tuning.gradient.failure_factor), 0.7);
    assert_eq!(tuning.gradient.update_interval, ms(40));
    assert_eq!(val(tuning.probe_schedule.positive_probability), 0.10);
    assert_eq!(val(tuning.probe_schedule.negative_probability), 0.05);
    assert_eq!(val(tuning.probe_schedule.positive_rate_delta), 20.0);
    assert_eq!(val(tuning.probe_schedule.negative_factor), 0.8);
    let slow = EndpointConfig::new(Duration::from_secs(1), 1).latency_config();
    assert_eq!(slow.baseline_window, Duration::from_secs(1200));
}

#[test]
fn unusable_configurations_are_recognized() {
    let usable = config();
    assert!(usable.is_valid());
    assert!(!usable.with_queue_capacity(0).is_valid());
    assert!(!usable.with_max_inflight(0).is_valid());
    assert!(!usable.with_max_inflight(31).is_valid());
    assert!(!EndpointConfig { expected_rtt: ms(0), ..usable }.is_valid());
    assert!(!EndpointConfig { initial_concurrency: 0, ..usable }.is_valid());
    // No sample would have any weight.
    assert!(!EndpointConfig::new(ms(20), 1 << 60).is_valid());

    let latency = LatencyEstimatorConfig::default();
    assert!(latency.is_valid());
    assert!(!LatencyEstimatorConfig { min_rtt: ms(0), ..latency }.is_valid());
    assert!(!LatencyEstimatorConfig { min_rtt: ms(51), ..latency }.is_valid());
    assert!(!LatencyEstimatorConfig { short_alpha: num(0.0), ..latency }.is_valid());
    assert!(!LatencyEstimatorConfig { long_alpha: num(1.5), ..latency }.is_valid());
    let narrow = Duration::from_nanos(7);
    assert!(!LatencyEstimatorConfig { baseline_window: narrow, ..latency }.is_valid());

    let gradient = Gradient2Config::default();
    assert!(gradient.is_valid());
    assert!(!Gradient2Config { max_concurrency: num(f64::INFINITY), ..gradient }.is_valid());
    assert!(!Gradient2Config { min_concurrency: num(0.0), ..gradient }.is_valid());
    assert!(!Gradient2Config { initial_concurrency: num(2000.0), ..gradient }.is_valid());
    assert!(!Gradient2Config { gain: num(0.0), ..gradient }.is_valid());
    assert!(!Gradient2Config { smoothing: num(1.1), ..gradient }.is_valid());
    assert!(!Gradient2Config { update_interval: ms(0), ..gradient }.is_valid());
    assert!(!Gradient2Config { failure_factor: num(0.0), ..gradient }.is_valid());

    let probes = ProbeSchedule::default();
    assert!(probes.validate());
    let positive_probability = num(0.8);
    let negative_probability = num(0.3);
    assert!(!ProbeSchedule { positive_probability, negative_probability, ..probes }.validate());
    assert!(!ProbeSchedule { positive_rate_delta: num(0.0), ..probes }.validate());
    assert!(!ProbeSchedule { negative_factor: num(1.0), ..probes }.validate());
    assert!(!ProbeSchedule { negative_factor: num(0.0), ..probes }.validate());
    assert!(!ProbeSchedule { duration: ms(0), ..probes }.validate());
    assert!(!ProbeSchedule { min_interval: Duration::from_secs(9), ..probes }.validate());
    assert!(!Tuning { probe_schedule: ProbeSchedule { duration: ms(0), ..probes }, ..Tuning::default() }
        .is_valid());
}

#[test]
fn intervals_follow_rates() {
    assert_eq!(rate_to_interval(num(3.0)), Duration::from_nanos(333_333_333));
    assert_eq!(rate_to_interval(num(1e20)), Duration::from_nanos(1));
    assert_eq!(rate_to_interval(num(1e-30)).nanos, std::time::Duration::MAX.as_nanos());
    assert_eq!(val(Gcra::new(num(4.0), start()).rate()), 4.0);
}

#[test]
fn a_cancelled_slot_can_be_offered_again() {
    let now = start();
    let mut pacer = Gcra::new(num(10.0), now);
    let first = pacer.reserve(now);
    let second = pacer.reserve(now);
    assert_eq!(first.scheduled_at, now);
    assert_eq!(second.scheduled_at, now.plus(ms(100)));
    assert!(!pacer.cancel_last(first));
    assert!(pacer.cancel_last(second));
    assert_eq!(pacer.next_at(now), now.plus(ms(100)));
}

#[test]
fn idle_pacers_stay_available_when_the_rate_changes() {
    let now = start();
    let mut pacer = Gcra::new(num(10.0), now);
    let later = now.plus(ms(5));
    pacer.set_rate(num(0.001), later);
    assert_eq!(pacer.next_at(later), later);
}

#[test]
fn the_baseline_window_moves_bucket_by_bucket() {
    let now = start();
    let mut estimator = LatencyEstimator::new(LatencyEstimatorConfig {
        initial_rtt: ms(10),
        short_alpha: num(0.5),
        long_alpha: num(0.5),
        min_rtt: ms(1),
        baseline_window: Duration::from_secs(8),
    });
    estimator.observe_at(ms(20), now);
    estimator.observe_at(ms(30), now.plus(Duration::from_secs(3)));
    assert_eq!(estimator.baseline(), ms(20));
    // Seven seconds on the first bucket is the next to be reused.
    estimator.observe_at(ms(40), now.plus(Duration::from_secs(7)));
    assert_eq!(estimator.baseline(), ms(20));
    estimator.observe_at(ms(50), now.plus(Duration::from_secs(8)));
    assert_eq!(estimator.baseline(), ms(30));
    estimator.observe_at(ms(60), now.plus(Duration::from_secs(11)));
    assert_eq!(estimator.baseline(), ms(40));
    // Samples below the smallest RTT count as that.
    estimator.observe_at(Duration::from_micros(3), now.plus(Duration::from_secs(11)));
    assert_eq!(estimator.baseline(), ms(1));
    assert_eq!(estimator.samples(), 6);
}

#[test]
fn averages_round_as_the_processor_does() {
    let mut estimator = LatencyEstimator::new(LatencyEstimatorConfig {
        initial_rtt: ms(37),
        ..LatencyEstimatorConfig::default()
    });
    let (mut short, mut long) = (0.037f64, 0.037f64);
    for sample in [12u64, 91, 37, 3, 250, 41] {
        estimator.observe_at(ms(sample), start());
        let value = std::time::Duration::from_millis(sample).as_secs_f64();
        short = short + 0.25 * (value - short);
        long = long + 0.05 * (value - long);
        let expected = std::time::Duration::from_secs_f64(short).as_nanos();
        assert_eq!(estimator.short().nanos, expected);
        let expected = std::time::Duration::from_secs_f64(long).as_nanos();
        assert_eq!(estimator.long().nanos, expected);
        assert_eq!(estimator.expected_rtt(), estimator.long());
    }
}

#[test]
fn congestion_lowers_the_operating_point_by_the_gradient() {
    let mut gradient = Gradient2::new(Gradient2Config {
        initial_concurrency: num(8.0),
        ..Gradient2Config::default()
    });
    assert!(gradient.on_rtt_with_baseline_at(ms(100), ms(50), 8, true, start()));
    let ratio = 0.075f64 / 0.1;
    assert_eq!(val(gradient.last_gradient()), ratio);
    let expected = 8.0f64 * (1.0 - 0.2) + (8.0f64 * ratio + 0.1) * 0.2;
    assert_eq!(val(gradient.concurrency()), expected);
    assert!(!gradient.on_rtt_with_baseline_at(ms(900), ms(50), 8, true, start()));
    assert_eq!(val(gradient.last_gradient()), 0.5);
    gradient.on_failure_at(start());
    assert_eq!(val(gradient.concurrency()), expected * 0.7);
}

#[test]
fn probe_decisions_use_the_generator_as_the_standard_one_does() {
    let schedule = ProbeSchedule::default();
    let now = start();
    for seed in 0..200u64 {
        let mut state = ProbeState::new();
        let mut rng = StdRng::seed_from_u64(seed);
        let probe = schedule.maybe_start(&mut state, &mut rng, now);

        let mut twin = StdRng::seed_from_u64(seed);
        let jitter: f64 = twin.random();
        let draw: f64 = twin.random();
        let wait = std::time::Duration::from_secs_f64(4.0 * jitter).as_nanos() + 1_000_000_000;
        assert_eq!(state.next_probe_at(), Some(now.plus(Duration { nanos: wait })));
        let expected = if draw < 0.10 {
            Some(ProbeKind::Positive { delta_rate: num(20.0) })
        } else if draw < 0.10 + 0.05 {
            Some(ProbeKind::Negative { factor: num(0.8) })
        } else {
            None
        };
        assert_eq!(probe.map(|probe| probe.kind), expected);
        assert_eq!(rng, twin);

        // Nothing is drawn before the next decision is due.
        assert_eq!(schedule.maybe_start(&mut state, &mut rng, now), probe);
        assert_eq!(rng, twin);
    }
}

#[test]
fn probe_decisions_follow_their_words() {
    let schedule = ProbeSchedule::default();
    let now = start();
    let mut state = ProbeState::new();
    assert_eq!(val(to_fraction(0)), 0.0);
    assert_eq!(val(to_fraction(1 << 63)), 0.5);
    assert_eq!(schedule.random_interval(0), Duration::from_secs(1));
    assert_eq!(schedule.random_interval(1 << 63), Duration::from_secs(3));
    assert!(schedule.random_interval(u64::MAX) <= Duration::from_secs(5));

    let probe = schedule.decide(&mut state, 0, 0, now).unwrap();
    assert_eq!(probe.until, now.plus(Duration::from_secs(1)));
    assert_eq!(val(state.effective_rate(num(100.0), now)), 120.0);
    assert_eq!(state.next_probe_at(), Some(now.plus(Duration::from_secs(1))));
    assert_eq!(val(state.effective_rate(num(100.0), probe.until)), 100.0);
    assert_eq!(state.current(), None);

    // An eighth lies between a tenth and three twentieths.
    let probe = schedule.decide(&mut state, 0, 1 << 61, now).unwrap();
    assert_eq!(probe.kind, ProbeKind::Negative { factor: num(0.8) });
    assert_eq!(val(state.effective_rate(num(100.0), now)), 100.0 * 0.8);
    assert_eq!(schedule.decide(&mut state, 0, 1 << 63, now), None);
}

#[test]
fn probes_can_be_started_on_demand() {
    let now = start();
    let mut endpoint = EndpointController::new_with_seed(EndpointConfig::new(ms(10), 1), now, 1, 1);
    let until = now.plus(ms(500));
    endpoint.start_positive_probe(num(100.0), until, now);
    assert!(endpoint.take_changes().dispatch);
    assert_eq!(endpoint.active_probe().unwrap().until, until);
    let snapshot = endpoint.snapshot(now);
    assert_eq!((val(snapshot.base_rate), val(snapshot.probed_rate)), (100.0, 200.0));
    endpoint.start_negative_probe(num(0.5), until, now);
    assert_eq!(val(endpoint.snapshot(now).effective_rate), 50.0);
    assert_eq!(val(endpoint.snapshot(until).effective_rate), 100.0);
    assert_eq!(endpoint.active_probe(), None);
}

#[test]
fn controllers_with_the_same_seed_decide_alike() {
    let now = start();
    let run = |seed: u64| {
        let mut endpoint = EndpointController::new_with_seed(config(), now, seed, 1);
        let mut probes = Vec::new();
        let mut current = now;
        for _ in 0..200 {
            let reservation = endpoint.reserve(current).unwrap();
            if let DispatchState::WaitUntil(at) = endpoint.dispatch_state(reservation, current) {
                current = at;
            }
            if let Ok(active) = endpoint.on_dispatched(reservation, current) {
                current = current.plus(ms(20));
                endpoint.finish(active, Completion::Success, current);
            } else {
                endpoint.cancel(reservation, current);
            }
            current = current.plus(ms(100));
            probes.push(endpoint.snapshot(current));
        }
        probes
    };
    let first = run(8);
    assert_eq!(first, run(8));
    assert_ne!(first, run(9));
    assert!(first.iter().any(|snapshot| snapshot.active_probe.is_some()));
}

#[test]
fn queued_slots_are_an_interval_apart() {
    let now = start();
    let mut endpoint = EndpointController::new_with_seed(
        EndpointConfig::new(ms(10), 1).with_queue_capacity(3),
        now,
        1,
        1,
    );
    for expected in [10u64, 20, 30] {
        endpoint.reserve(now).unwrap();
        let snapshot = endpoint.snapshot(now);
        assert_eq!(snapshot.virtual_tail_tat, Some(now.plus(ms(expected))));
    }
    assert_eq!(endpoint.predicted_completion(now), now.plus(ms(40)));
    assert_eq!(val(endpoint.load(now)), 0.04);
}

#[test]
fn a_request_goes_through_its_life_once() {
    let now = start();
    let mut endpoint = controller(1);
    let (first, changes) = reserve_single(&mut endpoint, now);
    assert_eq!(changes, ControllerChanges::default());
    let mut first = PendingRequest::new(first.unwrap());
    let mut second = PendingRequest::new(endpoint.reserve(now).unwrap());
    assert!(first.reservation().is_some());
    assert_eq!(
        reserve_single(&mut endpoint, now).0,
        Err(ScheduleError::QueueFull)
    );

    assert_eq!(second.wait_until_dispatchable(&mut endpoint, now), Step::WaitForChange);
    assert_eq!(first.wait_until_dispatchable(&mut endpoint, now), Step::Proceed);
    let both = ControllerChanges { admission: true, dispatch: true };
    assert_eq!(first.start(&mut endpoint, now), (Step::Proceed, both));
    assert_eq!(first.reservation(), None);
    assert!(matches!(first.state, RequestState::InFlight(_)));
    // The first decision on a probe moves the deadline of those who wait.
    let (step, changes) = second.start(&mut endpoint, now);
    assert!(matches!(step, Step::WaitUntil(at) if at > now));
    assert_eq!(changes, ControllerChanges { admission: false, dispatch: true });
    assert_eq!(second.start(&mut endpoint, now), (step, ControllerChanges::default()));
    let later = now.plus(ms(40));
    assert!(endpoint.inflight() == 1 && endpoint.queued() == 1);
    let (step, changes) = second.dispatch(&mut endpoint, later);
    assert_eq!((step, changes), (Step::Proceed, both));
    let mut second = PendingRequest::new(endpoint.reserve(later).unwrap());
    let (step, changes) = second.dispatch(&mut endpoint, later);
    assert!(matches!(step, Step::WaitUntil(_)));
    assert_eq!(changes, ControllerChanges::default());

    let end = now.plus(ms(20));
    assert!(first.finish(&mut endpoint, Completion::Success, end).dispatch);
    assert_eq!(endpoint.snapshot(end).completed, 1);
    let _ = endpoint.take_changes();
    let none = ControllerChanges::default();
    assert_eq!(first.finish(&mut endpoint, Completion::Abandoned, end), none);
    assert_eq!(first.start(&mut endpoint, end), (Step::Lost, none));
    assert_eq!(endpoint.snapshot(end).failures, 0);

    assert_eq!(second.finish(&mut endpoint, Completion::Abandoned, end), both);
    assert_eq!(endpoint.queued(), 0);
    assert_eq!(endpoint.snapshot(end).failures, 0);
}

#[test]
fn admission_closes_for_good() {
    let now = start();
    let mut door: Admission<&str, u8> =
        Admission::new_at(config().with_queue_capacity(1), now, 1);
    assert_eq!(door.poll_ready(Some(1)), Readiness::Ready);
    assert_eq!(door.waker(), None);
    let queued = door.call(now).unwrap();
    assert_eq!(door.poll_ready(Some(2)), Readiness::Wait);
    assert_eq!(door.poll_ready(None), Readiness::Wait);
    assert_eq!(door.waker(), Some(&2));
    assert_eq!(
        door.call(now).err(),
        Some(Refusal::Schedule(ScheduleError::QueueFull))
    );
    assert_eq!(door.wait_until_dispatchable(&queued, now), Some(Step::Proceed));
    assert!(door.load_metric(now).0.as_secs().bits > 0);

    assert!(door.can_count());
    assert_eq!(door.failure(), None);
    assert_eq!(door.close("gone", now), Some(2));
    assert!(door.is_closed());
    assert_eq!(door.failure(), Some(&"gone"));
    assert_eq!(door.poll_ready(Some(3)), Readiness::Closed);
    assert_eq!(door.waker(), None);
    assert_eq!(door.wait_until_dispatchable(&queued, now), None);
    assert_eq!(door.call(now).err(), Some(Refusal::Closed));
    let mut queued = queued;
    let changes = queued.finish(door.controller(), Completion::Failure, now);
    assert!(changes.admission);
    let (snapshot, changes) = door.snapshot(now);
    assert_eq!((snapshot.failures, snapshot.queued), (1, 0));
    assert_eq!(changes, ControllerChanges::default());
}

#[test]
fn a_service_is_made_ready_before_dispatch() {
    let wait = Step::WaitUntil(start());
    let reports = [
        (Report::Asked(Some(Step::WaitForChange)), Order::Wait(Step::WaitForChange)),
        (Report::Asked(Some(wait)), Order::Wait(wait)),
        (Report::Asked(Some(Step::Proceed)), Order::Lock),
        (Report::Locked { closed: false }, Order::Prepare),
        (Report::Prepared { ready: true }, Order::Start),
        (Report::Started(wait), Order::Ask),
        (Report::Asked(Some(wait)), Order::Wait(wait)),
        (Report::Asked(Some(Step::Proceed)), Order::Start),
        (Report::Started(Step::Proceed), Order::Serve),
        (Report::Answered { healthy: true }, Order::Finish(Completion::Success)),
    ];
    let mut stage = Stage::Waiting;
    for (report, expected) in reports {
        let (next, order) = execute(stage, report);
        assert_eq!(order, expected);
        stage = next;
    }
    assert_eq!(stage, Stage::Ended);

    let failed = (Stage::Ended, Order::Fail);
    assert_eq!(execute(Stage::Waiting, Report::Asked(None)), failed);
    assert_eq!(execute(Stage::Resuming, Report::Asked(None)), failed);
    assert_eq!(execute(Stage::Locking, Report::Locked { closed: true }), failed);
    let closed = (Stage::Ended, Order::Close);
    assert_eq!(execute(Stage::Preparing, Report::Prepared { ready: false }), closed);
    assert_eq!(
        execute(Stage::Serving, Report::Answered { healthy: false }).1,
        Order::Finish(Completion::Failure)
    );
}

#[test]
fn cached_answers_age() {
    let policy = CachePolicy::default();
    assert_eq!(policy.judge(Duration::from_secs(29)), Freshness::Current);
    assert_eq!(policy.judge(Duration::from_secs(30)), Freshness::Refresh);
    assert_eq!(policy.judge(Duration::from_secs(299)), Freshness::Refresh);
    assert_eq!(policy.judge(Duration::from_secs(300)), Freshness::Expired);
    assert_eq!(policy.max_entries, 1024);
}

#[test]
fn answers_are_sorted_without_duplicates_and_keep_their_endpoints() {
    let found = vec![Ip::V6(1), Ip::V4(9), Ip::V4(3), Ip::V6(1), Ip::V4(9)];
    let addresses = answer_set(&found).unwrap();
    assert_eq!(addresses, vec![Ip::V4(3), Ip::V4(9), Ip::V6(1)]);
    let mut sorted = found.clone();
    sorted.sort_unstable();
    sorted.dedup();
    assert_eq!(addresses, sorted);
    assert!(answer_set(&Vec::new()).is_none());

    let previous = vec![Ip::V4(9), Ip::V6(7)];
    assert_eq!(carried_over(&addresses, &previous), vec![None, Some(0), None]);
    assert_eq!(ResolveMode::SingleIpV4.families(), vec![Family::V4]);
    assert_eq!(ResolveMode::SingleIpV6.families(), vec![Family::V6]);
    assert_eq!(ResolveMode::Dual.families(), vec![Family::V6, Family::V4]);
    assert_eq!(ResolveMode::DualPreferIpV4.families(), vec![Family::V4, Family::V6]);
}

#[test]
fn unchanged_answers_keep_their_endpoints() {
    let addresses = vec![Ip::V4(3), Ip::V4(9), Ip::V6(1)];
    assert_eq!(carried_over(&addresses, &addresses), vec![Some(0), Some(1), Some(2)]);
}

#[test]
fn sampled_endpoints_are_locked_in_the_order_of_addresses() {
    let addresses = vec![Ip::V4(3), Ip::V4(9), Ip::V6(1)];
    assert_eq!(
        lock_order(&addresses, 2, 0),
        Sample::Pair { first: 2, second: 0, first_is_lower: false }
    );
    assert_eq!(
        lock_order(&addresses, 0, 2),
        Sample::Pair { first: 0, second: 2, first_is_lower: true }
    );
    assert_eq!(sample_endpoints(&vec![Ip::V6(4)]), Sample::Only);
    let mut seen = [false; 3];
    for _ in 0..200 {
        match sample_endpoints(&addresses) {
            Sample::Pair { first, second, first_is_lower } => {
                assert_ne!(first, second);
                assert_eq!(first_is_lower, first < second);
                seen[first] = true;
            }
            Sample::Only => panic!("three endpoints make a pair"),
        }
    }
    assert_eq!(seen, [true; 3]);
}

#[test]
fn a_balancer_serves_what_it_dispatched() {
    let full = ScheduleError::QueueFull;
    assert_eq!(
        serve(Phase::Routing, Event::Target(Target::Missing)),
        (Phase::Done, Action::PassThrough)
    );
    assert_eq!(
        serve(Phase::Routing, Event::Target(Target::Address)),
        (Phase::Done, Action::PassThrough)
    );
    assert_eq!(
        serve(Phase::Discovering, Event::Discovered(false)),
        (Phase::Done, Action::FailDiscovery)
    );
    assert_eq!(
        serve(Phase::Selecting, Event::Reserved(Err(full))),
        (Phase::Done, Action::Reject(full))
    );
    let until = Step::WaitUntil(start());
    let events = [
        (Event::Target(Target::Name), Action::Discover),
        (Event::Discovered(true), Action::Select),
        (Event::Reserved(Ok(())), Action::Confirm),
        (Event::Listed(false), Action::CancelAndSelect),
        (Event::Reserved(Ok(())), Action::Confirm),
        (Event::Listed(true), Action::PinAndAsk),
        (Event::Stepped(until), Action::Wait(until)),
        (Event::Stepped(Step::WaitForChange), Action::Wait(Step::WaitForChange)),
        (Event::Stepped(Step::Proceed), Action::Serve),
        (Event::Answered(false), Action::Finish(Completion::Failure)),
    ];
    let mut phase = Phase::Routing;
    for (event, expected) in events {
        let (next, action) = serve(phase, event);
        assert_eq!(action, expected);
        phase = next;
    }
    assert_eq!(phase, Phase::Done);
    assert_eq!(
        serve(Phase::Serving, Event::Answered(true)).1,
        Action::Finish(Completion::Success)
    );
}

#[test]
fn errors_tell_what_they_are() {
    let rejected: ServiceError<u8> = ServiceError::Rejected(ScheduleError::IdExhausted);
    assert_eq!(rejected.rejected(), Some(ScheduleError::IdExhausted));
    assert_eq!(rejected.inner(), None);
    assert_eq!(ServiceError::Inner(7u8).inner(), Some(&7));
    assert_eq!(ServiceError::Inner(7u8).rejected(), None);

    let discovery: DnsServiceError<&str, u8> = DnsServiceError::Discovery("no such name");
    assert_eq!(discovery.discovery(), Some(&"no such name"));
    assert_eq!((discovery.rejected(), discovery.inner()), (None, None));
    let rejected: DnsServiceError<&str, u8> = DnsServiceError::Rejected(ScheduleError::QueueFull);
    assert_eq!(rejected.rejected(), Some(ScheduleError::QueueFull));
    assert_eq!(rejected.discovery(), None);
    let inner: DnsServiceError<&str, u8> = DnsServiceError::Inner(3);
    assert_eq!((inner.inner(), inner.discovery()), (Some(&3), None));
}

#[test]
fn counters_start_at_zero_and_can_count() {
    let now = start();
    let mut endpoint = controller(1);
    assert!(endpoint.can_count());
    let token = endpoint.reserve(now).unwrap();
    let active = endpoint.on_dispatched(token, now).unwrap();
    assert_eq!(active.dispatched_at(), now);
    assert!(endpoint.on_complete(active, Outcome::Success, ms(20), now.plus(ms(20))));
    let snapshot = endpoint.snapshot(now.plus(ms(20)));
    assert_eq!((snapshot.completed, snapshot.failures, snapshot.latency_samples), (1, 0, 1));
    assert_eq!((snapshot.queue_capacity, snapshot.max_inflight), (2, 1024));
}
