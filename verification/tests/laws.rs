//! What holds of every controller, on concrete values.

use loadpace::admission::{Admission, Readiness, Refusal};
use loadpace::identity::Identities;
use loadpace::{
    simulate, Completion, ControllerChanges, DispatchState, Double, Duration, EndpointConfig,
    EndpointController, Gcra, Gradient2, Gradient2Config, Instant, LatencyEstimator,
    LatencyEstimatorConfig, ProbeSchedule, ProbeState, SimulatedEndpoint, SimulationConfig, Tuning,
};
use rand::rngs::StdRng;
use rand::{Rng, RngExt, SeedableRng};

fn num(value: f64) -> Double {
    Double { bits: value.to_bits() }
}

fn val(number: Double) -> f64 {
    f64::from_bits(number.bits)
}

fn start() -> Instant {
    Instant::from_nanos(50_000_000_000)
}

fn ms(millis: u64) -> Duration {
    Duration::from_millis(millis)
}

/// A schedule that decides and never starts a probe.
fn silent() -> ProbeSchedule {
    ProbeSchedule {
        positive_probability: num(0.0),
        negative_probability: num(0.0),
        ..ProbeSchedule::default()
    }
}

fn endpoint() -> EndpointController {
    let config = EndpointConfig::new(ms(10), 1);
    let tuning = Tuning {
        probe_schedule: silent(),
        ..config.tuning()
    };
    EndpointController::new_with_tuning(config, tuning, start(), 5, 1)
}

#[test]
fn failures_lower_the_operating_point_within_its_bounds() {
    let mut gradient = Gradient2::new(Gradient2Config {
        initial_concurrency: num(2.0),
        ..Gradient2Config::default()
    });
    let mut previous = val(gradient.concurrency());
    for _ in 0..20 {
        gradient.on_failure_at(start());
        let current = val(gradient.concurrency());
        assert!(current <= previous && current >= 0.25);
        previous = current;
    }
    assert_eq!(previous, 0.25);
}

#[test]
fn decisions_come_after_at_most_the_longest_interval() {
    let schedule = silent();
    let mut state = ProbeState::new();
    let mut rng = StdRng::seed_from_u64(3);
    let mut now = start();
    for _ in 0..50 {
        assert_eq!(schedule.maybe_start(&mut state, &mut rng, now), None);
        let next = state.next_probe_at().unwrap();
        assert!(next >= now.plus(Duration::from_secs(1)));
        assert!(next <= now.plus(Duration::from_secs(5)));
        now = next;
    }
}

#[test]
fn dispatches_are_an_interval_apart_and_deadlines_lie_ahead() {
    let mut controller = endpoint();
    let mut now = start();
    let mut last: Option<Instant> = None;
    for _ in 0..5 {
        let token = controller.reserve(now).unwrap();
        loop {
            match controller.dispatch_state(token, now) {
                DispatchState::Ready => break,
                DispatchState::WaitUntil(at) => {
                    assert!(at > now);
                    now = at;
                }
                other => panic!("unexpected state {other:?}"),
            }
        }
        let spacing = controller.pacer().interval();
        let _ = controller.on_dispatched(token, now).unwrap();
        if let Some(last) = last {
            assert!(now >= last.plus(ms(10)));
        }
        assert_eq!(controller.pacer().tat(), now.plus(spacing));
        last = Some(now);
    }
}

#[test]
fn reading_reserves_nothing_and_changed_pacing_wakes_the_queue() {
    let now = start();
    let mut controller = endpoint();
    let token = controller.reserve(now).unwrap();
    let active = controller.on_dispatched(token, now).unwrap();
    controller.reserve(now).unwrap();
    let _ = controller.take_changes();

    // Silence beyond the grace period slows the pacer down.
    let later = now.plus(ms(30));
    let before = controller.pacer().interval();
    let snapshot = controller.snapshot(later);
    assert_eq!(val(snapshot.feedback_factor), 0.25);
    assert!(controller.pacer().interval() > before);
    assert!(controller.take_changes().dispatch);
    assert_eq!((snapshot.queued, snapshot.inflight), (1, 1));
    assert_eq!((snapshot.completed, snapshot.failures), (0, 0));

    assert!(controller.finish(active, Completion::Failure, later));
    let snapshot = controller.snapshot(later);
    assert_eq!(val(snapshot.feedback_factor), 1.0);
    assert_eq!((snapshot.failures, snapshot.latency_samples), (1, 0));
    assert_eq!(val(snapshot.target_concurrency), 0.7);
}

#[test]
fn idle_endpoints_dispatch_at_once() {
    let now = start();
    let mut controller = endpoint();
    let token = controller.reserve(now).unwrap();
    assert_eq!(controller.dispatch_state(token, now), DispatchState::Ready);
    let later = now.plus(Duration::from_secs(3));
    assert_eq!(controller.dispatch_state(token, later), DispatchState::Ready);
    assert!(controller.probe().current().is_none());
    assert!(controller.on_dispatched(token, later).is_ok());
}

#[test]
fn rate_changes_keep_the_fraction_of_a_wait() {
    let now = start();
    let mut pacer = Gcra::new(num(10.0), now);
    pacer.commit(now);
    // Three quarters of the interval are left.
    let later = now.plus(ms(25));
    assert_eq!(pacer.next_at(later), later.plus(ms(75)));
    pacer.set_rate(num(5.0), later);
    assert_eq!(pacer.next_at(later), later.plus(ms(150)));
    pacer.set_rate(num(100.0), later);
    assert_eq!(pacer.next_at(later), later.plus(Duration::from_micros(7_500)));

    // The rate that is there already moves nothing, not even by rounding.
    let mut pacer = Gcra::with_interval(Duration::from_nanos(333_333_333), now);
    pacer.commit(now);
    let tat = pacer.tat();
    for step in 1..20u64 {
        let later = now.plus(Duration::from_nanos(step * 7_654_321));
        pacer.set_interval(Duration::from_nanos(333_333_333), later);
        assert_eq!(pacer.tat(), tat);
    }
}

#[test]
fn higher_rates_have_shorter_intervals() {
    let mut previous = Gcra::new(num(0.001), start()).interval();
    for rate in [0.01, 0.5, 0.50001, 3.0, 1000.0, 1e8, 1e9, 1e12] {
        let interval = Gcra::new(num(rate), start()).interval();
        assert!(interval <= previous);
        previous = interval;
    }
    assert_eq!(previous, Duration::from_nanos(1));
}

#[test]
fn a_second_refresh_wakes_nobody() {
    let now = start();
    let mut controller = endpoint();
    let token = controller.reserve(now).unwrap();
    let _ = controller.on_dispatched(token, now).unwrap();
    controller.reserve(now).unwrap();
    let later = now.plus(ms(45));
    controller.refresh(later);
    assert!(controller.take_changes().dispatch);
    let tat = controller.pacer().tat();
    controller.refresh(later);
    assert_eq!(controller.take_changes(), ControllerChanges::default());
    assert_eq!(controller.pacer().tat(), tat);
}

#[test]
fn a_cancelled_reservation_leaves_the_prediction_as_it_was() {
    let now = start();
    let mut controller = EndpointController::new_with_tuning(
        EndpointConfig::new(ms(10), 1).with_queue_capacity(4),
        Tuning { probe_schedule: silent(), ..EndpointConfig::new(ms(10), 1).tuning() },
        now,
        5,
        1,
    );
    controller.reserve(now).unwrap();
    controller.reserve(now).unwrap();
    let before = controller.predicted_completion(now);
    let token = controller.reserve(now).unwrap();
    assert_eq!(controller.predicted_completion(now), before.plus(ms(10)));
    assert!(controller.cancel(token, now));
    assert_eq!(controller.predicted_completion(now), before);
    assert_eq!(controller.queued(), 2);
}

#[test]
fn tokens_are_never_used_again() {
    let now = start();
    let mut controller = endpoint();
    let mut tokens = Vec::new();
    for step in 0..6u64 {
        let now = now.plus(ms(40 * step));
        let token = controller.reserve(now).unwrap();
        assert!(!tokens.contains(&token));
        if step % 2 == 0 {
            assert!(controller.cancel(token, now));
        } else {
            let active = controller.on_dispatched(token, now).unwrap();
            assert!(controller.finish(active, Completion::Success, now.plus(ms(10))));
        }
        assert_eq!(controller.dispatch_state(token, now), DispatchState::Cancelled);
        assert!(!controller.cancel(token, now));
        tokens.push(token);
    }
}

#[test]
fn paced_requests_waited_for_the_next_slot() {
    let now = start();
    let mut controller = endpoint();
    let first = controller.reserve(now).unwrap();
    assert_eq!(controller.dispatch_state(first, now), DispatchState::Ready);
    assert!(!controller.on_dispatched(first, now).unwrap().was_paced());

    let second = controller.reserve(now).unwrap();
    let slot = controller.pacer().next_at(now);
    assert_eq!(controller.dispatch_state(second, now), DispatchState::WaitUntil(slot));
    assert_eq!(controller.dispatch_state(second, slot), DispatchState::Ready);
    assert!(controller.on_dispatched(second, slot).unwrap().was_paced());
}

#[test]
fn silence_slows_dispatch_and_never_stops_it() {
    let now = start();
    let mut controller = endpoint();
    let token = controller.reserve(now).unwrap();
    let _ = controller.on_dispatched(token, now).unwrap();
    let mut previous = 1.0;
    for seconds in [1u64, 2, 5, 60, 3_600, 1_000_000] {
        let snapshot = controller.snapshot(now.plus(Duration::from_secs(seconds)));
        let factor = val(snapshot.feedback_factor);
        assert!(factor > 0.0 && factor <= previous);
        assert!(val(snapshot.effective_rate) > 0.0);
        assert!(snapshot.effective_rate.bits <= snapshot.probed_rate.bits);
        previous = factor;
    }
    assert!(previous < 1e-6);
}

#[test]
fn averages_lie_between_the_last_one_and_the_sample() {
    let mut estimator = LatencyEstimator::new(LatencyEstimatorConfig {
        initial_rtt: ms(50),
        ..LatencyEstimatorConfig::default()
    });
    for sample in [70u64, 1, 1, 999, 50, 3, 50_000, 2] {
        let sample = ms(sample);
        let (short, long) = (estimator.short(), estimator.long());
        estimator.observe_at(sample, start());
        for (old, new) in [(short, estimator.short()), (long, estimator.long())] {
            assert!(old.shorter(sample) <= new && new <= old.longer(sample));
        }
    }
}

#[test]
fn the_baseline_is_the_least_of_the_recent_samples() {
    let config = LatencyEstimatorConfig {
        initial_rtt: ms(1),
        baseline_window: Duration::from_secs(8),
        ..LatencyEstimatorConfig::default()
    };
    let mut estimator = LatencyEstimator::new(config);
    let mut seen: Vec<(u64, u64)> = Vec::new();
    let mut at = 0u64;
    for step in 0..200u64 {
        at += (step * 7919) % 1300;
        let sample = 20 + (step * 104_729) % 177;
        seen.push((at, sample));
        estimator.observe_at(ms(sample), start().plus(ms(at)));
        let baseline = estimator.baseline();
        for (time, value) in &seen {
            if time + 7_000 > at {
                assert!(baseline <= ms(*value));
            }
        }
        assert!(seen.iter().any(|(time, value)| time + 8_000 > at && baseline == ms(*value)));
    }
    assert_eq!(estimator.samples(), 200);
}

#[test]
fn powers_of_one_half_fall() {
    let mut previous = 1.0;
    for step in 0..6_000u64 {
        let exponent = step as f64 / 512.0;
        let power = val(num(exponent).halve());
        assert!(power <= previous);
        assert!((power - (-exponent).exp2()).abs() <= 1e-15 * power);
        previous = power;
    }
    assert_eq!(val(num(3.0).halve()), 0.125);
}

#[test]
fn a_closed_admission_stays_closed() {
    let now = start();
    let config = EndpointConfig::new(ms(10), 1).with_queue_capacity(2);
    let mut door: Admission<String, u64> = Admission::new_at(config, now, 1);
    let queued = door.call(now).unwrap();
    assert_eq!(door.close("broken".to_string(), now), None);
    for step in 0..4u64 {
        let now = now.plus(ms(30 * step));
        assert_eq!(door.poll_ready(Some(step)), Readiness::Closed);
        assert_eq!(door.failure().map(String::as_str), Some("broken"));
        assert_eq!(door.call(now).err(), Some(Refusal::Closed));
        assert_eq!(door.wait_until_dispatchable(&queued, now), None);
        let _ = door.load_metric(now);
        door.controller().refresh(now);
        assert!(door.is_closed());
    }
    assert_eq!(door.snapshot(now).0.queued, 1);
}

#[test]
fn simulated_requests_are_completed_or_in_flight() {
    let endpoints: Vec<SimulatedEndpoint> = [ms(30), ms(80)]
        .into_iter()
        .map(|service_time| SimulatedEndpoint {
            config: EndpointConfig::new(service_time, 2).with_queue_capacity(3),
            workers: 2,
            service_time,
        })
        .collect();
    let config = SimulationConfig {
        duration: Duration::from_secs(3),
        offered_rate: num(60.0),
        endpoints,
        seed: 11,
    };
    assert!(config.is_valid());
    let report = simulate(config);
    assert!(report.completed > 0);
    for endpoint in &report.endpoints {
        assert_eq!(
            endpoint.dispatched,
            endpoint.completed + endpoint.snapshot.inflight as u64
        );
    }
}

#[test]
fn only_simulations_whose_arrivals_can_be_counted_are_valid() {
    let config = SimulationConfig::default();
    assert!(config.is_valid());
    let endpoint = &config.endpoints[0].config;
    assert_eq!(endpoint.queue_tolerance(), ms(25));
    assert_eq!((endpoint.queue_capacity(), endpoint.max_inflight()), (4, 1024));
    let slow = SimulationConfig {
        duration: Duration::from_secs(u64::MAX),
        offered_rate: num(1.0),
        ..SimulationConfig::default()
    };
    assert!(!slow.is_valid());
    let slow = SimulationConfig {
        duration: Duration::from_secs(u64::MAX - 1),
        offered_rate: num(0.5),
        ..SimulationConfig::default()
    };
    assert!(slow.is_valid());
    let fast = SimulationConfig {
        duration: Duration::from_secs(u64::MAX),
        offered_rate: num(1e9),
        ..SimulationConfig::default()
    };
    assert!(!fast.is_valid());
}

#[test]
fn a_released_slot_wakes_the_task_that_waits_for_it() {
    let now = start();
    let config = EndpointConfig::new(ms(10), 1).with_queue_capacity(1);
    let mut door: Admission<String, u64> = Admission::new_at(config, now, 1);
    let mut queued = door.call(now).unwrap();
    assert_eq!(door.poll_ready(Some(7)), Readiness::Wait);
    // Reading releases nothing.
    let (_, changes) = door.load_metric(now);
    assert_eq!(door.take_waker(changes), None);
    assert_eq!(door.waker(), Some(&7));
    let (_, changes) = queued.start(door.controller(), now);
    assert!(changes.admission);
    assert_eq!(door.take_waker(changes), Some(7));
    assert_eq!(door.waker(), None);
    assert_eq!(door.poll_ready(Some(8)), Readiness::Ready);
}

#[test]
fn shorter_intervals_never_lengthen_long_waits() {
    let now = start();
    // A wait of more than two weeks, with neighbouring intervals.
    for (wait, long) in [(1_999_999_999_999_999u64, 845_378_968_840_745u64), (1 << 50, 3), (7, 2)] {
        let slot = now.plus(Duration::from_nanos(wait));
        let mut pacer = Gcra::with_interval(Duration::from_nanos(long), slot);
        pacer.set_interval(Duration::from_nanos(long - 1), now);
        assert!(pacer.next_at(now) <= slot);
    }
    // From two to the power 21 seconds on rounding shows.
    let interval = Duration { nanos: 845_378_968_840_745_427_789 };
    let wait = Duration { nanos: 3_239_651_763_552_055 };
    let mut pacer = Gcra::with_interval(interval, now.plus(wait));
    pacer.set_interval(Duration { nanos: interval.nanos - 1 }, now);
    assert_eq!(pacer.next_at(now), now.plus(wait).plus(Duration::from_nanos(1)));
}

#[test]
fn averages_are_resolved_to_the_nanosecond_for_months() {
    let config = LatencyEstimatorConfig {
        initial_rtt: Duration::from_secs(8_388_607),
        ..LatencyEstimatorConfig::default()
    };
    let mut estimator = LatencyEstimator::new(config);
    for sample in [8_388_607_999_999_999u64, 8_388_607_000_000_001, 5, 8_388_607_999_999_998] {
        let sample = Duration::from_nanos(sample);
        let least = sample.longer(Duration::from_micros(1));
        let (short, long) = (estimator.short(), estimator.long());
        estimator.observe_at(sample, start());
        for (old, new) in [(short, estimator.short()), (long, estimator.long())] {
            assert!(old.shorter(sample) <= new && new <= old.longer(least));
        }
        assert_eq!(Duration::from_seconds(least.as_seconds()), least);
    }
}

#[test]
fn indices_are_scaled_words() {
    for seed in 0..400u64 {
        for bound in [1usize, 2, 3, 10, 1 << 20, 3_000_000_000, u32::MAX as usize] {
            let mut words = StdRng::seed_from_u64(seed);
            let mut rng = StdRng::seed_from_u64(seed);
            let size = 1u64 << 32;
            let product = words.next_u32() as u64 * bound as u64;
            let mut index = product / size;
            if product % size > size - bound as u64 {
                let second = words.next_u32() as u64 * bound as u64 / size;
                index += (product % size + second >= size) as u64;
            }
            assert_eq!(rng.random_range(0..bound) as u64, index);
            assert_eq!(rng.next_u32(), words.next_u32());
        }
        for bound in [(1usize << 32) + 1, 1 << 62, usize::MAX] {
            let mut words = StdRng::seed_from_u64(seed);
            let mut rng = StdRng::seed_from_u64(seed);
            let size = 1u128 << 64;
            let product = words.next_u64() as u128 * bound as u128;
            let mut index = product / size;
            if product % size > size - bound as u128 {
                let second = words.next_u64() as u128 * bound as u128 / size;
                index += (product % size + second >= size) as u128;
            }
            assert_eq!(rng.random_range(0..bound) as u128, index);
            assert_eq!(rng.next_u32(), words.next_u32());
        }
    }
}

#[test]
fn controllers_recognize_their_own_tokens() {
    let now = start();
    let mut identities = Identities::new();
    let config = EndpointConfig::new(ms(10), 1);
    let mut first =
        EndpointController::new_with_seed(config, now, 1, identities.take().unwrap());
    let mut second =
        EndpointController::new_with_seed(config, now, 1, identities.take().unwrap());
    let (a, b) = (first.reserve(now).unwrap(), second.reserve(now).unwrap());
    assert!(a != b);
    assert_eq!(first.dispatch_state(b, now), DispatchState::Cancelled);
    assert!(!second.cancel(a, now));
    assert_eq!(second.dispatch_state(b, now), DispatchState::Ready);
    assert_eq!(identities.take(), Some(2));
}
