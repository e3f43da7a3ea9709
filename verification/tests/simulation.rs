//! Whole workloads.

use loadpace::{
    simulate, Double, Duration, EndpointConfig, SimulatedEndpoint, SimulationConfig,
};

fn num(value: f64) -> Double {
    Double { bits: value.to_bits() }
}

fn ms(millis: u64) -> Duration {
    Duration::from_millis(millis)
}

fn endpoint(queue_capacity: usize, service_time: Duration) -> SimulatedEndpoint {
    SimulatedEndpoint {
        config: EndpointConfig::new(service_time, 1)
            .with_queue_capacity(queue_capacity)
            .with_max_inflight(16),
        workers: 1,
        service_time,
    }
}

#[test]
fn simulator_keeps_offered_load_bounded_by_the_endpoint_horizon() {
    let report = simulate(SimulationConfig {
        duration: ms(300),
        offered_rate: num(100.0),
        endpoints: vec![endpoint(2, ms(100))],
        seed: 7,
    });

    assert!(report.offered > report.accepted);
    assert!(report.backpressured > 0);
    assert!(report.max_queued <= 2);
    assert!(report.accepted - report.dispatched <= 2);
}

#[test]
fn simulator_uses_predicted_cost_to_shift_work_to_a_faster_endpoint() {
    let report = simulate(SimulationConfig {
        duration: Duration::from_secs(2),
        offered_rate: num(20.0),
        endpoints: vec![endpoint(4, ms(10)), endpoint(4, ms(100))],
        seed: 42,
    });

    assert!(report.endpoints[0].dispatched > report.endpoints[1].dispatched);
    assert!(report.endpoints[0].snapshot.expected_rtt < report.endpoints[1].snapshot.expected_rtt);
}

#[test]
fn simulator_models_worker_capacity_and_queueing_latency() {
    let report = simulate(SimulationConfig {
        duration: Duration::from_secs(2),
        offered_rate: num(500.0),
        endpoints: vec![SimulatedEndpoint {
            config: EndpointConfig::new(ms(50), 1).with_queue_capacity(4),
            workers: 2,
            service_time: ms(10),
        }],
        seed: 11,
    });

    assert!(report.completed > 100);
    assert!(report.endpoints[0].snapshot.expected_rtt > ms(10));
    assert!(report.max_queued <= 4);
}

#[test]
fn simulator_makes_progress_above_timer_precision() {
    let report = simulate(SimulationConfig {
        duration: ms(0),
        offered_rate: num(1e20),
        endpoints: vec![endpoint(1, ms(1))],
        seed: 13,
    });

    assert_eq!(report.offered, 1);
    assert_eq!(report.accepted, 1);
}

#[test]
fn simulation_defaults_are_a_runnable_baseline() {
    let config = SimulationConfig::default();

    assert_eq!(config.duration, Duration::from_secs(10));
    assert_eq!(config.offered_rate, num(1.0));
    assert_eq!(config.endpoints.len(), 1);
    assert_eq!(config.endpoints[0].workers, 1);
    assert_eq!(config.endpoints[0].service_time, ms(50));
    assert!(config.is_valid());

    let report = simulate(config);
    assert_eq!(report.offered, 11);
    assert_eq!(report.accepted, 11);
    assert_eq!(report.completed, 10);
}

#[test]
fn the_same_seed_gives_the_same_report() {
    let config = SimulationConfig {
        duration: Duration::from_secs(20),
        offered_rate: num(60.0),
        endpoints: vec![
            endpoint(4, ms(20)),
            endpoint(4, ms(25)),
            endpoint(4, ms(30)),
        ],
        seed: 5,
    };
    let first = simulate(config.clone());
    assert_eq!(first, simulate(config.clone()));
    assert_ne!(first, simulate(SimulationConfig { seed: 6, ..config }));
}

#[test]
fn every_offered_request_is_accounted_for() {
    let report = simulate(SimulationConfig {
        duration: ms(1050),
        offered_rate: num(200.0),
        endpoints: vec![endpoint(3, ms(40)), endpoint(5, ms(60))],
        seed: 3,
    });
    let queued: usize = report.endpoints.iter().map(|e| e.snapshot.queued).sum();
    assert_eq!(report.offered, 211);
    assert_eq!(report.offered, report.accepted + report.backpressured);
    assert_eq!(report.accepted, report.dispatched + queued as u64);
    assert!(report.completed <= report.dispatched);
    assert!(report.max_queued <= 5);
}

#[test]
fn unusable_simulations_are_recognized() {
    let usable = SimulationConfig::default();
    let cases = [
        SimulationConfig { offered_rate: num(1e-30), ..usable.clone() },
        SimulationConfig { offered_rate: num(0.0), ..usable.clone() },
        SimulationConfig { offered_rate: num(f64::INFINITY), ..usable.clone() },
        SimulationConfig { endpoints: Vec::new(), ..usable.clone() },
        SimulationConfig {
            endpoints: vec![SimulatedEndpoint { workers: 0, ..usable.endpoints[0] }],
            ..usable.clone()
        },
        SimulationConfig {
            endpoints: vec![SimulatedEndpoint { service_time: ms(0), ..usable.endpoints[0] }],
            ..usable.clone()
        },
    ];
    assert!(usable.is_valid());
    for case in cases {
        assert!(!case.is_valid());
    }
}
