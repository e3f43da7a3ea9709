//! Numbers computed on bit patterns against the processor's own.

use loadpace::{Double, Duration};
use rand::rngs::StdRng;
use rand::{Rng, RngExt, SeedableRng};

fn num(value: f64) -> Double {
    Double { bits: value.to_bits() }
}

fn val(number: Double) -> f64 {
    f64::from_bits(number.bits)
}

/// Numbers of all sizes, with short and long mantissas.
fn samples() -> Vec<f64> {
    let mut rng = StdRng::seed_from_u64(99);
    let mut numbers = vec![
        0.0,
        f64::from_bits(1),
        f64::MIN_POSITIVE,
        f64::EPSILON,
        0.1,
        0.5,
        1.0 - f64::EPSILON / 2.0,
        1.0,
        1.0 + f64::EPSILON,
        1.5,
        3.0,
        1e9,
        9007199254740991.0,
        9007199254740993.0,
        1e300,
        f64::MAX,
    ];
    for _ in 0..150 {
        let exponent = rng.random_range(900..1100u64);
        let word: u64 = rng.next_u64();
        let mantissa = if word % 3 == 0 { (word >> 40) << 28 } else { word >> 12 };
        numbers.push(f64::from_bits((exponent << 52) | mantissa));
    }
    for _ in 0..60 {
        let word: u64 = rng.next_u64();
        numbers.push(f64::from_bits(word >> 1));
    }
    numbers.retain(|number| number.is_finite());
    numbers
}

#[test]
fn sums_and_differences_round_as_the_processor_does() {
    let numbers = samples();
    for &a in &numbers {
        for &b in &numbers {
            if (a + b).is_finite() {
                assert_eq!(num(a).plus(num(b)).bits, (a + b).to_bits(), "{a:e} + {b:e}");
            }
            let difference = if a >= b { a - b } else { 0.0 };
            assert_eq!(num(a).minus(num(b)).bits, difference.to_bits(), "{a:e} - {b:e}");
        }
    }
}

#[test]
fn products_and_quotients_round_as_the_processor_does() {
    let numbers = samples();
    for &a in &numbers {
        for &b in &numbers {
            if (a * b).is_finite() {
                assert_eq!(num(a).times(num(b)).bits, (a * b).to_bits(), "{a:e} * {b:e}");
            }
            if b > 0.0 && (a / b).is_finite() {
                assert_eq!(num(a).over(num(b)).bits, (a / b).to_bits(), "{a:e} / {b:e}");
            }
        }
    }
}

#[test]
fn whole_numbers_and_durations_convert_as_in_the_standard_library() {
    let mut rng = StdRng::seed_from_u64(4);
    for _ in 0..2000 {
        let places: u32 = rng.random_range(0..64);
        let word: u64 = rng.next_u64();
        let n = word >> places;
        assert_eq!(Double::from_int(n as u128).bits, (n as f64).to_bits(), "{n}");

        let std = std::time::Duration::from_nanos(n);
        let own = Duration::from_nanos(n);
        assert_eq!(own.as_seconds().bits, std.as_secs_f64().to_bits(), "{n}");
        let back = std::time::Duration::from_secs_f64(std.as_secs_f64());
        assert_eq!(
            Duration::from_seconds(own.as_seconds()).nanos,
            back.as_nanos(),
            "{n}"
        );
    }
    for value in [0.0, 4.9e-10, 5e-10, 5.1e-10, 1.5e-9, 2.5e-9, 0.3, 1e9, 1.8e19, f64::MIN_POSITIVE] {
        let std = std::time::Duration::from_secs_f64(value);
        assert_eq!(Duration::from_seconds(num(value)).nanos, std.as_nanos(), "{value:e}");
    }
}

#[test]
fn out_of_range_results_saturate() {
    let longest = std::time::Duration::MAX.as_nanos();
    assert_eq!(Duration::from_seconds(num(1e30)).nanos, longest);
    assert_eq!(num(1.0).over(num(0.0)).bits, u64::MAX);
    assert_eq!(num(1.0).minus(num(2.0)).bits, 0);
    assert_eq!(Duration { nanos: longest }.saturating_mul(2).nanos, longest);
    assert_eq!(Duration { nanos: longest }.saturating_add(Duration { nanos: 1 }).nanos, longest);
}

#[test]
fn powers_of_one_half_are_exact_at_whole_numbers_and_close_elsewhere() {
    for n in 0..1074u32 {
        let power = (0..n).fold(1.0f64, |value, _| value / 2.0);
        assert_eq!(num(n as f64).halve().bits, power.to_bits(), "{n}");
    }
    assert_eq!(num(5000.0).halve().bits, 0);
    assert_eq!(num(1e300).halve().bits, 0);
    for step in 0..5000u32 {
        let x = step as f64 * 0.013_7;
        let exact = (-x).exp2();
        let ours = val(num(x).halve());
        assert!((ours - exact).abs() <= exact * 2.0 * f64::EPSILON, "{x}");
    }
}

#[test]
fn comparisons_follow_the_order_of_numbers() {
    let numbers = samples();
    for &a in &numbers {
        for &b in &numbers {
            assert_eq!(val(num(a).larger(num(b))), a.max(b));
            assert_eq!(val(num(a).smaller(num(b))), a.min(b));
            assert_eq!(num(a) < num(b), a < b);
        }
        assert_eq!(val(num(a).confine(num(0.5), num(2.0))), a.clamp(0.5, 2.0));
    }
}
