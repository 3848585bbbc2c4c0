use high_precision_timer::{frequency, x86_64_measure_frequency, TickCounterFrequencyBase};
use std::time::Duration;

/// The estimate as floating-point hardware computes it.
fn by_floating_point(window: &Duration, ticks: u64) -> u64 {
    ((ticks as f64) / window.as_secs_f64()) as u64
}

/// A step of a linear congruential sequence.
fn next(state: &mut u64) -> u64 {
    *state = state.wrapping_mul(6364136223846793005).wrapping_add(1442695040888963407);
    *state ^ (*state >> 29)
}

#[test]
fn estimate_over_one_second_is_the_tick_count() {
    let window = Duration::from_secs(1);
    assert_eq!(x86_64_measure_frequency(&window, 100, 3_000_000_100), 3_000_000_000);
    assert_eq!(x86_64_measure_frequency(&window, 0, 1), 1);
    assert_eq!(frequency(100, 3_000_000_100).0, 3_000_000_000);
    assert_eq!(frequency(7, (1 << 53) + 6).0, (1 << 53) - 1);
}

#[test]
fn estimate_divides_by_the_window() {
    assert_eq!(x86_64_measure_frequency(&Duration::from_secs(2), 0, 4_800_000_000), 2_400_000_000);
    assert_eq!(x86_64_measure_frequency(&Duration::from_millis(500), 0, 12_000_000), 24_000_000);
    assert_eq!(x86_64_measure_frequency(&Duration::from_secs(3), 0, 10), 3);
    assert_eq!(x86_64_measure_frequency(&Duration::from_secs(3), 0, 2), 0);
    assert_eq!(x86_64_measure_frequency(&Duration::from_millis(250), 10, 11), 4);
}

#[test]
fn estimate_of_equal_readings_is_zero() {
    assert_eq!(x86_64_measure_frequency(&Duration::from_secs(1), 42, 42), 0);
    assert_eq!(x86_64_measure_frequency(&Duration::new(0, 0), 42, 42), 0);
    assert_eq!(frequency(u64::MAX, u64::MAX).0, 0);
}

#[test]
fn estimate_over_no_time_is_the_greatest_value() {
    assert_eq!(x86_64_measure_frequency(&Duration::new(0, 0), 0, 1), u64::MAX);
    assert_eq!(x86_64_measure_frequency(&Duration::new(0, 0), 5, 4), u64::MAX);
}

#[test]
fn estimate_counts_ticks_across_the_wrap_of_the_counter() {
    assert_eq!(frequency(u64::MAX - 1, 3).0, 5);
    assert_eq!(x86_64_measure_frequency(&Duration::from_secs(1), u64::MAX, 0), 1);
}

#[test]
fn estimate_keeps_53_significant_bits() {
    let window = Duration::from_secs(1);
    // below 2^53 every count is exact
    assert_eq!(x86_64_measure_frequency(&window, 0, (1 << 53) - 1), (1 << 53) - 1);
    assert_eq!(x86_64_measure_frequency(&window, 0, 1 << 53), 1 << 53);
    // halfway between two neighbours: to the even one
    assert_eq!(x86_64_measure_frequency(&window, 0, (1 << 53) + 1), 1 << 53);
    assert_eq!(x86_64_measure_frequency(&window, 0, (1 << 53) + 3), (1 << 53) + 4);
    assert_eq!(x86_64_measure_frequency(&window, 0, (1 << 54) + 2), 1 << 54);
    assert_eq!(x86_64_measure_frequency(&window, 0, (1 << 54) + 3), (1 << 54) + 4);
    assert_eq!(x86_64_measure_frequency(&window, 0, (1 << 54) + 6), (1 << 54) + 8);
    // what rounds to 2^64 is held at the greatest value
    assert_eq!(x86_64_measure_frequency(&window, 0, u64::MAX), u64::MAX);
    assert_eq!(x86_64_measure_frequency(&window, 0, u64::MAX - 1023), u64::MAX);
    assert_eq!(x86_64_measure_frequency(&window, 0, u64::MAX - 1024), u64::MAX - 2047);
}

#[test]
fn estimate_agrees_with_floating_point_on_chosen_windows() {
    let windows = [
        Duration::from_secs(1),
        Duration::from_secs(2),
        Duration::from_secs(3),
        Duration::from_secs(10),
        Duration::from_secs(86_400),
        Duration::from_secs(u64::MAX),
        Duration::from_secs((1 << 53) + 1),
        Duration::from_millis(1),
        Duration::from_millis(20),
        Duration::from_millis(100),
        Duration::from_millis(1_500),
        Duration::from_micros(1),
        Duration::from_nanos(1),
        Duration::from_nanos(3),
        Duration::from_nanos(999_999_999),
        Duration::new(1, 1),
        Duration::new(1, 999_999_999),
        Duration::new((1 << 53) - 1, 500_000_000),
        Duration::new((1 << 53) - 1, 999_999_999),
        Duration::new((1 << 52) + 1, 500_000_000),
        Duration::new(1 << 52, 250_000_000),
        Duration::new(u64::MAX, 999_999_999),
        Duration::new(4, 500_000_000),
        Duration::new(0, 500_000_000),
        Duration::new(0, 250_000_001),
    ];
    let counts = [
        1,
        2,
        3,
        7,
        1_000,
        24_000_000,
        3_000_000_000,
        (1 << 52) - 1,
        1 << 52,
        (1 << 53) - 1,
        1 << 53,
        (1 << 53) + 1,
        (1 << 53) + 2,
        (1 << 53) + 3,
        (1 << 60) + 129,
        (1 << 63) + 1024,
        (1 << 63) + 1025,
        u64::MAX - 1024,
        u64::MAX - 1023,
        u64::MAX,
    ];
    for window in windows.iter() {
        for ticks in counts.iter() {
            assert_eq!(
                x86_64_measure_frequency(window, 0, *ticks),
                by_floating_point(window, *ticks),
                "{} ticks over {:?}",
                ticks,
                window
            );
        }
    }
}

#[test]
fn estimate_agrees_with_floating_point_on_many_inputs() {
    let mut state: u64 = 0x2545_f491_4f6c_dd1d;
    for round in 0..200_000u32 {
        let ticks = next(&mut state) >> (next(&mut state) % 64);
        let secs = match round % 4 {
            0 => 0,
            1 => next(&mut state) % 1_000,
            _ => next(&mut state) >> (next(&mut state) % 64),
        };
        let nanos = match round % 3 {
            0 => 0,
            _ => (next(&mut state) % 1_000_000_000) as u32,
        };
        let window = Duration::new(secs, nanos);
        let start = next(&mut state);
        assert_eq!(
            x86_64_measure_frequency(&window, start, start.wrapping_add(ticks)),
            by_floating_point(&window, ticks),
            "{} ticks over {:?}",
            ticks,
            window
        );
    }
}

#[test]
fn frequency_names_its_window() {
    let (_, base) = frequency(0, 24_000_000);
    match base {
        TickCounterFrequencyBase::Hardware => panic!("a measured frequency"),
        TickCounterFrequencyBase::Measured(window) => {
            assert_eq!(window, Duration::from_millis(1000));
            assert_eq!(window.as_secs(), 1);
            assert_eq!(window.subsec_nanos(), 0);
        }
    }
}

#[test]
fn estimate_over_whole_seconds_loses_nothing() {
    assert_eq!(x86_64_measure_frequency(&Duration::from_secs(7), 0, 48), 6);
    assert_eq!(x86_64_measure_frequency(&Duration::from_secs(7), 0, 49), 7);
    assert_eq!(
        x86_64_measure_frequency(&Duration::from_secs(3), 0, (1 << 53) - 3),
        ((1 << 53) - 3) / 3
    );
    let mut state: u64 = 0x6a09_e667_f3bc_c908;
    for _ in 0..100_000u32 {
        let secs = (next(&mut state) >> (12 + next(&mut state) % 52)).max(1);
        let ticks = (next(&mut state) >> (11 + next(&mut state) % 53)).min((1 << 53) - secs);
        assert_eq!(
            x86_64_measure_frequency(&Duration::from_secs(secs), 5, 5 + ticks),
            ticks / secs,
            "{} ticks over {} seconds",
            ticks,
            secs
        );
    }
}
