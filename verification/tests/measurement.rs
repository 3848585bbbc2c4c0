use high_precision_timer::{frequency, TickCounter, TickCounterFrequencyBase};
use std::time::{Duration, Instant};

/// A counter of one tick per nanosecond that started with the given instant.
fn read_counter(origin: &Instant) -> u64 {
    origin.elapsed().as_nanos() as u64 + 1
}

/// Keeps the calling thread busy until the given time has passed.
fn pass_time(duration: Duration) {
    let begin = Instant::now();
    while begin.elapsed() < duration {
        std::hint::spin_loop();
    }
}

#[test]
fn basic_usage_with_helper() {
    let origin = Instant::now();
    let tick_counter = TickCounter::current(read_counter(&origin));
    pass_time(Duration::from_millis(20));
    let elapsed_ticks = tick_counter.elapsed(read_counter(&origin));
    assert!(elapsed_ticks > 0);
}

#[test]
fn test_x86_64_counter_frequency() {
    let origin = Instant::now();
    let counter_start = read_counter(&origin);
    pass_time(Duration::from_secs(1));
    let counter_stop = read_counter(&origin);
    let (counter_frequency, frequency_base_) = frequency(counter_start, counter_stop);
    assert!(counter_frequency > 0);
    let estimated_duration = match frequency_base_ {
        TickCounterFrequencyBase::Hardware => None,
        TickCounterFrequencyBase::Measured(duration) => Some(duration),
    };
    assert_eq!(estimated_duration, Some(Duration::from_millis(1000)));
}
