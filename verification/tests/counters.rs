use high_precision_timer::{x86_64_processor_id, x86_64_tick_counter, TickCounter};
use std::time::{Duration, Instant};

/// A stand-in for the processor's counter: one tick per nanosecond since it was
/// made and one more per reading, counted from a value just below 2^32, and
/// read on one core.
struct Processor {
    origin: Instant,
    readings: u64,
    core: u32,
}

impl Processor {
    fn new() -> Processor {
        Processor { origin: Instant::now(), readings: 0, core: 3 }
    }

    fn count(&mut self) -> u64 {
        self.readings += 1;
        0xffff_ff00 + self.origin.elapsed().as_nanos() as u64 + self.readings
    }

    /// The registers `eax` and `edx` after a plain read.
    fn rdtsc(&mut self) -> (u32, u32) {
        let count = self.count();
        (count as u32, (count >> 32) as u32)
    }

    /// The registers `eax`, `edx` and `ecx` after a core-tagged read.
    fn rdtscp(&mut self) -> (u32, u32, u32) {
        let (eax, edx) = self.rdtsc();
        (eax, edx, self.core)
    }

    fn tick_counter(&mut self) -> u64 {
        let (eax, edx) = self.rdtsc();
        x86_64_tick_counter(eax, edx)
    }

    fn processor_id(&mut self) -> (u64, u32) {
        let (eax, edx, ecx) = self.rdtscp();
        x86_64_processor_id(eax, edx, ecx)
    }
}

/// Keeps the calling thread busy until the given time has passed.
fn pass_time(duration: Duration) {
    let begin = Instant::now();
    while begin.elapsed() < duration {
        std::hint::spin_loop();
    }
}

#[test]
fn basic_usage() {
    let mut processor = Processor::new();
    let start = processor.tick_counter();
    pass_time(Duration::from_millis(20));
    let elapsed_ticks = processor.tick_counter() - start;
    assert!(elapsed_ticks > 0);
}

#[test]
fn test_x86_64_counters() {
    let mut processor = Processor::new();

    let counter1 = processor.tick_counter();
    let counter2 = processor.tick_counter();
    let diff_tick_counter = counter2 - counter1;
    assert!(counter1 < counter2);
    assert!(diff_tick_counter > 0);

    let counter_start = processor.tick_counter();
    let counter_stop = processor.tick_counter();
    let diff_tick_counter2 = TickCounter::current(counter_start).elapsed(counter_stop);
    assert!(counter_start < counter_stop);
    assert!(diff_tick_counter2 > 0);

    let counter3 = processor.count();
    let counter4 = processor.count();
    let diff_tick_counter3 = counter4 - counter3;
    assert!(counter3 < counter4);
    assert!(diff_tick_counter3 > 0);

    let (eax, edx, ecx) = processor.rdtscp();
    let counter5 = (edx as u64) << 32 | (eax as u64);
    let cpu_core_id_1 = ecx;

    let (eax, edx, ecx) = processor.rdtscp();
    let counter6 = (edx as u64) << 32 | (eax as u64);
    let cpu_core_id_2 = ecx;
    let diff_tick_rdtscp = counter6 - counter5;

    assert!(counter5 < counter6);
    assert!(diff_tick_rdtscp > 0);
    assert!(cpu_core_id_1 == cpu_core_id_2);

    let (counter7, cpu_core_id_3) = processor.processor_id();
    let (counter8, cpu_core_id_4) = processor.processor_id();
    let diff_tick_asm_rdtscp = counter8 - counter7;

    assert!(counter7 < counter8);
    assert!(cpu_core_id_1 == cpu_core_id_3);
    assert!(cpu_core_id_3 == cpu_core_id_4);
    assert!(diff_tick_asm_rdtscp > 0);
}

#[test]
fn tick_value_joins_the_two_registers() {
    assert_eq!(x86_64_tick_counter(0, 0), 0);
    assert_eq!(x86_64_tick_counter(1, 0), 1);
    assert_eq!(x86_64_tick_counter(0, 1), 1 << 32);
    assert_eq!(x86_64_tick_counter(0x89ab_cdef, 0x0123_4567), 0x0123_4567_89ab_cdef);
    assert_eq!(x86_64_tick_counter(u32::MAX, 0), 0xffff_ffff);
    assert_eq!(x86_64_tick_counter(0, u32::MAX), 0xffff_ffff_0000_0000);
    assert_eq!(x86_64_tick_counter(u32::MAX, u32::MAX), u64::MAX);
}

#[test]
fn tagged_reading_keeps_the_core_identifier() {
    assert_eq!(x86_64_processor_id(0x89ab_cdef, 0x0123_4567, 5), (0x0123_4567_89ab_cdef, 5));
    assert_eq!(x86_64_processor_id(7, 0, 0), (7, 0));
    assert_eq!(x86_64_processor_id(0, 0, u32::MAX), (0, u32::MAX));
}

#[test]
fn tick_values_are_ordered_as_their_registers() {
    // the lower register passes its limit
    let before = x86_64_tick_counter(u32::MAX, 6);
    let after = x86_64_tick_counter(0, 7);
    assert!(before < after);
    assert_eq!(after - before, 1);
    assert!(x86_64_tick_counter(5, 1) > x86_64_tick_counter(9, 0));
    assert!(x86_64_tick_counter(5, 1) < x86_64_tick_counter(6, 1));
}

#[test]
fn elapsed_is_the_difference_of_the_readings() {
    let tick_counter = TickCounter::current(1_000);
    assert_eq!(tick_counter.elapsed(1_000), 0);
    assert_eq!(tick_counter.elapsed(1_001), 1);
    assert_eq!(tick_counter.elapsed(25_000), 24_000);
    assert_eq!(tick_counter.elapsed(u64::MAX), u64::MAX - 1_000);
    // the handle is not changed by a reading
    assert_eq!(tick_counter.elapsed(1_001), 1);
}

#[test]
fn elapsed_counts_across_the_wrap_of_the_counter() {
    let tick_counter = TickCounter::current(u64::MAX - 1);
    assert_eq!(tick_counter.elapsed(u64::MAX), 1);
    assert_eq!(tick_counter.elapsed(0), 2);
    assert_eq!(tick_counter.elapsed(3), 5);
    assert_eq!(TickCounter::current(1).elapsed(0), u64::MAX);
}

#[test]
fn elapsed_after_twenty_milliseconds() {
    // one tick per nanosecond: a counter of a thousand times one megahertz
    let mut processor = Processor::new();
    let tick_counter = TickCounter::current(processor.tick_counter());
    pass_time(Duration::from_millis(20));
    let elapsed_ticks = tick_counter.elapsed(processor.tick_counter());
    assert!(elapsed_ticks > 0);
    assert!(elapsed_ticks > 20_000);
    assert!(elapsed_ticks >= 20_000_000);
}
