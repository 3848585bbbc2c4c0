use high_precision_timer::precision_nanoseconds;

/// A step of a linear congruential sequence.
fn next(state: &mut u64) -> u64 {
    *state = state.wrapping_mul(6364136223846793005).wrapping_add(1442695040888963407);
    *state ^ (*state >> 29)
}

#[test]
fn test_x86_64_counter_accuracy() {
    let counter_frequency = 24_000_000;
    let counter_accuracy = f64::from_bits(precision_nanoseconds(counter_frequency));
    assert_eq!((counter_accuracy as u64), 41);
}

#[test]
fn precision_is_not_rounded() {
    assert_eq!(f64::from_bits(precision_nanoseconds(1)), 1.0e9);
    assert_eq!(f64::from_bits(precision_nanoseconds(1_000_000_000)), 1.0);
    assert_eq!(f64::from_bits(precision_nanoseconds(2_000_000_000)), 0.5);
    assert_eq!(f64::from_bits(precision_nanoseconds(4_000_000)), 250.0);
    assert_eq!(precision_nanoseconds(24_000_000), 0x4044_d555_5555_5555);
    assert_eq!(f64::from_bits(precision_nanoseconds(24_000_000)), 1.0e9 / 24.0e6);
    assert_eq!(f64::from_bits(precision_nanoseconds(3_000_000_000)), 1.0 / 3.0);
}

#[test]
fn precision_at_frequency_zero_is_infinite() {
    let precision = f64::from_bits(precision_nanoseconds(0));
    assert!(precision.is_infinite());
    assert!(precision > 0.0);
    assert_eq!(precision_nanoseconds(0), f64::INFINITY.to_bits());
}

#[test]
fn precision_depends_on_the_frequency_alone() {
    for frequency in [0, 1, 41, 24_000_000, u64::MAX] {
        assert_eq!(precision_nanoseconds(frequency), precision_nanoseconds(frequency));
    }
}

#[test]
fn precision_agrees_with_floating_point() {
    let chosen = [
        1,
        2,
        3,
        999_999_999,
        1_000_000_000,
        1_000_000_001,
        (1 << 53) - 1,
        1 << 53,
        (1 << 53) + 1,
        (1 << 53) + 3,
        u64::MAX - 1024,
        u64::MAX - 1023,
        u64::MAX,
    ];
    for frequency in chosen {
        assert_eq!(
            precision_nanoseconds(frequency),
            (1.0e9_f64 / (frequency as f64)).to_bits(),
            "at {} ticks per second",
            frequency
        );
    }
    let mut state: u64 = 0x9e37_79b9_7f4a_7c15;
    for _ in 0..200_000u32 {
        let frequency = (next(&mut state) >> (next(&mut state) % 64)).max(1);
        assert_eq!(
            precision_nanoseconds(frequency),
            (1.0e9_f64 / (frequency as f64)).to_bits(),
            "at {} ticks per second",
            frequency
        );
    }
}

#[test]
fn precision_cut_to_whole_nanoseconds_is_the_whole_quotient() {
    let chosen = [1, 2, 3, 7, 41, 24_000_000, 999_999_999, 1_000_000_000, 1_000_000_001, u64::MAX];
    for frequency in chosen {
        assert_eq!(
            f64::from_bits(precision_nanoseconds(frequency)) as u64,
            1_000_000_000 / frequency,
            "at {} ticks per second",
            frequency
        );
    }
    let mut state: u64 = 0x0123_4567_89ab_cdef;
    for _ in 0..100_000u32 {
        let frequency = (next(&mut state) >> (next(&mut state) % 64)).max(1);
        assert_eq!(
            f64::from_bits(precision_nanoseconds(frequency)) as u64,
            1_000_000_000 / frequency,
            "at {} ticks per second",
            frequency
        );
    }
}
