//! The frequency of the counter, estimated from the ticks it made over a
//! wall-clock window of known length.
//!
//! The estimate is ticks divided by seconds, computed as double-precision
//! arithmetic computes it and then cut to a whole number: the tick count, the
//! whole seconds of the window and its fraction of a second are each taken to
//! the nearest number of the format, and so are the sum of the seconds and the
//! quotient.
use std::time::Duration;
use vstd::arithmetic::div_mod::{lemma_basic_div, lemma_fundamental_div_mod};
use vstd::arithmetic::power2::lemma_pow2_pos;
use vstd::prelude::*;

verus! {

use crate::binary64::arithmetic::Double;
use crate::binary64::laws::{
    lemma_nearest_normal, lemma_nearest_scaled, lemma_quotient_by_one, lemma_sum_commutes,
    lemma_whole_number, lemma_whole_part_kept,
};
use crate::binary64::model::{below, nearest, quotient, sum, truncated, Dyadic, MANTISSA_BOUND};
use crate::duration::{subsecond_nanos, whole_seconds};
use crate::tick_counter::ticks_between;

/// How a frequency came to be known.
pub enum TickCounterFrequencyBase {
    /// Known beforehand, from the processor's data sheet.
    Hardware,
    /// Measured against the wall clock over a window of the given length.
    Measured(Duration),
}

/// The nanoseconds of one second.
pub const NANOS_PER_SECOND: u64 = 1_000_000_000;

/// The length, in seconds, of the window over which `frequency` expects its
/// two readings to lie apart.
pub const MEASURE_SECONDS: u64 = 1;

/// The length in seconds of a window of `secs` whole seconds and `nanos`
/// nanoseconds, at double precision: the whole seconds, the nanoseconds
/// divided by those of one second, and their sum. `None` stands for a window
/// of no length.
pub open spec fn window_seconds(secs: nat, nanos: nat) -> Option<Dyadic> {
    if nanos == 0 {
        if secs == 0 {
            None
        } else {
            Some(nearest(secs, 1))
        }
    } else if secs == 0 {
        Some(nearest(nanos, NANOS_PER_SECOND as nat))
    } else {
        Some(sum(nearest(secs, 1), nearest(nanos, NANOS_PER_SECOND as nat)))
    }
}

/// The frequency of a counter that made `ticks` ticks over a window of `secs`
/// whole seconds and `nanos` nanoseconds: the whole part of ticks divided by
/// seconds at double precision, and no more than `u64::MAX`. No ticks give
/// zero whatever the window; some ticks over no time give `u64::MAX`.
pub open spec fn ticks_per_second(ticks: nat, secs: nat, nanos: nat) -> nat {
    if ticks == 0 {
        0
    } else {
        match window_seconds(secs, nanos) {
            None => u64::MAX as nat,
            Some(window) => truncated(quotient(nearest(ticks, 1), window)),
        }
    }
}

/// The length of a window in seconds, at double precision.
fn seconds_of(secs: u64, nanos: u32) -> (seconds: Option<Double>)
    ensures
        match seconds {
            Some(window) => window_seconds(secs as nat, nanos as nat) == Some(window@)
                && window@.normal() && -120 <= window.exponent <= 20,
            None => window_seconds(secs as nat, nanos as nat).is_none(),
        },
{
    if nanos == 0 {
        if secs == 0 {
            None
        } else {
            Some(Double::nearest(secs, 1))
        }
    } else {
        let fraction = Double::nearest(nanos as u64, NANOS_PER_SECOND);
        if secs == 0 {
            Some(fraction)
        } else {
            let whole = Double::nearest(secs, 1);
            // the one of the greater exponent first; with less than a second of
            // nanoseconds that is the whole seconds
            if whole.exponent >= fraction.exponent {
                Some(whole.plus(&fraction))
            } else {
                proof {
                    lemma_sum_commutes(whole@, fraction@);
                }
                Some(fraction.plus(&whole))
            }
        }
    }
}

/// Over a window of whole seconds, a count that with the seconds comes to no
/// more than 2^53 is divided as whole numbers are: nothing is lost to rounding.
pub proof fn lemma_whole_seconds(ticks: nat, secs: nat)
    requires
        secs > 0,
        ticks + secs <= MANTISSA_BOUND,
    ensures
        ticks_per_second(ticks, secs, 0) == ticks / secs,
{
    if ticks > 0 {
        let count = nearest(ticks, 1);
        let window = nearest(secs, 1);
        lemma_whole_number(ticks);
        lemma_whole_number(secs);
        let a = count.numerator() * window.denominator();
        let b = count.denominator() * window.numerator();
        let common = count.denominator() * window.denominator();
        lemma_pow2_pos(below(count.exponent));
        lemma_pow2_pos(below(window.exponent));
        assert(a == ticks * common && b == secs * common && common > 0) by (nonlinear_arith)
            requires
                a == count.numerator() * window.denominator(),
                b == count.denominator() * window.numerator(),
                common == count.denominator() * window.denominator(),
                count.numerator() == ticks * count.denominator(),
                window.numerator() == secs * window.denominator(),
                count.denominator() > 0,
                window.denominator() > 0,
        ;
        lemma_nearest_scaled(ticks, secs, common);
        lemma_fundamental_div_mod(ticks as int, secs as int);
        assert((ticks / secs + 1) * secs <= MANTISSA_BOUND) by (nonlinear_arith)
            requires
                ticks == secs * (ticks / secs) + ticks % secs,
                ticks % secs >= 0,
                ticks + secs <= MANTISSA_BOUND,
        ;
        lemma_whole_part_kept(ticks, secs);
    } else {
        lemma_basic_div(ticks as int, secs as int);
    }
}

/// The frequency of a counter that went from the reading `counter_start` to
/// the reading `counter_stop` while `measure_duration` passed on the wall
/// clock.
///
/// The ticks are counted modulo 2^64. Equal readings give zero whatever the
/// window; different readings over a window of no length give `u64::MAX`.
/// Over whole seconds, counts that with the seconds come to no more than 2^53
/// are divided without loss.
pub fn x86_64_measure_frequency(
    measure_duration: &Duration,
    counter_start: u64,
    counter_stop: u64,
) -> (frequency: u64)
    ensures
        frequency == ticks_per_second(
            ticks_between(counter_start, counter_stop),
            whole_seconds(*measure_duration) as nat,
            subsecond_nanos(*measure_duration) as nat,
        ),
        whole_seconds(*measure_duration) > 0 && subsecond_nanos(*measure_duration) == 0
            && ticks_between(counter_start, counter_stop) + whole_seconds(*measure_duration)
            <= MANTISSA_BOUND ==> frequency == ticks_between(counter_start, counter_stop)
            / whole_seconds(*measure_duration) as nat,
{
    let ticks = counter_stop.wrapping_sub(counter_start);
    let secs = measure_duration.as_secs();
    let nanos = measure_duration.subsec_nanos();
    proof {
        if secs > 0 && nanos == 0 && ticks + secs <= MANTISSA_BOUND {
            lemma_whole_seconds(ticks as nat, secs as nat);
        }
    }
    if ticks == 0 {
        return 0;
    }
    match seconds_of(secs, nanos) {
        None => u64::MAX,
        Some(window) => {
            let count = Double::nearest(ticks, 1);
            let rate = count.divided_by(&window);
            rate.whole_part()
        },
    }
}

/// Over a window of one second the estimate is the tick count itself, as
/// double precision holds it: a count below 2^53 unchanged, and no count but
/// zero as zero.
pub proof fn lemma_one_second(ticks: nat)
    ensures
        ticks > 0 ==> ticks_per_second(ticks, 1, 0) == truncated(nearest(ticks, 1)),
        ticks < MANTISSA_BOUND ==> ticks_per_second(ticks, 1, 0) == ticks,
        ticks_per_second(ticks, 1, 0) > 0 <==> ticks > 0,
{
    if ticks > 0 {
        lemma_nearest_normal(ticks, 1);
        lemma_quotient_by_one(nearest(ticks, 1));
        lemma_whole_number(ticks);
    }
}

/// The frequency of a counter that went from the reading `counter_start` to
/// the reading `counter_stop` while `MEASURE_SECONDS` passed on the wall
/// clock, together with the note that it was measured, and over which window.
///
/// Over that window the estimate is the tick count: below 2^53 exactly, above
/// it to 53 significant bits.
pub fn frequency(counter_start: u64, counter_stop: u64) -> (estimate: (
    u64,
    TickCounterFrequencyBase,
))
    ensures
        estimate.0 == ticks_per_second(
            ticks_between(counter_start, counter_stop),
            MEASURE_SECONDS as nat,
            0,
        ),
        ticks_between(counter_start, counter_stop) < MANTISSA_BOUND ==> estimate.0
            == ticks_between(counter_start, counter_stop),
        estimate.0 > 0 <==> counter_stop != counter_start,
        estimate.1 matches TickCounterFrequencyBase::Measured(window) && whole_seconds(window)
            == MEASURE_SECONDS && subsecond_nanos(window) == 0,
{
    let measure_duration = Duration::from_secs(MEASURE_SECONDS);
    let frequency = x86_64_measure_frequency(&measure_duration, counter_start, counter_stop);
    proof {
        lemma_one_second(ticks_between(counter_start, counter_stop));
    }
    (frequency, TickCounterFrequencyBase::Measured(measure_duration))
}

} // verus!
