//! The length of one tick in nanoseconds.
use vstd::arithmetic::div_mod::{lemma_basic_div, lemma_fundamental_div_mod};
use vstd::arithmetic::power2::lemma_pow2_pos;
use vstd::prelude::*;

verus! {

use crate::binary64::arithmetic::Double;
use crate::binary64::laws::{
    lemma_nearest_scaled, lemma_whole_number, lemma_whole_part_kept, lemma_whole_part_none,
};
use crate::binary64::model::{
    below, bit_pattern, nearest, quotient, truncated, Dyadic, INFINITY_BITS, MANTISSA_BOUND,
};
use crate::estimate::NANOS_PER_SECOND;

/// The nanoseconds that one tick lasts at `frequency` ticks per second, for a
/// frequency above zero: the nanoseconds of one second divided by the
/// frequency, at double precision.
pub open spec fn tick_length(frequency: nat) -> Dyadic {
    quotient(nearest(NANOS_PER_SECOND as nat, 1), nearest(frequency, 1))
}

/// The nanoseconds that one tick lasts at `frequency` ticks per second, as the
/// 64 bits of a double-precision number: those of `tick_length`, and those of
/// positive infinity at frequency zero.
pub open spec fn tick_length_bits(frequency: nat) -> nat {
    if frequency == 0 {
        INFINITY_BITS as nat
    } else {
        bit_pattern(tick_length(frequency))
    }
}

/// The nanoseconds that one tick lasts at `frequency` ticks per second.
///
/// The result is a double-precision number, handed out as its 64 bits: what
/// `f64::from_bits` takes. It is not rounded to whole nanoseconds. At
/// frequency zero it is positive infinity.
pub fn precision_nanoseconds(frequency: u64) -> (bits: u64)
    ensures
        bits == tick_length_bits(frequency as nat),
        frequency == 0 <==> bits == INFINITY_BITS,
{
    if frequency == 0 {
        return INFINITY_BITS;
    }
    let second = Double::nearest(NANOS_PER_SECOND, 1);
    let ticks = Double::nearest(frequency, 1);
    let length = second.divided_by(&ticks);
    length.to_bits()
}

/// The whole nanoseconds of a tick are those of one second divided by the
/// frequency, as whole numbers divide: rounding never carries the tick length
/// to the next whole nanosecond.
pub proof fn lemma_whole_nanoseconds(frequency: nat)
    requires
        frequency > 0,
    ensures
        truncated(tick_length(frequency)) == NANOS_PER_SECOND as nat / frequency,
{
    let second = nearest(NANOS_PER_SECOND as nat, 1);
    let ticks = nearest(frequency, 1);
    lemma_whole_number(NANOS_PER_SECOND as nat);
    lemma_whole_number(frequency);
    let a = second.numerator() * ticks.denominator();
    let b = second.denominator() * ticks.numerator();
    lemma_pow2_pos(below(second.exponent));
    lemma_pow2_pos(below(ticks.exponent));
    if frequency < MANTISSA_BOUND {
        let common = second.denominator() * ticks.denominator();
        assert(a == NANOS_PER_SECOND * common && b == frequency * common && common > 0)
            by (nonlinear_arith)
            requires
                a == second.numerator() * ticks.denominator(),
                b == second.denominator() * ticks.numerator(),
                common == second.denominator() * ticks.denominator(),
                second.numerator() == NANOS_PER_SECOND * second.denominator(),
                ticks.numerator() == frequency * ticks.denominator(),
                second.denominator() > 0,
                ticks.denominator() > 0,
        ;
        lemma_nearest_scaled(NANOS_PER_SECOND as nat, frequency, common);
        if frequency <= MANTISSA_BOUND - NANOS_PER_SECOND {
            lemma_fundamental_div_mod(
                NANOS_PER_SECOND as int,
                frequency as int,
            );
            assert((NANOS_PER_SECOND as nat / frequency + 1) * frequency <= MANTISSA_BOUND)
                by (nonlinear_arith)
                requires
                    NANOS_PER_SECOND == frequency * (NANOS_PER_SECOND as nat / frequency)
                        + NANOS_PER_SECOND as nat % frequency,
                    NANOS_PER_SECOND as nat % frequency >= 0,
                    frequency <= MANTISSA_BOUND - NANOS_PER_SECOND,
            ;
            lemma_whole_part_kept(NANOS_PER_SECOND as nat, frequency);
        } else {
            lemma_whole_part_none(NANOS_PER_SECOND as nat, frequency);
            lemma_basic_div(NANOS_PER_SECOND as int, frequency as int);
        }
    } else {
        assert(4 * a <= b && a > 0) by (nonlinear_arith)
            requires
                a == second.numerator() * 1,
                b == second.denominator() * ticks.numerator(),
                second.numerator() == NANOS_PER_SECOND * second.denominator(),
                ticks.numerator() >= MANTISSA_BOUND,
                second.denominator() > 0,
        ;
        lemma_whole_part_none(a, b);
        lemma_basic_div(NANOS_PER_SECOND as int, frequency as int);
    }
}

} // verus!
