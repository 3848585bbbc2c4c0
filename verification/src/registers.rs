//! Tick values as the time-stamp instructions deliver them: in two 32-bit
//! registers, the lower half of the count in `eax` and the upper half in `edx`;
//! the instruction that also identifies the executing core puts that identifier
//! in `ecx`.
use vstd::prelude::*;

verus! {

/// The tick value whose upper 32 bits are `high` and whose lower 32 bits are `low`.
pub open spec fn tick_from_halves(high: u32, low: u32) -> nat {
    high as nat * 0x1_0000_0000 + low as nat
}

/// The tick value that a plain counter read left in `eax` and `edx`.
#[inline(always)]
pub fn x86_64_tick_counter(reg_eax: u32, reg_edx: u32) -> (tick: u64)
    ensures
        tick == tick_from_halves(reg_edx, reg_eax),
{
    let high: u64 = reg_edx as u64;
    let low: u64 = reg_eax as u64;
    assert((high << 32 | low) == high * 0x1_0000_0000 + low) by (bit_vector)
        requires
            high <= 0xffff_ffff,
            low <= 0xffff_ffff,
    ;
    high << 32 | low
}

/// The tick value and the core identifier that a core-tagged counter read left
/// in `eax`, `edx` and `ecx`. The identifier is handed on as it is: it has no
/// order, and two readings come from one core exactly if their identifiers are
/// equal.
#[inline(always)]
pub fn x86_64_processor_id(reg_eax: u32, reg_edx: u32, reg_ecx: u32) -> (reading: (u64, u32))
    ensures
        reading.0 == tick_from_halves(reg_edx, reg_eax),
        reading.1 == reg_ecx,
{
    (x86_64_tick_counter(reg_eax, reg_edx), reg_ecx)
}

/// Tick values are ordered as their register pairs are: by the upper halves,
/// and by the lower halves where the upper ones are equal. So a counter that
/// never steps back in its registers never steps back in its tick values, and
/// two tick values are equal only if both registers are.
pub proof fn lemma_tick_order(high_1: u32, low_1: u32, high_2: u32, low_2: u32)
    ensures
        tick_from_halves(high_1, low_1) <= tick_from_halves(high_2, low_2) <==> (high_1 < high_2
            || (high_1 == high_2 && low_1 <= low_2)),
        tick_from_halves(high_1, low_1) == tick_from_halves(high_2, low_2) <==> (high_1 == high_2
            && low_1 == low_2),
{
}

} // verus!
