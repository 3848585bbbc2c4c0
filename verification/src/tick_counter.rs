//! A handle on the start of a measured interval.
use vstd::prelude::*;

verus! {

/// How many ticks a 64-bit counter made from the reading `start` to the reading
/// `stop`: their difference, taken modulo 2^64. Where the counter did not pass
/// its upper limit in between this is `stop - start`.
pub open spec fn ticks_between(start: u64, stop: u64) -> nat {
    if stop >= start {
        (stop - start) as nat
    } else {
        (stop - start + 0x1_0000_0000_0000_0000) as nat
    }
}

/// The reading at which an interval started. It never changes: a new interval
/// takes a new handle.
pub struct TickCounter {
    start: u64,
}

impl TickCounter {
    /// The reading that the handle holds.
    pub closed spec fn start_tick(&self) -> u64 {
        self.start
    }

    /// A handle on the interval that starts at the reading `start`.
    pub fn current(start: u64) -> (counter: Self)
        ensures
            counter.start_tick() == start,
    {
        TickCounter { start }
    }

    /// The ticks from the start of the interval to the reading `stop`. The
    /// handle is left as it was. A reading later than the start, on a counter
    /// that did not pass its upper limit, gives their plain difference, and
    /// only a reading equal to the start gives zero.
    pub fn elapsed(&self, stop: u64) -> (ticks: u64)
        ensures
            ticks == ticks_between(self.start_tick(), stop),
            stop >= self.start_tick() ==> ticks == stop - self.start_tick(),
            ticks > 0 <==> stop != self.start_tick(),
    {
        stop.wrapping_sub(self.start)
    }
}

/// Between an earlier and a later reading lies a positive number of ticks,
/// their plain difference.
pub proof fn lemma_later_reading_is_positive(start: u64, stop: u64)
    requires
        start < stop,
    ensures
        ticks_between(start, stop) == stop - start,
        ticks_between(start, stop) > 0,
{
}

} // verus!
