//! What the library takes from `std::time::Duration`: making a duration of
//! whole seconds, and reading the two parts that a duration holds. Verus knows
//! the type and nothing of its functions, so their contracts stand here,
//! unproved.
use std::time::Duration;
use vstd::prelude::*;

verus! {

/// The whole seconds that a duration holds, as `Duration::as_secs` reads them.
pub uninterp spec fn whole_seconds(duration: Duration) -> u64;

/// The part of a duration below one second, in nanoseconds, as
/// `Duration::subsec_nanos` reads it.
pub uninterp spec fn subsecond_nanos(duration: Duration) -> u32;

/// `Duration::from_secs` makes a duration of the given number of whole seconds
/// and nothing beyond them.
pub assume_specification[ Duration::from_secs ](secs: u64) -> (duration: Duration)
    ensures
        whole_seconds(duration) == secs,
        subsecond_nanos(duration) == 0,
;

/// `Duration::as_secs` reads the whole seconds of a duration.
pub assume_specification[ Duration::as_secs ](duration: &Duration) -> (secs: u64)
    ensures
        secs == whole_seconds(*duration),
;

/// `Duration::subsec_nanos` reads what a duration holds beyond its whole
/// seconds, in nanoseconds.
pub assume_specification[ Duration::subsec_nanos ](duration: &Duration) -> (nanos: u32)
    ensures
        nanos == subsecond_nanos(*duration),
;

} // verus!
