//! Elapsed-time measurement in ticks of a processor's free-running cycle counter.
//!
//! The crate holds the arithmetic of such measurements: how a tick value is
//! put together from the registers that the time-stamp instructions fill, how
//! many ticks lie between two readings, how a tick count over a known
//! wall-clock window becomes a frequency, and how long one tick lasts at a
//! given frequency. Reading the counter and sleeping are left to the caller,
//! who hands in the readings.
//!
//! Frequency and tick length are what double-precision arithmetic gives. The
//! crate holds no floating-point number: it computes on whole numbers, and
//! `binary64` says what the results are.
pub mod binary64;
pub mod duration;
pub mod estimate;
pub mod precision;
pub mod registers;
pub mod tick_counter;

pub use estimate::{frequency, x86_64_measure_frequency, TickCounterFrequencyBase};
pub use precision::precision_nanoseconds;
pub use registers::{x86_64_processor_id, x86_64_tick_counter};
pub use tick_counter::TickCounter;
