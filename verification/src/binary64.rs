//! Round-to-nearest arithmetic on positive numbers, as the double-precision
//! format carries it out: every result is the nearest number of 53 significant
//! bits, and of two equally near the one whose last bit is zero.
//!
//! A number of the format is a mantissa from 2^52 up to, not including, 2^53,
//! times a power of two. The numbers met here are far from the least and the
//! greatest that the format holds, so the exponent is left unbounded until a
//! number is stored in its 64 bits.
pub(crate) mod arithmetic;
pub mod laws;
pub mod model;
