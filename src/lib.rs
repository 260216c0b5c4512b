//! Compact binary codec for sequences of 2D points: delta encoding,
//! fixed-point quantization and sign-folding variable-length integers.
//!
//! The library works on quantized deltas, the integers that the coordinate
//! deltas round to at a given number of decimal digits.
pub mod compls;
pub mod varint;

pub use compls::{CompLs, CompLsError, Precision};
pub use varint::{decode_int, encode_int};
