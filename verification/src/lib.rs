//! Scanning primitives for byte-oriented parsers: a forward cursor over a
//! borrowed buffer, and lane-wise matchers that measure how many leading
//! bytes of a buffer belong to a character class.

pub mod class;
pub mod iter;
pub mod str_simd;
