//! Headless data engine of a time-series viewer: min/max decimation, the
//! level-of-detail pyramid, its binary cache format and the small decisions
//! around storage and prefetching.
//!
//! Samples are IEEE-754 single-precision values carried as their bit
//! patterns (`u32`), so every comparison the engine makes is stated and
//! proved over the bits.

#![allow(unused_imports)]

pub mod byte_order;
pub mod float_bits;
pub mod parallel;
pub mod simd;
pub mod seeded;
pub mod text;
pub mod arith;
pub mod wide;
pub mod error;
pub mod pyramid;
pub mod builder;
pub mod cache;
pub mod laws;
pub mod storage;
pub mod prefetch;
