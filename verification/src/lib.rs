//! Exact counts behind information-theoretic measures of finite byte sequences.
//!
//! Byte histograms, empirical distributions backed by exact counts, and
//! overlapping byte n-grams with their count tables. Every count, total and
//! support size here is an exact integer with a stated contract.

pub mod distribution;
pub mod transforms;
pub mod entropy;
