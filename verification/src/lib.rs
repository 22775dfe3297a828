//! Streaming statistical aggregation over text-length distributions.
//!
//! The library computes descriptive statistics (count, min, max, and the
//! exact integer data that determine mean, sample variance and the
//! 25th/50th/75th interpolated percentiles) over the byte lengths of text
//! fields extracted from collections of record files.  All statistics are
//! kept in exact integer or scaled-integer form so that every computation
//! can be specified and verified precisely; converting to floating point
//! (dividing by the count, taking a square root) is left to callers.

pub mod percentile;
pub mod records;
pub mod report;
pub mod running;
pub mod seq_stats;
pub mod sort;
pub mod summary;

use vstd::prelude::*;

verus! {

/// The number of quarters a scaled percentile is divided into: the
/// 25th/50th/75th percentiles are stored multiplied by this factor.
pub const PERCENTILE_SCALE: u64 = 4;

} // verus!
