//! Streaming, bounded-memory equi-depth histogram builder.
//!
//! The builder consumes encoded byte values one at a time, in non-decreasing
//! lexicographic order, and maintains a compact ordered sequence of buckets
//! approximating the cumulative distribution, while tracking the number of
//! distinct values seen and, per bucket, how often the bucket's boundary
//! value repeats at its tail.

pub mod histogram;
pub mod laws;
pub mod model;
pub mod order;
