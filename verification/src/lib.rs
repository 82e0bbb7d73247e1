//! Parallel chunked aggregation of `key;value` records: a byte buffer is
//! split into record-aligned ranges, each range is scanned into per-key
//! fixed-point statistics through a shared key interner, and the per-range
//! results are merged into one table indexed by key identifier.

pub mod accum;
pub mod bytes;
pub mod chunker;
pub mod engine;
pub mod interner;
pub mod merger;
pub mod parser;
pub mod scan;
pub mod stat;
