//! An rsync-style binary delta engine.
//!
//! Given an "old" byte buffer, the engine partitions it into fixed-size
//! chunks and derives a two-level checksum per chunk (the signature's
//! store). Given the store and a "new" byte buffer, it scans the new bytes
//! with a rolling weak hash, confirms candidate matches with a strong
//! hash, and emits a differential record of matched and unmatched regions.

pub mod ad32_helper;
pub mod app_error;
pub mod chunk_iter;
pub mod chunk_processor;
pub mod laws;
pub mod sha3_helper;
pub mod types;
pub mod weak_index;

pub use chunk_processor::calculate_delta;
pub use chunk_processor::produce_delta;
