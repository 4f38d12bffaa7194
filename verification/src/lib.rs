//! Rewrites Unix epoch timestamps embedded in byte streams as bracketed,
//! human-readable UTC date-times.
//!
//! A run of exactly ten ASCII digits is read as seconds since the epoch, a run
//! of exactly thirteen as milliseconds; every other byte is copied unchanged.
//! The scanner works chunk by chunk: digits at the end of a chunk that may
//! still grow are held back and counted, so that the caller can prepend them
//! to the next chunk.

pub mod digits;
pub mod timestamp;
pub mod model;
pub mod scan;
pub mod stream;

pub use crate::digits::{classify, RunClass};
pub use crate::scan::{
    replace_epoch_timestamps, replace_epoch_timestamps_in_buffer, ReplacementResult,
};
pub use crate::stream::ChunkCarry;
pub use crate::timestamp::format_timestamp;
