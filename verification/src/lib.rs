//! A log-structured key-value store: append-only segments of length-prefixed
//! binary records, an in-memory index from key to record position, startup
//! recovery by replaying the log, and compaction of sealed segments.
//!
//! Segments are held as in-memory byte images; the caller persists the images
//! returned by [`engine::Database::close`] and hands them back to
//! [`engine::Database::open`].

pub mod assoc;
pub mod compact;
pub mod engine;
pub mod index;
pub mod laws;
pub mod manager;
pub mod model;
pub mod record;
pub mod recovery;
pub mod replay;
pub mod segment;

use vstd::prelude::*;

verus! {

/// Failures surfaced by the storage engine.
#[derive(Clone, Copy, Debug, PartialEq, Eq, Structural)]
pub enum KvError {
    /// The backing log can accept no further segment.
    IoError,
    /// A record's framing is violated: a truncated header, declared lengths
    /// past the end of the data, or an invalid flags byte.
    CorruptRecord,
    /// A segment id that the manager does not hold.
    SegmentNotFound,
}

} // verus!
