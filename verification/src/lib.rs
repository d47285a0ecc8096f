//! Segment-tracking core of a live-stream recording pipeline: an append-only
//! segment log, its in-memory index, and deterministic HLS manifest synthesis.

pub mod digits;
pub mod entry;
pub mod time;
pub mod store;
pub mod record;
pub mod subtitle;

use vstd::prelude::*;

verus! {

/// An inclusive time-offset window, in whole seconds from the first stored
/// entry, used to extract a sub-manifest (e.g. for clip export).
#[derive(Debug, Clone, Copy)]
pub struct Range {
    pub x: i64,
    pub y: i64,
}

impl Range {
    /// Inclusive-on-both-ends membership test.
    pub fn is_in(&self, v: i64) -> (r: bool)
        ensures
            r == (self.x <= v && v <= self.y),
    {
        v >= self.x && v <= self.y
    }
}

} // verus!
