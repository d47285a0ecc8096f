//! Session metadata rows for the external relational store.

use vstd::prelude::*;
use vstd::string::*;

verus! {

/// One recording session's metadata row: identifiers, title, aggregate
/// length and size, creation time text, and an optional cover reference.
#[derive(Debug)]
pub struct RecordRow {
    pub live_id: u64,
    pub room_id: u64,
    pub title: String,
    pub length: i64,
    pub size: i64,
    pub created_at: String,
    pub cover: Option<String>,
}

impl RecordRow {
    /// A fresh session row: aggregates start at zero and grow only when the
    /// session is updated.
    pub fn new(
        live_id: u64,
        room_id: u64,
        title: &str,
        cover: Option<String>,
        created_at: String,
    ) -> (r: RecordRow)
        ensures
            r.live_id == live_id,
            r.room_id == room_id,
            r.title@ == title@,
            r.length == 0,
            r.size == 0,
            r.created_at == created_at,
            r.cover == cover,
    {
        RecordRow {
            live_id,
            room_id,
            title: String::from_str(title),
            length: 0,
            size: 0,
            created_at,
            cover,
        }
    }
}

impl Clone for RecordRow {
    fn clone(&self) -> (r: Self)
        ensures
            r == *self,
    {
        RecordRow {
            live_id: self.live_id,
            room_id: self.room_id,
            title: self.title.clone(),
            length: self.length,
            size: self.size,
            created_at: self.created_at.clone(),
            cover: match &self.cover {
                Some(c) => Some(c.clone()),
                None => None,
            },
        }
    }
}

} // verus!
