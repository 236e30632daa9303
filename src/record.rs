//! The persisted unit: a vector record.
use vstd::prelude::*;
use std::collections::HashMap;

verus! {

/// A stored embedding with its identity and tags.
///
/// `data` holds the embedding's components as `f32` bit patterns.
#[derive(Debug, Clone)]
pub struct Vector {
    pub id: String,
    pub data: Vec<u32>,
    pub metadata: Option<HashMap<String, String>>,
    pub collection: Option<String>,
    pub created_at: u64,
}

/// Relies on uuid's `Uuid::new_v4` and its `Display`, which writes the
/// hyphenated form: 32 hex digits and four hyphens.
#[verifier::external_body]
fn fresh_id() -> (r: String)
    ensures
        r@.len() == 36,
{
    uuid::Uuid::new_v4().to_string()
}

/// Relies on `SystemTime::elapsed` of `UNIX_EPOCH`: the time since the
/// epoch, in whole seconds; a clock set before the epoch reads as zero.
#[verifier::external_body]
fn now_secs() -> (r: u64) {
    std::time::UNIX_EPOCH.elapsed().map(|d| d.as_secs()).unwrap_or(0)
}

impl Vector {
    /// A record with a freshly generated id, no metadata and no collection.
    pub fn new(data: Vec<u32>) -> (r: Vector)
        ensures
            r.id@.len() == 36,
            r.data@ == data@,
            r.metadata is None,
            r.collection is None,
    {
        Vector {
            id: fresh_id(),
            data,
            metadata: None,
            collection: None,
            created_at: now_secs(),
        }
    }

    /// A record with the caller's id, no metadata and no collection.
    pub fn with_id(id: String, data: Vec<u32>) -> (r: Vector)
        ensures
            r.id@ == id@,
            r.data@ == data@,
            r.metadata is None,
            r.collection is None,
    {
        Vector { id, data, metadata: None, collection: None, created_at: now_secs() }
    }

    /// The same record with `metadata` attached.
    pub fn with_metadata(self, metadata: HashMap<String, String>) -> (r: Vector)
        ensures
            r == (Vector { metadata: Some(metadata), ..self }),
    {
        Vector { metadata: Some(metadata), ..self }
    }

    /// The same record tagged with `collection`.
    pub fn with_collection(self, collection: String) -> (r: Vector)
        ensures
            r == (Vector { collection: Some(collection), ..self }),
    {
        Vector { collection: Some(collection), ..self }
    }

    /// The embedding's length.
    pub fn dimensions(&self) -> (r: usize)
        ensures
            r == self.data@.len(),
    {
        self.data.len()
    }
}

} // verus!
