//! Rows of the graph database.

use vstd::prelude::*;

use crate::float::Float64;

verus! {

/// A property of an entity.
#[derive(Clone, Debug, PartialEq)]
pub struct PropertyRow {
    pub entity_id: u64,
    pub key: String,
    pub value_type: u8,
    pub value_int: Option<i64>,
    pub value_float: Option<Float64>,
    pub value_text: Option<String>,
}

/// Description of a blob; its data is loaded separately.
#[derive(Clone, Debug, PartialEq)]
pub struct BlobRow {
    pub entity_id: u64,
    pub key: String,
    pub hash: u64,
    pub mime: String,
    pub size_bytes: u64,
}

/// A directed edge between two entities, by their rowids.
#[derive(Clone, Copy, Debug, PartialEq, Eq, Structural)]
pub struct EdgeRow {
    pub id: u64,
    pub source_entity: u64,
    pub target_entity: u64,
    pub label: u32,
}

/// Row counts and blob volume of a database.
#[derive(Clone, Debug, PartialEq)]
pub struct GraphStats {
    pub entities: u64,
    pub edges: u64,
    pub blobs: u64,
    pub blob_bytes: u64,
}

} // verus!
