//! Messages between client and server.

use vstd::prelude::*;

use super::types::{
    BatchHeader, BlobChunk, EdgeData, EntityData, GetBlob, GetEdges, GetEntity, IndexQuery,
    ServerStats, Traverse,
};

verus! {

#[derive(Clone, Debug, PartialEq)]
pub enum ClientMessage {
    GetEntity(GetEntity),
    GetEdges(GetEdges),
    Traverse(Traverse),
    Search(IndexQuery),
    GetBlob(GetBlob),
}

#[derive(Clone, Debug, PartialEq)]
pub enum ServerMessage {
    Hello { stats: ServerStats },
    Entity(EntityData),
    Edge(EdgeData),
    Batch(BatchHeader),
    BlobChunk(BlobChunk),
    Done { query_id: u32 },
    Error { query_id: u32, message: String },
}

#[derive(Clone, Debug, PartialEq, Eq)]
pub enum WireError {
    Encode(String),
    Decode(String),
}

} // verus!
