//! Values, entities, edges and requests.

use bytes::Bytes;
use vstd::prelude::*;

use super::payload::bytes_seq;
use crate::float::Float64;

verus! {

#[derive(Clone, Debug, PartialEq)]
pub enum Value {
    Int(i64),
    Float(Float64),
    Text(String),
    Bool(bool),
    Blob(BlobRef),
}

/// Kind of a stored property.
#[derive(Clone, Copy, Debug, PartialEq, Eq, Structural)]
pub enum PropertyType {
    Int,
    Float,
    Text,
    Bool,
    Blob,
}

impl PropertyType {
    /// Number under which a kind is stored.
    pub open spec fn code(self) -> u8 {
        match self {
            PropertyType::Int => 1,
            PropertyType::Float => 2,
            PropertyType::Text => 3,
            PropertyType::Bool => 4,
            PropertyType::Blob => 5,
        }
    }

    /// Number under which this kind is stored.
    pub fn to_u8(self) -> (r: u8)
        ensures
            r == self.code(),
    {
        match self {
            PropertyType::Int => 1,
            PropertyType::Float => 2,
            PropertyType::Text => 3,
            PropertyType::Bool => 4,
            PropertyType::Blob => 5,
        }
    }

    /// The kind with the given number.
    pub fn from_u8(v: u8) -> (r: Option<Self>)
        ensures
            r is Some <==> 1 <= v <= 5,
            match r {
                Some(kind) => kind.code() == v,
                None => true,
            },
    {
        match v {
            1 => Some(PropertyType::Int),
            2 => Some(PropertyType::Float),
            3 => Some(PropertyType::Text),
            4 => Some(PropertyType::Bool),
            5 => Some(PropertyType::Blob),
            _ => None,
        }
    }
}

#[derive(Clone, Copy, Debug, PartialEq, Eq, Structural)]
pub struct BlobRef {
    pub hash: u64,
    pub size_bytes: u64,
}

impl BlobRef {
    pub fn new(hash: u64, size_bytes: u64) -> (r: Self)
        ensures
            r.hash == hash,
            r.size_bytes == size_bytes,
    {
        BlobRef { hash, size_bytes }
    }
}

#[derive(Clone, Debug, PartialEq)]
pub struct Property {
    pub key: String,
    pub value: Value,
}

#[derive(Clone, Debug, PartialEq)]
pub struct EntityData {
    pub id: u64,
    pub properties: Vec<Property>,
    pub blob_refs: Vec<(String, BlobRef)>,
}

#[derive(Clone, Debug, PartialEq)]
pub struct EdgeData {
    pub id: u64,
    pub source: u64,
    pub target: u64,
    pub label: u32,
    pub properties: Vec<Property>,
}

#[derive(Clone, Copy, Debug, PartialEq, Eq, Structural)]
pub enum Direction {
    Outgoing,
    Incoming,
    Both,
}

#[derive(Clone, Debug, PartialEq)]
pub struct GetEntity {
    pub id: u64,
    pub want_properties: bool,
    pub want_blobs: bool,
}

#[derive(Clone, Debug, PartialEq)]
pub struct GetEdges {
    pub entity_id: u64,
    pub direction: Direction,
    pub label_filter: Vec<u32>,
    pub limit: u32,
}

#[derive(Clone, Debug, PartialEq)]
pub struct Traverse {
    pub start_id: u64,
    pub depth: u32,
    pub edge_labels: Vec<u32>,
    pub limit: u32,
}

#[derive(Clone, Debug, PartialEq)]
pub enum IndexQuery {
    Property { key: String, value: Value, limit: u32 },
    Range { key: String, min: Value, max: Value, limit: u32 },
    Spatial { min_x: Float64, min_y: Float64, max_x: Float64, max_y: Float64, limit: u32 },
}

#[derive(Clone, Debug, PartialEq)]
pub struct GetBlob {
    pub hash: u64,
    pub offset: u64,
    pub chunk_size: u32,
}

#[derive(Debug, PartialEq)]
pub struct BlobChunk {
    pub hash: u64,
    pub offset: u64,
    pub total_size: u64,
    pub data: Bytes,
}

impl Clone for BlobChunk {
    fn clone(&self) -> (r: Self)
        ensures
            r.hash == self.hash,
            r.offset == self.offset,
            r.total_size == self.total_size,
            bytes_seq(r.data) == bytes_seq(self.data),
    {
        BlobChunk {
            hash: self.hash,
            offset: self.offset,
            total_size: self.total_size,
            data: self.data.clone(),
        }
    }
}

#[derive(Clone, Debug, PartialEq)]
pub struct BatchHeader {
    pub query_id: u32,
    pub entity_count: u16,
    pub flags: u16,
}

#[derive(Clone, Copy, Debug, PartialEq, Eq, Structural)]
pub struct ServerStats {
    pub entities: u64,
    pub edges: u64,
    pub blob_bytes: u64,
    pub supported_codecs: CodecSet,
}

/// Set of payload codecs, one bit each.
#[derive(Clone, Copy, Debug, PartialEq, Eq, Structural)]
pub struct CodecSet {
    pub bits: u16,
}

pub const RAW_BIT: u16 = 1;

pub const QUANTIZED_U16_BIT: u16 = 2;

pub const ZSTD_BIT: u16 = 4;

impl CodecSet {
    /// Uncompressed payloads.
    pub fn raw() -> (r: Self)
        ensures
            r.bits == RAW_BIT,
    {
        CodecSet { bits: RAW_BIT }
    }

    /// Payloads quantized to 16 bits.
    pub fn quantized_u16() -> (r: Self)
        ensures
            r.bits == QUANTIZED_U16_BIT,
    {
        CodecSet { bits: QUANTIZED_U16_BIT }
    }

    /// Payloads compressed with zstd.
    pub fn zstd() -> (r: Self)
        ensures
            r.bits == ZSTD_BIT,
    {
        CodecSet { bits: ZSTD_BIT }
    }

    /// All codecs.
    pub fn all() -> (r: Self)
        ensures
            r.bits == RAW_BIT | QUANTIZED_U16_BIT | ZSTD_BIT,
            r.bits == 7,
    {
        assert(1u16 | 2u16 | 4u16 == 7u16) by (bit_vector);
        CodecSet { bits: RAW_BIT | QUANTIZED_U16_BIT | ZSTD_BIT }
    }

    /// Whether the sets share a codec.
    pub fn contains(self, codec: Self) -> (r: bool)
        ensures
            r == (self.bits & codec.bits != 0),
    {
        self.bits & codec.bits != 0
    }
}

impl Default for CodecSet {
    fn default() -> (r: Self)
        ensures
            r.bits == 7,
    {
        Self::all()
    }
}

/// A kind is recovered from its number.
pub proof fn law_property_type_codes(kind: PropertyType, other: PropertyType)
    ensures
        1 <= kind.code() <= 5,
        kind.code() == other.code() <==> kind == other,
{
}

/// The full set shares a codec with every set that names a known one.
pub proof fn law_all_codecs_contained(set: CodecSet)
    requires
        set.bits & RAW_BIT != 0 || set.bits & QUANTIZED_U16_BIT != 0 || set.bits & ZSTD_BIT != 0,
    ensures
        7u16 & set.bits != 0,
{
    let bits = set.bits;
    assert(bits & 1u16 != 0 || bits & 2u16 != 0 || bits & 4u16 != 0 ==> 7u16 & bits != 0)
        by (bit_vector);
}

} // verus!
