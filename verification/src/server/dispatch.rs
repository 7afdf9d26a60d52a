//! Answers to requests.

use vstd::prelude::*;
use vstd::string::StringExecFns;

use super::entity_store::EntityStore;
use super::graph_index::{collected, seen_after, visited_after};
use super::pipeline::{at_most, edge_view, edges_of, inside_only, says, EdgeView, Pipeline};
use super::query_ctx::{grown, marks_below, next_generation, QueryContext};
use super::roster::EntityMeta;
use super::rows::{BlobRow, GraphStats, PropertyRow};
use super::spatial_index::live_flags;
use crate::float::{Float32, Float64};
use crate::narrow::{narrow, narrows_to};
use crate::proto::messages::{ClientMessage, ServerMessage};
use crate::proto::payload::{bytes_from_vec, bytes_seq};
use crate::proto::types::{
    BlobChunk, BlobRef, CodecSet, EdgeData, EntityData, GetBlob, GetEdges, GetEntity, IndexQuery,
    Property, PropertyType, ServerStats, Traverse, Value,
};
use crate::text::{decimal, digits, hexadecimal, joined};

verus! {

/// What a value says.
pub enum ValueView {
    Int(i64),
    Float(Float64),
    Text(Seq<char>),
    Bool(bool),
    Blob(BlobRef),
}

pub open spec fn value_view(v: Value) -> ValueView {
    match v {
        Value::Int(i) => ValueView::Int(i),
        Value::Float(x) => ValueView::Float(x),
        Value::Text(s) => ValueView::Text(s@),
        Value::Bool(b) => ValueView::Bool(b),
        Value::Blob(b) => ValueView::Blob(b),
    }
}

/// The number in a row; 0 if there is none.
pub open spec fn row_int(row: PropertyRow) -> i64 {
    match row.value_int {
        Some(i) => i,
        None => 0,
    }
}

/// Value of a property row, by its type number. A row of an unknown type is an
/// empty text.
pub open spec fn row_value(row: PropertyRow) -> ValueView {
    if row.value_type == 1 {
        ValueView::Int(row_int(row))
    } else if row.value_type == 2 {
        ValueView::Float(
            match row.value_float {
                Some(x) => x,
                None => Float64 { bits: 0 },
            },
        )
    } else if row.value_type == 3 {
        ValueView::Text(
            match row.value_text {
                Some(s) => s@,
                None => Seq::empty(),
            },
        )
    } else if row.value_type == 4 {
        ValueView::Bool(row_int(row) != 0)
    } else if row.value_type == 5 {
        ValueView::Blob(BlobRef { hash: row_int(row) as u64, size_bytes: 0 })
    } else {
        ValueView::Text(Seq::empty())
    }
}

/// Value of a property row.
pub fn row_to_value(row: &PropertyRow) -> (r: Value)
    ensures
        value_view(r) == row_value(*row),
{
    let number: i64 = match row.value_int {
        Some(i) => i,
        None => 0,
    };
    match PropertyType::from_u8(row.value_type) {
        Some(PropertyType::Int) => Value::Int(number),
        Some(PropertyType::Float) => Value::Float(
            match row.value_float {
                Some(x) => x,
                None => Float64 { bits: 0 },
            },
        ),
        Some(PropertyType::Text) => {
            let text: String = match &row.value_text {
                Some(s) => s.clone(),
                None => String::new(),
            };
            assert(row.value_text is None ==> text@ =~= Seq::<char>::empty());
            Value::Text(text)
        },
        Some(PropertyType::Bool) => Value::Bool(number != 0),
        Some(PropertyType::Blob) => Value::Blob(BlobRef::new(number as u64, 0)),
        None => {
            let text: String = String::new();
            assert(text@ =~= Seq::<char>::empty());
            Value::Text(text)
        },
    }
}

/// First message of a connection.
pub fn hello(stats: &GraphStats) -> (r: ServerMessage)
    ensures
        r == (ServerMessage::Hello {
            stats: ServerStats {
                entities: stats.entities,
                edges: stats.edges,
                blob_bytes: stats.blob_bytes,
                supported_codecs: CodecSet { bits: 7 },
            },
        }),
{
    ServerMessage::Hello {
        stats: ServerStats {
            entities: stats.entities,
            edges: stats.edges,
            blob_bytes: stats.blob_bytes,
            supported_codecs: CodecSet::all(),
        },
    }
}

/// Whether a message reports an error with the given text.
pub open spec fn is_error(m: ServerMessage, query_id: u32, text: Seq<char>) -> bool {
    m matches ServerMessage::Error { query_id: q, message } && q == query_id && message@ == text
}

/// Message that reports an error.
pub fn error_message(query_id: u32, message: String) -> (r: ServerMessage)
    ensures
        is_error(r, query_id, message@),
{
    ServerMessage::Error { query_id, message }
}

/// Whether a message names an entity and nothing else of it.
pub open spec fn is_entity_id(m: ServerMessage, id: u64) -> bool {
    m matches ServerMessage::Entity(e) && e.id == id && e.properties@.len() == 0
        && e.blob_refs@.len() == 0
}

/// Whether the messages name the entities, one each.
pub open spec fn names(messages: Seq<ServerMessage>, ids: Seq<u64>) -> bool {
    &&& messages.len() == ids.len()
    &&& forall|k: int| 0 <= k < ids.len() ==> is_entity_id(#[trigger] messages[k], ids[k])
}

/// One message for each entity, with nothing but its rowid.
pub fn id_messages(ids: &Vec<u64>) -> (r: Vec<ServerMessage>)
    ensures
        names(r@, ids@),
{
    let mut messages: Vec<ServerMessage> = Vec::with_capacity(ids.len());
    let mut k: usize = 0;
    while k < ids.len()
        invariant
            k <= ids@.len(),
            messages@.len() == k,
            forall|j: int| 0 <= j < k ==> is_entity_id(#[trigger] messages@[j], ids@[j]),
        decreases ids@.len() - k,
    {
        messages.push(
            ServerMessage::Entity(
                EntityData { id: ids[k], properties: Vec::new(), blob_refs: Vec::new() },
            ),
        );
        k = k + 1;
    }
    messages
}

/// What a connection got from its peer.
pub enum Incoming {
    /// Something other than a binary message.
    Other,
    /// A binary message that does not decode, with the decoder's report.
    Undecodable(String),
    /// A request.
    Request(ClientMessage),
}

/// What a connection does next.
pub enum SessionStep {
    /// Answer at once.
    Reply(ServerMessage),
    /// Carry out a request under a number, and then report that it is done.
    Run(u32, ClientMessage),
}

/// Requests of one connection are numbered from 0.
pub struct Session {
    pub next_query: u32,
}

impl Session {
    /// A connection without requests.
    pub fn new() -> (r: Self)
        ensures
            r.next_query == 0,
    {
        Session { next_query: 0 }
    }

    /// Decides what to do with a message. Only requests take a number; the
    /// numbers start over after the last one.
    pub fn on_message(&mut self, incoming: Incoming) -> (r: SessionStep)
        ensures
            match incoming {
                Incoming::Other => {
                    &&& final(self).next_query == old(self).next_query
                    &&& r matches SessionStep::Reply(m) && is_error(
                        m,
                        0,
                        "expected_binary_rkyv_message"@,
                    )
                },
                Incoming::Undecodable(report) => {
                    &&& final(self).next_query == old(self).next_query
                    &&& r matches SessionStep::Reply(m) && is_error(m, 0, "decode: "@ + report@)
                },
                Incoming::Request(message) => {
                    &&& r == SessionStep::Run(old(self).next_query, message)
                    &&& final(self).next_query == if old(self).next_query == u32::MAX {
                        0
                    } else {
                        (old(self).next_query + 1) as u32
                    }
                },
            },
    {
        match incoming {
            Incoming::Other => SessionStep::Reply(
                error_message(0, String::from_str("expected_binary_rkyv_message")),
            ),
            Incoming::Undecodable(report) => SessionStep::Reply(
                error_message(0, joined("decode: ", report.as_str())),
            ),
            Incoming::Request(message) => {
                let query_id: u32 = self.next_query;
                self.next_query = if query_id == u32::MAX {
                    0
                } else {
                    query_id + 1
                };
                SessionStep::Run(query_id, message)
            },
        }
    }
}

/// Message that reports the end of a request.
pub fn done_message(query_id: u32) -> (r: ServerMessage)
    ensures
        r == (ServerMessage::Done { query_id }),
{
    ServerMessage::Done { query_id }
}

/// Text that reports a failure of the worker behind a request.
pub fn panic_text(report: &str) -> (r: String)
    ensures
        r@ == "panic: "@ + report@,
{
    joined("panic: ", report)
}

/// Text that says that an entity is unknown.
pub fn not_found_text(id: u64) -> (r: String)
    ensures
        r@ == "entity not found: "@ + digits(id as nat, 10),
{
    let number: String = decimal(id);
    joined("entity not found: ", number.as_str())
}

/// What a request for an entity does next.
pub enum ExtractStep {
    /// Answer with an error.
    Fail(String),
    /// Look the entity up.
    LoadEntity,
    /// Load what was asked for of its properties and blobs.
    LoadRows { properties: bool, blobs: bool },
}

/// Starts a request for an entity.
pub fn extract_entity(pipeline: &Pipeline, req: &GetEntity) -> (r: ExtractStep)
    ensures
        if pipeline.index.edge_csr.number_of(req.id) is Some {
            r is LoadEntity
        } else {
            r matches ExtractStep::Fail(text) && text@ == "entity not found: "@ + digits(
                req.id as nat,
                10,
            )
        },
{
    match pipeline.find_entity_index(req.id) {
        Some(_) => ExtractStep::LoadEntity,
        None => ExtractStep::Fail(not_found_text(req.id)),
    }
}

/// Goes on with the result of the lookup.
pub fn entity_loaded(req: &GetEntity, lookup: Result<Option<EntityMeta>, String>) -> (r: ExtractStep)
    ensures
        match lookup {
            Err(report) => r matches ExtractStep::Fail(text) && text@ == "load entity: "@
                + report@,
            Ok(None) => r matches ExtractStep::Fail(text) && text@ == "entity slot empty: "@
                + digits(req.id as nat, 10),
            Ok(Some(_)) => r == (ExtractStep::LoadRows {
                properties: req.want_properties,
                blobs: req.want_blobs,
            }),
        },
{
    match lookup {
        Err(report) => ExtractStep::Fail(joined("load entity: ", report.as_str())),
        Ok(None) => {
            let number: String = decimal(req.id);
            ExtractStep::Fail(joined("entity slot empty: ", number.as_str()))
        },
        Ok(Some(_)) => ExtractStep::LoadRows {
            properties: req.want_properties,
            blobs: req.want_blobs,
        },
    }
}

/// Whether the properties are those of the rows.
pub open spec fn says_rows(properties: Seq<Property>, rows: Seq<PropertyRow>) -> bool {
    &&& properties.len() == rows.len()
    &&& forall|k: int|
        0 <= k < rows.len() ==> (#[trigger] properties[k]).key@ == rows[k].key@ && value_view(
            properties[k].value,
        ) == row_value(rows[k])
}

/// Whether the references are those of the rows.
pub open spec fn refers_to(refs: Seq<(String, BlobRef)>, rows: Seq<BlobRow>) -> bool {
    &&& refs.len() == rows.len()
    &&& forall|k: int|
        0 <= k < rows.len() ==> (#[trigger] refs[k]).0@ == rows[k].key@ && refs[k].1 == (BlobRef {
            hash: rows[k].hash,
            size_bytes: rows[k].size_bytes,
        })
}

/// Answers a request for an entity with the rows that were loaded. What was not
/// asked for is left out.
pub fn entity_response(
    req: &GetEntity,
    properties: &Vec<PropertyRow>,
    blobs: &Vec<BlobRow>,
) -> (r: EntityData)
    ensures
        r.id == req.id,
        if req.want_properties {
            says_rows(r.properties@, properties@)
        } else {
            r.properties@.len() == 0
        },
        if req.want_blobs {
            refers_to(r.blob_refs@, blobs@)
        } else {
            r.blob_refs@.len() == 0
        },
{
    let mut values: Vec<Property> = Vec::new();
    if req.want_properties {
        let mut k: usize = 0;
        while k < properties.len()
            invariant
                k <= properties@.len(),
                values@.len() == k,
                forall|j: int|
                    0 <= j < k ==> (#[trigger] values@[j]).key@ == properties@[j].key@
                        && value_view(values@[j].value) == row_value(properties@[j]),
            decreases properties@.len() - k,
        {
            let key: String = properties[k].key.clone();
            let value: Value = row_to_value(&properties[k]);
            values.push(Property { key, value });
            k = k + 1;
        }
    }
    let mut refs: Vec<(String, BlobRef)> = Vec::new();
    if req.want_blobs {
        let mut k: usize = 0;
        while k < blobs.len()
            invariant
                k <= blobs@.len(),
                refs@.len() == k,
                forall|j: int|
                    0 <= j < k ==> (#[trigger] refs@[j]).0@ == blobs@[j].key@ && refs@[j].1 == (
                    BlobRef { hash: blobs@[j].hash, size_bytes: blobs@[j].size_bytes }),
            decreases blobs@.len() - k,
        {
            let key: String = blobs[k].key.clone();
            refs.push((key, BlobRef::new(blobs[k].hash, blobs[k].size_bytes)));
            k = k + 1;
        }
    }
    EntityData { id: req.id, properties: values, blob_refs: refs }
}

/// Answer to a request for an entity.
pub fn dispatch_get_entity(query_id: u32, result: Result<EntityData, String>) -> (r: ServerMessage)
    ensures
        match result {
            Ok(data) => r == ServerMessage::Entity(data),
            Err(text) => is_error(r, query_id, text@),
        },
{
    match result {
        Ok(data) => ServerMessage::Entity(data),
        Err(text) => error_message(query_id, text),
    }
}

/// Whether the messages give the edges, one each.
pub open spec fn gives_edges(messages: Seq<ServerMessage>, expected: Seq<EdgeView>) -> bool {
    &&& messages.len() == expected.len()
    &&& forall|k: int|
        0 <= k < expected.len() ==> ((#[trigger] messages[k]) matches ServerMessage::Edge(e)
            && edge_view(e) == expected[k] && e.properties@.len() == 0)
}

/// Answers to a request for edges: the edges, or an error if there is none and
/// the entity is unknown.
pub fn dispatch_get_edges(pipeline: &Pipeline, query_id: u32, req: &GetEdges) -> (r: Vec<
    ServerMessage,
>)
    requires
        pipeline.wf(),
    ensures
        ({
            let number = pipeline.index.edge_csr.number_of(req.entity_id);
            match number {
                Some(_) => gives_edges(
                    r@,
                    edges_of(
                        pipeline.index.edge_csr,
                        number,
                        req.direction,
                        req.label_filter@,
                        req.limit as int,
                    ),
                ),
                None => r@.len() == 1 && is_error(
                    r@[0],
                    query_id,
                    "entity not found: "@ + digits(req.entity_id as nat, 10),
                ),
            }
        }),
{
    let list: Vec<EdgeData> = pipeline.get_edges(
        req.entity_id,
        req.direction,
        req.label_filter.as_slice(),
        req.limit,
    );
    let empty: bool = list.len() == 0;
    let ghost expected = edges_of(
        pipeline.index.edge_csr,
        pipeline.index.edge_csr.number_of(req.entity_id),
        req.direction,
        req.label_filter@,
        req.limit as int,
    );
    let mut messages: Vec<ServerMessage> = Vec::with_capacity(list.len());
    let mut k: usize = 0;
    while k < list.len()
        invariant
            k <= list@.len(),
            says(list@, expected),
            messages@.len() == k,
            forall|j: int|
                0 <= j < k ==> ((#[trigger] messages@[j]) matches ServerMessage::Edge(e)
                    && edge_view(e) == expected[j] && e.properties@.len() == 0),
        decreases list@.len() - k,
    {
        let edge: &EdgeData = &list[k];
        messages.push(
            ServerMessage::Edge(
                EdgeData {
                    id: edge.id,
                    source: edge.source,
                    target: edge.target,
                    label: edge.label,
                    properties: Vec::new(),
                },
            ),
        );
        k = k + 1;
    }
    if empty && pipeline.find_entity_index(req.entity_id).is_none() {
        messages.push(error_message(query_id, not_found_text(req.entity_id)));
    }
    messages
}

/// Answers to a traversal: the entities within reach, one each.
pub fn dispatch_traverse(pipeline: &Pipeline, ctx: &mut QueryContext, req: &Traverse) -> (r: Vec<
    ServerMessage,
>)
    requires
        pipeline.wf(),
    ensures
        final(ctx).seen_set == old(ctx).seen_set,
        final(ctx).seen_gen == old(ctx).seen_gen,
        final(ctx).bfs_gen == next_generation(old(ctx).bfs_gen),
        final(ctx).bfs_visited@ == visited_after(
            pipeline.index,
            old(ctx).bfs_visited@,
            next_generation(old(ctx).bfs_gen),
            req.start_id,
            req.depth,
            req.edge_labels@,
        ),
        marks_below(old(ctx).bfs_visited@, old(ctx).bfs_gen) && final(ctx).bfs_gen < u32::MAX
            ==> marks_below(final(ctx).bfs_visited@, final(ctx).bfs_gen),
        names(
            r@,
            at_most(
                pipeline.reached(
                    grown(
                        old(ctx).bfs_visited@,
                        pipeline.index.edge_csr.entity_rowids@.len() as int,
                    ),
                    next_generation(old(ctx).bfs_gen),
                    req.start_id,
                    req.depth,
                    req.edge_labels@,
                ),
                req.limit as int,
            ),
        ),
{
    let visited: Vec<u64> = pipeline.traverse_bfs(
        ctx,
        req.start_id,
        req.depth,
        req.edge_labels.as_slice(),
        req.limit,
    );
    id_messages(&visited)
}

/// What a search asks for.
pub enum SearchPlan {
    /// Entities inside bounds.
    Spatial { min_x: Float32, min_y: Float32, max_x: Float32, max_y: Float32, limit: u32 },
    /// Entities that have a property; its value plays no part.
    Property { key: String, limit: u32 },
}

/// What a search asks for; bounds are rounded to single precision.
pub fn dispatch_search(query: IndexQuery) -> (r: SearchPlan)
    ensures
        match query {
            IndexQuery::Spatial { min_x, min_y, max_x, max_y, limit } => {
                r matches SearchPlan::Spatial {
                    min_x: x0,
                    min_y: y0,
                    max_x: x1,
                    max_y: y1,
                    limit: l,
                } && narrows_to(min_x, x0) && narrows_to(min_y, y0) && narrows_to(max_x, x1)
                    && narrows_to(max_y, y1) && l == limit
            },
            IndexQuery::Property { key, value: _, limit } => r == (SearchPlan::Property {
                key,
                limit,
            }),
            IndexQuery::Range { key, min: _, max: _, limit } => r == (SearchPlan::Property {
                key,
                limit,
            }),
        },
{
    match query {
        IndexQuery::Spatial { min_x, min_y, max_x, max_y, limit } => SearchPlan::Spatial {
            min_x: narrow(min_x),
            min_y: narrow(min_y),
            max_x: narrow(max_x),
            max_y: narrow(max_y),
            limit,
        },
        IndexQuery::Property { key, value: _, limit } => SearchPlan::Property { key, limit },
        IndexQuery::Range { key, min: _, max: _, limit } => SearchPlan::Property { key, limit },
    }
}

/// Answers to a spatial search: the loaded entities inside the bounds, one
/// each, at the level of detail of the grid.
pub fn spatial_answers(
    pipeline: &Pipeline,
    ctx: &mut QueryContext,
    entities: &EntityStore,
    min_x: Float32,
    min_y: Float32,
    max_x: Float32,
    max_y: Float32,
    limit: u32,
) -> (r: Vec<ServerMessage>)
    requires
        pipeline.serves(*entities),
    ensures
        final(ctx).bfs_visited == old(ctx).bfs_visited,
        final(ctx).bfs_gen == old(ctx).bfs_gen,
        (final(ctx).seen_set@, final(ctx).seen_gen) == seen_after(
            pipeline.index,
            old(ctx).seen_set@,
            old(ctx).seen_gen,
            min_x,
            min_y,
            max_x,
            max_y,
            match pipeline.index.spatial_index {
                Some(grid) => grid.bits,
                None => 4,
            },
        ),
        marks_below(old(ctx).seen_set@, old(ctx).seen_gen) && final(ctx).seen_gen < u32::MAX
            ==> marks_below(final(ctx).seen_set@, final(ctx).seen_gen),
        names(
            r@,
            at_most(
                inside_only(
                    pipeline.index.edge_csr,
                    entities.roster.metas(),
                    collected(
                        pipeline.index,
                        old(ctx).seen_set@,
                        old(ctx).seen_gen,
                        live_flags(entities.roster.entity_ptrs@),
                        min_x,
                        min_y,
                        max_x,
                        max_y,
                        match pipeline.index.spatial_index {
                            Some(grid) => grid.bits,
                            None => 4,
                        },
                    ),
                    min_x,
                    min_y,
                    max_x,
                    max_y,
                ),
                limit as int,
            ),
        ),
{
    let lod: u16 = pipeline.spatial_lod();
    let results: Vec<u64> = pipeline.search_spatial(
        ctx,
        entities,
        min_x,
        min_y,
        max_x,
        max_y,
        lod,
        limit,
    );
    id_messages(&results)
}

/// Answers to a search for a property: the entities that the database found,
/// one each, or an error.
pub fn property_answers(query_id: u32, result: Result<Vec<u64>, String>) -> (r: Vec<ServerMessage>)
    ensures
        match result {
            Ok(ids) => names(r@, ids@),
            Err(text) => r@.len() == 1 && is_error(r@[0], query_id, text@),
        },
{
    match result {
        Ok(ids) => id_messages(&ids),
        Err(text) => {
            let mut messages: Vec<ServerMessage> = Vec::new();
            messages.push(error_message(query_id, text));
            messages
        },
    }
}

/// Reads a blob chunk by chunk.
pub struct BlobReader {
    pub hash: u64,
    pub offset: u64,
    pub total: u64,
    pub chunk_size: u32,
    pub done: bool,
}

impl BlobReader {
    /// Starts to read a blob that the database was asked for.
    pub fn start(req: &GetBlob, info: Result<Option<BlobRow>, String>) -> (r: Result<Self, String>)
        ensures
            match info {
                Ok(Some(row)) => r == Ok::<BlobReader, String>(
                    BlobReader {
                        hash: req.hash,
                        offset: req.offset,
                        total: row.size_bytes,
                        chunk_size: req.chunk_size,
                        done: false,
                    },
                ),
                Ok(None) => r matches Err(text) && text@ == "blob not found: "@ + digits(
                    req.hash as nat,
                    16,
                ),
                Err(report) => r matches Err(text) && text@ == report@,
            },
    {
        match info {
            Ok(Some(row)) => Ok(
                BlobReader {
                    hash: req.hash,
                    offset: req.offset,
                    total: row.size_bytes,
                    chunk_size: req.chunk_size,
                    done: false,
                },
            ),
            Ok(None) => {
                let number: String = hexadecimal(req.hash);
                Err(joined("blob not found: ", number.as_str()))
            },
            Err(report) => Err(report),
        }
    }

    /// The reader after a chunk. The blob ends where there is no chunk, or an
    /// empty one, or with the chunk that reaches its size.
    pub open spec fn after(self, chunk: Option<Seq<u8>>) -> BlobReader {
        match chunk {
            Some(data) => if data.len() == 0 || self.offset + data.len() >= self.total {
                BlobReader { done: true, ..self }
            } else {
                BlobReader { offset: (self.offset + data.len()) as u64, ..self }
            },
            None => BlobReader { done: true, ..self },
        }
    }

    /// Takes the chunk at the reader's offset, as the database gave it, and
    /// passes it on.
    pub fn take_chunk(&mut self, chunk: Option<Vec<u8>>) -> (r: Option<ServerMessage>)
        requires
            chunk is Some ==> old(self).offset + chunk->0@.len() <= u64::MAX,
        ensures
            *final(self) == old(self).after(
                match chunk {
                    Some(data) => Some(data@),
                    None => None,
                },
            ),
            if chunk is None || chunk->0@.len() == 0 {
                r is None
            } else {
                r matches Some(ServerMessage::BlobChunk(c)) && is_chunk(
                    c,
                    *old(self),
                    chunk->0@,
                )
            },
    {
        match chunk {
            None => {
                self.done = true;
                None
            },
            Some(data) => {
                if data.len() == 0 {
                    self.done = true;
                    return None;
                }
                let len: usize = data.len();
                let offset: u64 = self.offset;
                let end: u64 = offset + len as u64;
                if end >= self.total {
                    self.done = true;
                } else {
                    self.offset = end;
                }
                Some(
                    ServerMessage::BlobChunk(
                        BlobChunk {
                            hash: self.hash,
                            offset,
                            total_size: self.total,
                            data: bytes_from_vec(data),
                        },
                    ),
                )
            },
        }
    }

    /// Bytes that the reader passes on, if the database reads from `content`.
    pub open spec fn passes_on(self, content: Seq<u8>) -> Seq<u8>
        decreases content.len() - self.offset,
    {
        let rest = content.len() - self.offset;
        let len = if rest < self.chunk_size {
            rest
        } else {
            self.chunk_size as int
        };
        if self.done || len <= 0 {
            Seq::empty()
        } else {
            let chunk = content.subrange(self.offset as int, self.offset + len);
            let next = self.after(Some(chunk));
            if next.done {
                chunk
            } else {
                chunk + next.passes_on(content)
            }
        }
    }
}

/// A blob is passed on from the requested offset to its end, without a gap, as
/// long as its recorded size is right.
pub proof fn law_blob_is_passed_on(reader: BlobReader, content: Seq<u8>)
    requires
        !reader.done,
        reader.chunk_size > 0,
        reader.total == content.len(),
        reader.offset <= content.len(),
    ensures
        reader.passes_on(content) == content.skip(reader.offset as int),
    decreases content.len() - reader.offset,
{
    let rest = content.len() - reader.offset;
    let len = if rest < reader.chunk_size {
        rest
    } else {
        reader.chunk_size as int
    };
    if len > 0 {
        let chunk = content.subrange(reader.offset as int, reader.offset + len);
        let next = reader.after(Some(chunk));
        if reader.offset + len < reader.total {
            law_blob_is_passed_on(next, content);
            assert(chunk + content.skip(reader.offset + len) =~= content.skip(
                reader.offset as int,
            ));
        } else {
            assert(chunk =~= content.skip(reader.offset as int));
        }
    } else {
        assert(content.skip(reader.offset as int) =~= Seq::<u8>::empty());
    }
}

/// Whether a chunk carries the bytes at the reader's offset.
pub open spec fn is_chunk(c: BlobChunk, reader: BlobReader, data: Seq<u8>) -> bool {
    &&& c.hash == reader.hash
    &&& c.offset == reader.offset
    &&& c.total_size == reader.total
    &&& bytes_seq(c.data) == data
}

} // verus!
