//! What answers say of the rows and results behind them.

use vstd::prelude::*;

use super::dispatch::{
    gives_edges, is_chunk, is_entity_id, is_error, names, refers_to, row_value, says_rows,
    value_view, BlobReader,
};
use super::pipeline::{says, EdgeView};
use super::rows::{BlobRow, PropertyRow};
use crate::proto::messages::ServerMessage;
use crate::proto::payload::bytes_seq;
use crate::proto::types::{BlobChunk, BlobRef, EdgeData, Property, PropertyType, Value};

verus! {

/// Whether a row stores a value: the number of its kind, and the value in the
/// column for it. Booleans are stored as 1 and 0, blobs as their hashes.
pub open spec fn stores(row: PropertyRow, v: Value) -> bool {
    match v {
        Value::Int(i) => row.value_type == 1 && row.value_int == Some(i),
        Value::Float(x) => row.value_type == 2 && row.value_float == Some(x),
        Value::Text(s) => row.value_type == 3 && (row.value_text matches Some(t) && t@ == s@),
        Value::Bool(b) => row.value_type == 4 && row.value_int == Some(
            if b {
                1i64
            } else {
                0i64
            },
        ),
        Value::Blob(b) => row.value_type == 5 && b.size_bytes == 0 && row.value_int == Some(
            b.hash as i64,
        ),
    }
}

/// A row reads back as the value that it stores.
pub proof fn law_stored_value_reads_back(row: PropertyRow, v: Value, r: Value)
    requires
        stores(row, v),
        value_view(r) == row_value(row),
    ensures
        match v {
            Value::Int(i) => r == Value::Int(i),
            Value::Float(x) => r == Value::Float(x),
            Value::Text(s) => r matches Value::Text(t) && t@ == s@,
            Value::Bool(b) => r == Value::Bool(b),
            Value::Blob(b) => r == Value::Blob(b),
        },
{
    if let Value::Blob(b) = v {
        let hash = b.hash;
        assert((hash as i64) as u64 == hash) by (bit_vector);
        assert(b =~= BlobRef { hash, size_bytes: 0 });
    }
}

/// A row of a kind has a value of that kind, whatever is stored in it. A boolean
/// is true exactly if a number other than 0 is stored. Where the column of the
/// kind is empty, the value is 0, false or the empty text.
pub proof fn law_row_has_its_kind(row: PropertyRow, r: Value)
    requires
        value_view(r) == row_value(row),
    ensures
        row.value_type == 1 ==> (r matches Value::Int(i) && match row.value_int {
            Some(n) => i == n,
            None => i == 0,
        }),
        row.value_type == 2 ==> (r matches Value::Float(x) && match row.value_float {
            Some(y) => x == y,
            None => x.bits == 0,
        }),
        row.value_type == 3 ==> (r matches Value::Text(s) && match row.value_text {
            Some(t) => s@ == t@,
            None => s@.len() == 0,
        }),
        row.value_type == 4 ==> (r matches Value::Bool(b) && match row.value_int {
            Some(n) => b == (n != 0),
            None => !b,
        }),
        row.value_type == 5 ==> (r matches Value::Blob(b) && b.size_bytes == 0
            && match row.value_int {
            Some(n) => b.hash == if n >= 0 {
                n as int
            } else {
                n + 0x1_0000_0000_0000_0000
            },
            None => b.hash == 0,
        }),
        row.value_type == 0 || row.value_type > 5 ==> (r matches Value::Text(s) && s@.len() == 0),
{
    if row.value_type == 5 && row.value_int is Some {
        let n = row.value_int->0;
        if n >= 0 {
            assert((n as u64) == n) by (bit_vector)
                requires
                    n >= 0,
            ;
        } else {
            assert((n as u64) == n + 0x1_0000_0000_0000_0000) by (bit_vector)
                requires
                    n < 0,
            ;
        }
    }
}

/// The kinds are numbered from 1 on without a gap, in the order in which the rows
/// number them.
pub proof fn law_kinds_are_numbered_in_order(row: PropertyRow, r: Value)
    requires
        value_view(r) == row_value(row),
    ensures
        row.value_type == PropertyType::Int.code() <==> r is Int,
        row.value_type == PropertyType::Float.code() <==> r is Float,
        row.value_type == PropertyType::Bool.code() <==> r is Bool,
        row.value_type == PropertyType::Blob.code() <==> r is Blob,
        row.value_type == PropertyType::Text.code() ==> r is Text,
        PropertyType::Int.code() == 1,
        PropertyType::Float.code() == PropertyType::Int.code() + 1,
        PropertyType::Text.code() == PropertyType::Float.code() + 1,
        PropertyType::Bool.code() == PropertyType::Text.code() + 1,
        PropertyType::Blob.code() == PropertyType::Bool.code() + 1,
{
}

/// The properties of an answer are the rows, one for one and in their order:
/// each has its row's key and reads back what its row stores.
pub proof fn law_properties_are_rows(
    properties: Seq<Property>,
    rows: Seq<PropertyRow>,
    k: int,
    v: Value,
)
    requires
        says_rows(properties, rows),
    ensures
        properties.len() == rows.len(),
        0 <= k < rows.len() ==> properties[k].key@ == rows[k].key@,
        0 <= k < rows.len() && stores(rows[k], v) ==> match v {
            Value::Int(i) => properties[k].value == Value::Int(i),
            Value::Float(x) => properties[k].value == Value::Float(x),
            Value::Text(s) => properties[k].value matches Value::Text(t) && t@ == s@,
            Value::Bool(b) => properties[k].value == Value::Bool(b),
            Value::Blob(b) => properties[k].value == Value::Blob(b),
        },
{
    if 0 <= k < rows.len() {
        assert(properties[k].key@ == rows[k].key@);
        if stores(rows[k], v) {
            law_stored_value_reads_back(rows[k], v, properties[k].value);
        }
    }
}

/// The blob references of an answer are the rows, one for one and in their
/// order, with key, hash and size.
pub proof fn law_references_are_rows(refs: Seq<(String, BlobRef)>, rows: Seq<BlobRow>, k: int)
    requires
        refers_to(refs, rows),
    ensures
        refs.len() == rows.len(),
        0 <= k < rows.len() ==> refs[k].0@ == rows[k].key@ && refs[k].1.hash == rows[k].hash
            && refs[k].1.size_bytes == rows[k].size_bytes,
{
    if 0 <= k < rows.len() {
        assert(refs[k].0@ == rows[k].key@);
    }
}

/// A message that reports an error carries the number of its request and the
/// text.
pub proof fn law_error_answers_request(m: ServerMessage, query_id: u32, text: Seq<char>)
    requires
        is_error(m, query_id, text),
    ensures
        m is Error,
        m->Error_query_id == query_id,
        m->Error_message@ == text,
{
}

/// Messages that name entities do so one for one and in their order, without
/// properties and blobs.
pub proof fn law_messages_name_entities(messages: Seq<ServerMessage>, ids: Seq<u64>, k: int)
    requires
        names(messages, ids),
    ensures
        messages.len() == ids.len(),
        0 <= k < ids.len() ==> (messages[k] matches ServerMessage::Entity(e) && e.id == ids[k]
            && e.properties@.len() == 0 && e.blob_refs@.len() == 0),
{
    if 0 <= k < ids.len() {
        let m = messages[k];
        assert(is_entity_id(m, ids[k]));
    }
}

/// The messages that answer a request for edges are the list of edges, one for
/// one and in its order.
pub proof fn law_messages_give_edges(
    messages: Seq<ServerMessage>,
    list: Seq<EdgeData>,
    expected: Seq<EdgeView>,
    k: int,
)
    requires
        gives_edges(messages, expected),
        says(list, expected),
    ensures
        messages.len() == list.len(),
        0 <= k < list.len() ==> (messages[k] matches ServerMessage::Edge(e) && e.id == list[k].id
            && e.source == list[k].source && e.target == list[k].target && e.label
            == list[k].label && e.properties@.len() == 0),
{
    if 0 <= k < list.len() {
        assert(messages[k] is Edge);
        let e = list[k];
    }
}

/// A chunk carries the bytes that were read, under the blob's hash and size and
/// at the offset of the reader.
pub proof fn law_chunk_carries_bytes(c: BlobChunk, reader: BlobReader, data: Seq<u8>)
    requires
        is_chunk(c, reader, data),
    ensures
        bytes_seq(c.data) == data,
        c.hash == reader.hash,
        c.offset == reader.offset,
        c.total_size == reader.total,
{
}

/// A reader goes on as long as chunks come and the blob has bytes behind them:
/// it then stands behind the chunk. Otherwise it is done. It always stays at the
/// same blob.
pub proof fn law_reader_stands_behind_chunk(
    before: BlobReader,
    chunk: Option<Seq<u8>>,
    after: BlobReader,
)
    requires
        after == before.after(chunk),
        !before.done,
    ensures
        after.hash == before.hash,
        after.total == before.total,
        after.chunk_size == before.chunk_size,
        chunk is None ==> after.done,
        chunk matches Some(data) ==> (after.done <==> data.len() == 0 || before.offset + data.len()
            >= before.total),
        !after.done ==> after.offset == before.offset + chunk->0.len() && after.offset
            > before.offset && after.offset < after.total,
{
}

} // verus!
