//! The tile batch frame.
//!
//! Layout: header (18 bytes) | one entry per tile (16 bytes each) | payloads.

use bytes::Bytes;
use vstd::prelude::*;

use super::le::{
    law_le16_reads_back, law_le32_reads_back, le16, le32, push_u16, push_u32, read_u16, read_u32,
    u16_at, u32_at,
};
use super::payload::{bytes_seq, bytes_slice};

verus! {

/// 'GDAG'
pub const TILE_FRAME_MAGIC: u32 = 0x47444147;

pub const TILE_FRAME_VERSION: u16 = 1;

pub const TILE_BATCH_HEADER_BYTES: usize = 18;

pub const TILE_ENTRY_BYTES: usize = 16;

/// Packed tile metadata for batch encoding.
#[derive(Clone, Copy, Debug)]
pub struct TileMeta {
    pub tx: u32,
    pub ty: u32,
    pub layer: u8,
    pub codec: u8,
    pub node_count: u32,
    pub edge_count: u32,
}

/// Decoded result from a tile batch frame.
#[derive(Debug)]
pub struct DecodedTile {
    pub tx: u32,
    pub ty: u32,
    pub layer: u8,
    pub codec: u8,
    pub node_count: u32,
    pub edge_count: u32,
    pub payload: Bytes,
}

impl Clone for DecodedTile {
    fn clone(&self) -> (r: Self)
        ensures
            r.view() == self.view(),
    {
        DecodedTile {
            tx: self.tx,
            ty: self.ty,
            layer: self.layer,
            codec: self.codec,
            node_count: self.node_count,
            edge_count: self.edge_count,
            payload: self.payload.clone(),
        }
    }
}

impl DecodedTile {
    /// The tile that was decoded.
    pub open spec fn view(self) -> Tile {
        Tile {
            meta: TileMeta {
                tx: self.tx,
                ty: self.ty,
                layer: self.layer,
                codec: self.codec,
                node_count: self.node_count,
                edge_count: self.edge_count,
            },
            payload: bytes_seq(self.payload),
        }
    }
}

#[derive(Clone, Debug)]
pub struct DecodedTileBatch {
    pub request_id: u32,
    pub lod: u8,
    pub tiles: Vec<DecodedTile>,
}

/// A tile as the frame carries it: metadata and payload bytes.
pub struct Tile {
    pub meta: TileMeta,
    pub payload: Seq<u8>,
}

/// The tiles behind the arguments of `encode_tile_batch`.
pub open spec fn tiles_of(tiles: Seq<(TileMeta, Bytes)>) -> Seq<Tile> {
    tiles.map_values(|t: (TileMeta, Bytes)| Tile { meta: t.0, payload: bytes_seq(t.1) })
}

/// Smallest of a sequence, 0 for none.
pub open spec fn min_or_zero(s: Seq<u32>) -> u32
    decreases s.len(),
{
    if s.len() == 0 {
        0
    } else if s.len() == 1 {
        s[0]
    } else {
        let m = min_or_zero(s.drop_last());
        if s.last() < m {
            s.last()
        } else {
            m
        }
    }
}

pub open spec fn base_tx(tiles: Seq<Tile>) -> u32 {
    min_or_zero(tiles.map_values(|t: Tile| t.meta.tx))
}

pub open spec fn base_ty(tiles: Seq<Tile>) -> u32 {
    min_or_zero(tiles.map_values(|t: Tile| t.meta.ty))
}

/// An unsigned word read as a signed one.
pub open spec fn as_signed(x: u32) -> int {
    if x < 0x8000_0000 {
        x as int
    } else {
        x - 0x1_0000_0000
    }
}

/// Distance of a coordinate from its base, as the frame stores it: a signed
/// byte, cut off at its bounds.
pub open spec fn delta_byte(x: u32, base: u32) -> u8 {
    let d = as_signed(x) - as_signed(base);
    if d >= 127 {
        127
    } else if d >= 0 {
        d as u8
    } else if d >= -128 {
        (d + 256) as u8
    } else {
        128
    }
}

pub open spec fn cap16(x: u32) -> u16 {
    if x > 65535 {
        65535
    } else {
        x as u16
    }
}

/// Payload bytes before tile `k`, by the sizes that the entries state.
pub open spec fn payload_offset(tiles: Seq<Tile>, k: int) -> int
    decreases k,
{
    if k <= 0 {
        0
    } else {
        payload_offset(tiles, k - 1) + (tiles[k - 1].payload.len() % 0x1_0000_0000) as int
    }
}

pub open spec fn header_bytes(request_id: u32, lod: u8, tiles: Seq<Tile>) -> Seq<u8> {
    le32(TILE_FRAME_MAGIC) + le16(TILE_FRAME_VERSION) + le32(request_id) + le16(
        (base_tx(tiles) % 65536) as u16,
    ) + le16((base_ty(tiles) % 65536) as u16) + seq![
        lod,
        if tiles.len() > 255 {
            255u8
        } else {
            tiles.len() as u8
        },
        0u8,
        0u8,
    ]
}

pub open spec fn entry_bytes(tiles: Seq<Tile>, k: int) -> Seq<u8> {
    let t = tiles[k];
    seq![
        delta_byte(t.meta.tx, base_tx(tiles)),
        delta_byte(t.meta.ty, base_ty(tiles)),
        t.meta.layer,
        t.meta.codec,
    ] + le16(cap16(t.meta.node_count)) + le16(cap16(t.meta.edge_count)) + le32(
        payload_offset(tiles, k) as u32,
    ) + le32((t.payload.len() % 0x1_0000_0000) as u32)
}

/// Entries of the first `k` tiles.
pub open spec fn entries_bytes(tiles: Seq<Tile>, k: int) -> Seq<u8>
    decreases k,
{
    if k <= 0 {
        Seq::empty()
    } else {
        entries_bytes(tiles, k - 1) + entry_bytes(tiles, k - 1)
    }
}

/// Payloads of the first `k` tiles.
pub open spec fn payload_bytes(tiles: Seq<Tile>, k: int) -> Seq<u8>
    decreases k,
{
    if k <= 0 {
        Seq::empty()
    } else {
        payload_bytes(tiles, k - 1) + tiles[k - 1].payload
    }
}

/// The frame of a batch.
pub open spec fn frame_bytes(request_id: u32, lod: u8, tiles: Seq<Tile>) -> Seq<u8> {
    header_bytes(request_id, lod, tiles) + entries_bytes(tiles, tiles.len() as int)
        + payload_bytes(tiles, tiles.len() as int)
}

/// Whether the coordinates' distances and the payload offsets stay inside
/// their machine words.
pub open spec fn encodable(tiles: Seq<Tile>) -> bool {
    &&& payload_offset(tiles, tiles.len() as int) <= u32::MAX
    &&& 18 + 16 * tiles.len() + payload_bytes(tiles, tiles.len() as int).len() <= usize::MAX
    &&& forall|k: int|
        0 <= k < tiles.len() ==> {
            &&& i32::MIN <= as_signed((#[trigger] tiles[k]).meta.tx) - as_signed(base_tx(tiles))
                <= i32::MAX
            &&& i32::MIN <= as_signed(tiles[k].meta.ty) - as_signed(base_ty(tiles)) <= i32::MAX
        }
}

fn delta_of(x: u32, base: u32) -> (r: u8)
    requires
        i32::MIN <= as_signed(x) - as_signed(base) <= i32::MAX,
    ensures
        r == delta_byte(x, base),
{
    let a: i64 = if x < 0x8000_0000 {
        x as i64
    } else {
        x as i64 - 0x1_0000_0000
    };
    let b: i64 = if base < 0x8000_0000 {
        base as i64
    } else {
        base as i64 - 0x1_0000_0000
    };
    let d: i64 = a - b;
    if d >= 127 {
        127
    } else if d >= 0 {
        d as u8
    } else if d >= -128 {
        (d + 256) as u8
    } else {
        128
    }
}

fn cap_count(x: u32) -> (r: u16)
    ensures
        r == cap16(x),
{
    if x > 65535 {
        65535
    } else {
        x as u16
    }
}

/// Encodes multiple tiles into a single contiguous binary frame.
pub fn encode_tile_batch(request_id: u32, lod: u8, tiles: &[(TileMeta, Bytes)]) -> (r: Vec<u8>)
    requires
        encodable(tiles_of(tiles@)),
    ensures
        r@ == frame_bytes(request_id, lod, tiles_of(tiles@)),
{
    let ghost ts = tiles_of(tiles@);
    let n: usize = tiles.len();
    let mut base_x: u32 = 0;
    let mut base_y: u32 = 0;
    let mut total: usize = 0;
    let mut i: usize = 0;
    let ghost txs = ts.map_values(|t: Tile| t.meta.tx);
    let ghost tys = ts.map_values(|t: Tile| t.meta.ty);
    assert(payload_bytes(ts, 0).len() == 0);
    while i < n
        invariant
            i <= n,
            n == tiles@.len(),
            ts == tiles_of(tiles@),
            txs == ts.map_values(|t: Tile| t.meta.tx),
            tys == ts.map_values(|t: Tile| t.meta.ty),
            base_x == min_or_zero(txs.take(i as int)),
            base_y == min_or_zero(tys.take(i as int)),
            total == payload_bytes(ts, i as int).len(),
            encodable(ts),
        decreases n - i,
    {
        let meta: TileMeta = tiles[i].0;
        assert(txs.take(i + 1).drop_last() =~= txs.take(i as int));
        assert(tys.take(i + 1).drop_last() =~= tys.take(i as int));
        assert(txs.take(i + 1).last() == meta.tx);
        assert(tys.take(i + 1).last() == meta.ty);
        if i == 0 || meta.tx < base_x {
            base_x = meta.tx;
        }
        if i == 0 || meta.ty < base_y {
            base_y = meta.ty;
        }
        proof {
            lemma_payload_bytes_monotone(ts, i + 1, n as int);
        }
        total = total + bytes_slice(&tiles[i].1).len();
        i += 1;
    }
    assert(txs.take(n as int) =~= txs);
    assert(tys.take(n as int) =~= tys);

    let mut buf: Vec<u8> = Vec::with_capacity(
        TILE_BATCH_HEADER_BYTES + n * TILE_ENTRY_BYTES + total,
    );
    let tile_count: u8 = if n > 255 {
        255
    } else {
        n as u8
    };
    push_u32(&mut buf, TILE_FRAME_MAGIC);
    push_u16(&mut buf, TILE_FRAME_VERSION);
    push_u32(&mut buf, request_id);
    push_u16(&mut buf, (base_x % 65536) as u16);
    push_u16(&mut buf, (base_y % 65536) as u16);
    buf.push(lod);
    buf.push(tile_count);
    buf.push(0);
    buf.push(0);
    let ghost header = header_bytes(request_id, lod, ts);
    assert(buf@ =~= header);

    let mut offset: u32 = 0;
    let mut i: usize = 0;
    assert(buf@ =~= header + entries_bytes(ts, 0));
    while i < n
        invariant
            i <= n,
            n == tiles@.len(),
            ts == tiles_of(tiles@),
            base_x == base_tx(ts),
            base_y == base_ty(ts),
            encodable(ts),
            offset == payload_offset(ts, i as int),
            buf@ == header + entries_bytes(ts, i as int),
        decreases n - i,
    {
        let meta: TileMeta = tiles[i].0;
        let size: u32 = (bytes_slice(&tiles[i].1).len() as u64 % 0x1_0000_0000) as u32;
        assert(ts[i as int].meta == meta);
        buf.push(delta_of(meta.tx, base_x));
        buf.push(delta_of(meta.ty, base_y));
        buf.push(meta.layer);
        buf.push(meta.codec);
        push_u16(&mut buf, cap_count(meta.node_count));
        push_u16(&mut buf, cap_count(meta.edge_count));
        push_u32(&mut buf, offset);
        push_u32(&mut buf, size);
        assert(buf@ =~= header + entries_bytes(ts, i + 1));
        proof {
            lemma_payload_offset_monotone(ts, i + 1, n as int);
        }
        offset = offset + size;
        i += 1;
    }

    let ghost entries = entries_bytes(ts, n as int);
    let mut i: usize = 0;
    assert(buf@ =~= header + entries + payload_bytes(ts, 0));
    while i < n
        invariant
            i <= n,
            n == tiles@.len(),
            ts == tiles_of(tiles@),
            buf@ == header + entries + payload_bytes(ts, i as int),
        decreases n - i,
    {
        buf.extend_from_slice(bytes_slice(&tiles[i].1));
        assert(buf@ =~= header + entries + payload_bytes(ts, i + 1));
        i += 1;
    }
    buf
}

/// Where the payloads start, by the tile count that the header states.
pub open spec fn payloads_start(buf: Seq<u8>) -> int {
    18 + 16 * buf[15]
}

/// Where the payload of tile `k` starts.
pub open spec fn payload_start(buf: Seq<u8>, k: int) -> int {
    payloads_start(buf) + u32_at(buf, 18 + 16 * k + 8)
}

/// Where the payload of tile `k` ends.
pub open spec fn payload_end(buf: Seq<u8>, k: int) -> int {
    payload_start(buf, k) + u32_at(buf, 18 + 16 * k + 12)
}

/// Whether a buffer is a frame: magic, version, all entries, all payloads.
pub open spec fn is_frame(buf: Seq<u8>) -> bool {
    &&& buf.len() >= 18
    &&& u32_at(buf, 0) == TILE_FRAME_MAGIC
    &&& u16_at(buf, 4) == TILE_FRAME_VERSION
    &&& buf.len() >= payloads_start(buf)
    &&& forall|k: int| 0 <= k < buf[15] ==> #[trigger] payload_end(buf, k) <= buf.len()
}

/// A coordinate: the base moved by a signed byte, modulo the word size.
pub open spec fn coordinate(base: u16, delta: u8) -> u32 {
    let x = base + if delta < 128 {
        delta as int
    } else {
        delta - 256
    };
    if x < 0 {
        (x + 0x1_0000_0000) as u32
    } else {
        x as u32
    }
}

/// Tile `k` of a frame.
pub open spec fn frame_tile(buf: Seq<u8>, k: int) -> Tile {
    let off = 18 + 16 * k;
    Tile {
        meta: TileMeta {
            tx: coordinate(u16_at(buf, 10), buf[off]),
            ty: coordinate(u16_at(buf, 12), buf[off + 1]),
            layer: buf[off + 2],
            codec: buf[off + 3],
            node_count: u16_at(buf, off + 4) as u32,
            edge_count: u16_at(buf, off + 6) as u32,
        },
        payload: buf.subrange(payload_start(buf, k), payload_end(buf, k)),
    }
}

fn move_coordinate(base: u16, delta: u8) -> (r: u32)
    ensures
        r == coordinate(base, delta),
{
    let x: i64 = base as i64 + if delta < 128 {
        delta as i64
    } else {
        delta as i64 - 256
    };
    if x < 0 {
        (x + 0x1_0000_0000) as u32
    } else {
        x as u32
    }
}

/// Decodes a tile batch frame. Returns `None` if the buffer is malformed.
pub fn decode_tile_batch(buf: &[u8]) -> (r: Option<DecodedTileBatch>)
    ensures
        r is Some <==> is_frame(buf@),
        match r {
            Some(batch) => {
                &&& batch.request_id == u32_at(buf@, 6)
                &&& batch.lod == buf@[14]
                &&& batch.tiles@.len() == buf@[15]
                &&& forall|k: int|
                    0 <= k < batch.tiles@.len() ==> (#[trigger] batch.tiles@[k]).view()
                        == frame_tile(buf@, k)
            },
            None => true,
        },
{
    let total: usize = buf.len();
    if total < TILE_BATCH_HEADER_BYTES {
        return None;
    }
    if read_u32(buf, 0) != TILE_FRAME_MAGIC {
        return None;
    }
    if read_u16(buf, 4) != TILE_FRAME_VERSION {
        return None;
    }
    let request_id: u32 = read_u32(buf, 6);
    let base_x: u16 = read_u16(buf, 10);
    let base_y: u16 = read_u16(buf, 12);
    let lod: u8 = buf[14];
    let tile_count: usize = buf[15] as usize;
    let entries_end: usize = TILE_BATCH_HEADER_BYTES + tile_count * TILE_ENTRY_BYTES;
    if total < entries_end {
        return None;
    }
    let mut tiles: Vec<DecodedTile> = Vec::with_capacity(tile_count);
    let mut i: usize = 0;
    while i < tile_count
        invariant
            i <= tile_count,
            tile_count == buf@[15],
            total == buf@.len(),
            total >= 18,
            entries_end == payloads_start(buf@),
            entries_end <= total,
            base_x == u16_at(buf@, 10),
            base_y == u16_at(buf@, 12),
            tiles@.len() == i,
            forall|k: int| 0 <= k < i ==> #[trigger] payload_end(buf@, k) <= total,
            forall|k: int|
                0 <= k < i ==> (#[trigger] tiles@[k]).view() == frame_tile(buf@, k),
        decreases tile_count - i,
    {
        let off: usize = TILE_BATCH_HEADER_BYTES + i * TILE_ENTRY_BYTES;
        assert(off + 16 <= entries_end);
        let start: u64 = entries_end as u64 + read_u32(buf, off + 8) as u64;
        let end: u64 = start + read_u32(buf, off + 12) as u64;
        assert(end == payload_end(buf@, i as int));
        if end > total as u64 {
            return None;
        }
        let tile = DecodedTile {
            tx: move_coordinate(base_x, buf[off]),
            ty: move_coordinate(base_y, buf[off + 1]),
            layer: buf[off + 2],
            codec: buf[off + 3],
            node_count: read_u16(buf, off + 4) as u32,
            edge_count: read_u16(buf, off + 6) as u32,
            payload: Bytes::copy_from_slice(
                vstd::slice::slice_subrange(buf, start as usize, end as usize),
            ),
        };
        assert(tile.view() == frame_tile(buf@, i as int));
        tiles.push(tile);
        i += 1;
    }
    Some(DecodedTileBatch { request_id, lod, tiles })
}

/// Whether a frame can carry every field of every tile in full.
pub open spec fn representable(tiles: Seq<Tile>) -> bool {
    &&& tiles.len() <= 255
    &&& base_tx(tiles) <= 65535
    &&& base_ty(tiles) <= 65535
    &&& payload_bytes(tiles, tiles.len() as int).len() <= u32::MAX
    &&& forall|k: int|
        0 <= k < tiles.len() ==> {
            &&& (#[trigger] tiles[k]).meta.tx - base_tx(tiles) <= 127
            &&& tiles[k].meta.ty - base_ty(tiles) <= 127
            &&& tiles[k].meta.node_count <= 65535
            &&& tiles[k].meta.edge_count <= 65535
        }
}

/// What a batch encodes to is decoded back: the frame is accepted, and its
/// request, level and tiles, payloads included, are those that were encoded.
pub proof fn law_frame_round_trip(request_id: u32, lod: u8, tiles: Seq<Tile>)
    requires
        representable(tiles),
    ensures
        ({
            let buf = frame_bytes(request_id, lod, tiles);
            &&& is_frame(buf)
            &&& u32_at(buf, 6) == request_id
            &&& buf[14] == lod
            &&& buf[15] == tiles.len()
            &&& forall|k: int| 0 <= k < tiles.len() ==> #[trigger] frame_tile(buf, k) == tiles[k]
        }),
{
    let buf = frame_bytes(request_id, lod, tiles);
    let n = tiles.len() as int;
    lemma_frame_header(request_id, lod, tiles);
    assert forall|k: int| 0 <= k < n implies #[trigger] payload_end(buf, k) <= buf.len() by {
        lemma_frame_tile(request_id, lod, tiles, k);
    }
    assert forall|k: int| 0 <= k < n implies #[trigger] frame_tile(buf, k) == tiles[k] by {
        lemma_frame_tile(request_id, lod, tiles, k);
    }
}

proof fn lemma_frame_header(request_id: u32, lod: u8, tiles: Seq<Tile>)
    requires
        representable(tiles),
    ensures
        ({
            let buf = frame_bytes(request_id, lod, tiles);
            &&& buf.len() == 18 + 16 * tiles.len() + payload_bytes(
                tiles,
                tiles.len() as int,
            ).len()
            &&& u32_at(buf, 0) == TILE_FRAME_MAGIC
            &&& u16_at(buf, 4) == TILE_FRAME_VERSION
            &&& u32_at(buf, 6) == request_id
            &&& u16_at(buf, 10) == base_tx(tiles)
            &&& u16_at(buf, 12) == base_ty(tiles)
            &&& buf[14] == lod
            &&& buf[15] == tiles.len()
        }),
        header_bytes(request_id, lod, tiles).len() == 18,
{
    let buf = frame_bytes(request_id, lod, tiles);
    let n = tiles.len() as int;
    let header = header_bytes(request_id, lod, tiles);
    lemma_entries_len(tiles, n);
    assert(header.len() == 18);
    assert(buf.subrange(0, 4) =~= le32(TILE_FRAME_MAGIC));
    law_le32_reads_back(buf, 0, TILE_FRAME_MAGIC);
    assert(buf.subrange(4, 6) =~= le16(TILE_FRAME_VERSION));
    law_le16_reads_back(buf, 4, TILE_FRAME_VERSION);
    assert(buf.subrange(6, 10) =~= le32(request_id));
    law_le32_reads_back(buf, 6, request_id);
    assert(buf.subrange(10, 12) =~= le16((base_tx(tiles) % 65536) as u16));
    law_le16_reads_back(buf, 10, (base_tx(tiles) % 65536) as u16);
    assert(buf.subrange(12, 14) =~= le16((base_ty(tiles) % 65536) as u16));
    law_le16_reads_back(buf, 12, (base_ty(tiles) % 65536) as u16);
    assert(buf[14] == header[14]);
    assert(buf[15] == header[15]);
}

proof fn lemma_entry_fields(
    buf: Seq<u8>,
    off: int,
    head: Seq<u8>,
    nodes: u16,
    edges: u16,
    offset: u32,
    size: u32,
)
    requires
        0 <= off,
        off + 16 <= buf.len(),
        head.len() == 4,
        buf.subrange(off, off + 16) == head + le16(nodes) + le16(edges) + le32(offset) + le32(size),
    ensures
        buf[off] == head[0],
        buf[off + 1] == head[1],
        buf[off + 2] == head[2],
        buf[off + 3] == head[3],
        u16_at(buf, off + 4) == nodes,
        u16_at(buf, off + 6) == edges,
        u32_at(buf, off + 8) == offset,
        u32_at(buf, off + 12) == size,
{
    let e = buf.subrange(off, off + 16);
    assert(e[0] == head[0] && e[1] == head[1] && e[2] == head[2] && e[3] == head[3]);
    assert(e.subrange(4, 6) =~= le16(nodes));
    assert(e.subrange(6, 8) =~= le16(edges));
    assert(e.subrange(8, 12) =~= le32(offset));
    assert(e.subrange(12, 16) =~= le32(size));
    assert(buf.subrange(off + 4, off + 6) =~= e.subrange(4, 6));
    assert(buf.subrange(off + 6, off + 8) =~= e.subrange(6, 8));
    assert(buf.subrange(off + 8, off + 12) =~= e.subrange(8, 12));
    assert(buf.subrange(off + 12, off + 16) =~= e.subrange(12, 16));
    law_le16_reads_back(buf, off + 4, nodes);
    law_le16_reads_back(buf, off + 6, edges);
    law_le32_reads_back(buf, off + 8, offset);
    law_le32_reads_back(buf, off + 12, size);
}

#[verifier::spinoff_prover]
proof fn lemma_frame_tile(request_id: u32, lod: u8, tiles: Seq<Tile>, k: int)
    requires
        representable(tiles),
        0 <= k < tiles.len(),
    ensures
        ({
            let buf = frame_bytes(request_id, lod, tiles);
            &&& payload_end(buf, k) <= buf.len()
            &&& frame_tile(buf, k) == tiles[k]
        }),
{
    let n = tiles.len() as int;
    let header = header_bytes(request_id, lod, tiles);
    let buf = frame_bytes(request_id, lod, tiles);
    lemma_frame_header(request_id, lod, tiles);
    assert(buf == header + entries_bytes(tiles, n) + payload_bytes(tiles, n));
    lemma_tile_in_parts(header, tiles, k);
}

#[verifier::spinoff_prover]
#[verifier::rlimit(50)]
proof fn lemma_tile_in_parts(header: Seq<u8>, tiles: Seq<Tile>, k: int)
    requires
        representable(tiles),
        0 <= k < tiles.len(),
        header.len() == 18,
        ({
            let buf = header + entries_bytes(tiles, tiles.len() as int) + payload_bytes(
                tiles,
                tiles.len() as int,
            );
            &&& u16_at(buf, 10) == base_tx(tiles)
            &&& u16_at(buf, 12) == base_ty(tiles)
            &&& buf[15] == tiles.len()
        }),
    ensures
        ({
            let buf = header + entries_bytes(tiles, tiles.len() as int) + payload_bytes(
                tiles,
                tiles.len() as int,
            );
            &&& payload_end(buf, k) <= buf.len()
            &&& frame_tile(buf, k) == tiles[k]
        }),
{
    let n = tiles.len() as int;
    let entries = entries_bytes(tiles, n);
    let payloads = payload_bytes(tiles, n);
    let buf = header + entries + payloads;
    let off = 18 + 16 * k;
    let t = tiles[k];
    let po = payload_offset(tiles, k);
    let size = t.payload.len();
    lemma_entry_at(tiles, n, k);
    lemma_payload_place(tiles, n, k);
    assert(buf.subrange(off, off + 16) =~= entries.subrange(16 * k, 16 * k + 16));
    lemma_entry_fields(
        buf,
        off,
        seq![
            delta_byte(t.meta.tx, base_tx(tiles)),
            delta_byte(t.meta.ty, base_ty(tiles)),
            t.meta.layer,
            t.meta.codec,
        ],
        cap16(t.meta.node_count),
        cap16(t.meta.edge_count),
        po as u32,
        (size % 0x1_0000_0000) as u32,
    );
    assert(size % 0x1_0000_0000 == size);
    assert(payload_start(buf, k) == 18 + 16 * n + po);
    assert(buf.subrange(payload_start(buf, k), payload_end(buf, k)) =~= payloads.subrange(
        po,
        po + size,
    ));
    lemma_min_below(tiles.map_values(|t: Tile| t.meta.tx), k);
    lemma_min_below(tiles.map_values(|t: Tile| t.meta.ty), k);
    assert(frame_tile(buf, k).meta == t.meta);
}

/// Encoding accepts every batch that a frame can carry in full.
pub proof fn law_representable_is_encodable(tiles: Seq<Tile>)
    requires
        representable(tiles),
        18 + 16 * tiles.len() + payload_bytes(tiles, tiles.len() as int).len() <= usize::MAX,
    ensures
        encodable(tiles),
{
    let n = tiles.len() as int;
    if n > 0 {
        lemma_payload_place(tiles, n, n - 1);
    }
    assert forall|k: int| 0 <= k < n implies {
        &&& i32::MIN <= as_signed((#[trigger] tiles[k]).meta.tx) - as_signed(base_tx(tiles))
            <= i32::MAX
        &&& i32::MIN <= as_signed(tiles[k].meta.ty) - as_signed(base_ty(tiles)) <= i32::MAX
    } by {
        lemma_min_below(tiles.map_values(|t: Tile| t.meta.tx), k);
        lemma_min_below(tiles.map_values(|t: Tile| t.meta.ty), k);
    }
}

proof fn lemma_min_below(s: Seq<u32>, k: int)
    requires
        0 <= k < s.len(),
    ensures
        min_or_zero(s) <= s[k],
    decreases s.len(),
{
    if s.len() > 1 && k < s.len() - 1 {
        lemma_min_below(s.drop_last(), k);
    }
}

pub proof fn lemma_entries_len(tiles: Seq<Tile>, k: int)
    requires
        0 <= k,
    ensures
        entries_bytes(tiles, k).len() == 16 * k,
    decreases k,
{
    if k > 0 {
        lemma_entries_len(tiles, k - 1);
    }
}

pub proof fn lemma_entry_at(tiles: Seq<Tile>, n: int, k: int)
    requires
        0 <= k < n,
    ensures
        entries_bytes(tiles, n).len() == 16 * n,
        entries_bytes(tiles, n).subrange(16 * k, 16 * k + 16) == entry_bytes(tiles, k),
    decreases n,
{
    lemma_entries_len(tiles, n);
    lemma_entries_len(tiles, n - 1);
    let all = entries_bytes(tiles, n);
    if k == n - 1 {
        assert(all.subrange(16 * k, 16 * k + 16) =~= entry_bytes(tiles, k));
    } else {
        lemma_entry_at(tiles, n - 1, k);
        assert(all.subrange(16 * k, 16 * k + 16) =~= entries_bytes(tiles, n - 1).subrange(
            16 * k,
            16 * k + 16,
        ));
    }
}

/// While all payloads fit, the stated offsets are the real ones.
proof fn lemma_payload_place(tiles: Seq<Tile>, n: int, k: int)
    requires
        0 <= k < n <= tiles.len(),
        payload_bytes(tiles, n).len() <= u32::MAX,
    ensures
        payload_offset(tiles, k) == payload_bytes(tiles, k).len(),
        payload_offset(tiles, n) == payload_bytes(tiles, n).len(),
        payload_offset(tiles, k) + tiles[k].payload.len() <= payload_bytes(tiles, n).len(),
        payload_bytes(tiles, n).subrange(
            payload_offset(tiles, k),
            payload_offset(tiles, k) + tiles[k].payload.len(),
        ) == tiles[k].payload,
    decreases n,
{
    let all = payload_bytes(tiles, n);
    if n > 1 {
        lemma_payload_place(tiles, n - 1, if k < n - 1 {
            k
        } else {
            0
        });
    }
    assert(payload_offset(tiles, 0) == 0);
    assert(payload_bytes(tiles, 0).len() == 0);
    assert(payload_offset(tiles, n - 1) == payload_bytes(tiles, n - 1).len());
    assert(all == payload_bytes(tiles, n - 1) + tiles[n - 1].payload);
    if k == n - 1 {
        assert(all.subrange(
            payload_offset(tiles, k),
            payload_offset(tiles, k) + tiles[k].payload.len(),
        ) =~= tiles[k].payload);
    } else {
        assert(all.subrange(
            payload_offset(tiles, k),
            payload_offset(tiles, k) + tiles[k].payload.len(),
        ) =~= payload_bytes(tiles, n - 1).subrange(
            payload_offset(tiles, k),
            payload_offset(tiles, k) + tiles[k].payload.len(),
        ));
    }
}

proof fn lemma_payload_bytes_monotone(tiles: Seq<Tile>, a: int, b: int)
    requires
        0 <= a <= b,
    ensures
        payload_bytes(tiles, a).len() <= payload_bytes(tiles, b).len(),
    decreases b,
{
    if a < b {
        lemma_payload_bytes_monotone(tiles, a, b - 1);
    }
}

proof fn lemma_payload_offset_monotone(tiles: Seq<Tile>, a: int, b: int)
    requires
        0 <= a <= b,
    ensures
        payload_offset(tiles, a) <= payload_offset(tiles, b),
    decreases b,
{
    if a < b {
        lemma_payload_offset_monotone(tiles, a, b - 1);
    }
}

} // verus!
