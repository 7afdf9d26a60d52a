//! Where the bytes of a tile frame stand.

use vstd::prelude::*;

use super::le::{le16, le32, le64, u16_at, u32_at};
use super::tile::{
    base_tx, base_ty, cap16, coordinate, delta_byte, entries_bytes, entry_bytes, frame_bytes,
    frame_tile, header_bytes, is_frame, lemma_entries_len, lemma_entry_at, min_or_zero,
    payload_bytes, payload_end, payload_offset, payload_start, Tile,
};

verus! {

/// Byte `k` of a number, the least significant first.
pub open spec fn byte_of(n: int, k: int) -> int
    decreases k,
{
    if k <= 0 {
        n % 256
    } else {
        byte_of(n / 256, k - 1)
    }
}

/// Integers are written byte by byte, the least significant first.
pub proof fn law_bytes_are_little_endian(a: u16, b: u32, c: u64, k: int)
    ensures
        le16(a).len() == 2,
        le32(b).len() == 4,
        le64(c).len() == 8,
        0 <= k < 2 ==> le16(a)[k] == byte_of(a as int, k),
        0 <= k < 4 ==> le32(b)[k] == byte_of(b as int, k),
        0 <= k < 8 ==> le64(c)[k] == byte_of(c as int, k),
{
    reveal_with_fuel(byte_of, 8);
    let n = c as int;
    assert(n / 256 / 256 == n / 65536);
    assert(n / 65536 / 256 == n / 16777216);
    assert(n / 16777216 / 256 == n / 4294967296);
    let h = n / 4294967296;
    assert(h / 256 / 256 == h / 65536);
    assert(h / 65536 / 256 == h / 16777216);
    let l = n % 4294967296;
    assert(l % 256 == n % 256);
    assert(l / 256 % 256 == n / 256 % 256);
    assert(l / 65536 % 256 == n / 65536 % 256);
    assert(l / 16777216 == n / 16777216 % 256);
    let m = b as int;
    assert(m / 256 / 256 == m / 65536);
    assert(m / 65536 / 256 == m / 16777216);
    assert(m / 16777216 < 256);
}

/// The base of a batch is the smallest of its coordinates, and 0 if it has no
/// tiles.
pub proof fn law_base_is_smallest(tiles: Seq<Tile>, k: int)
    ensures
        tiles.len() == 0 ==> base_tx(tiles) == 0 && base_ty(tiles) == 0,
        0 <= k < tiles.len() ==> base_tx(tiles) <= tiles[k].meta.tx && base_ty(tiles)
            <= tiles[k].meta.ty,
        tiles.len() > 0 ==> (exists|j: int|
            0 <= j < tiles.len() && (#[trigger] tiles[j]).meta.tx == base_tx(tiles)) && (exists|
            j: int,
        |
            0 <= j < tiles.len() && (#[trigger] tiles[j]).meta.ty == base_ty(tiles)),
{
    let txs = tiles.map_values(|t: Tile| t.meta.tx);
    let tys = tiles.map_values(|t: Tile| t.meta.ty);
    lemma_smallest(txs, k);
    lemma_smallest(tys, k);
    if tiles.len() > 0 {
        let a = choose|a: int| 0 <= a < txs.len() && #[trigger] txs[a] == min_or_zero(txs);
        assert(tiles[a].meta.tx == base_tx(tiles));
        let b = choose|b: int| 0 <= b < tys.len() && #[trigger] tys[b] == min_or_zero(tys);
        assert(tiles[b].meta.ty == base_ty(tiles));
    }
}

proof fn lemma_smallest(s: Seq<u32>, k: int)
    ensures
        s.len() == 0 ==> min_or_zero(s) == 0,
        0 <= k < s.len() ==> min_or_zero(s) <= s[k],
        s.len() > 0 ==> exists|j: int| 0 <= j < s.len() && #[trigger] s[j] == min_or_zero(s),
    decreases s.len(),
{
    if s.len() == 1 {
        assert(s[0] == min_or_zero(s));
    } else if s.len() > 1 {
        let rest = s.drop_last();
        lemma_smallest(rest, k);
        let j = choose|j: int| 0 <= j < rest.len() && #[trigger] rest[j] == min_or_zero(rest);
        assert(s[j] == rest[j]);
        let last = s.len() - 1;
        assert(s[last] == s.last());
        if 0 <= k < rest.len() {
            assert(rest[k] == s[k]);
        }
    }
}

/// What a byte is worth as a signed number.
pub open spec fn signed_byte(b: u8) -> int {
    if b < 128 {
        b as int
    } else {
        b - 256
    }
}

/// The distance of a coordinate from its base is kept in a signed byte: exactly
/// from -128 to 127, and cut off at these bounds.
pub proof fn law_distance_is_cut_off(x: u32, base: u32)
    requires
        x < 0x8000_0000,
        base < 0x8000_0000,
    ensures
        -128 <= x - base <= 127 ==> signed_byte(delta_byte(x, base)) == x - base,
        x - base > 127 ==> signed_byte(delta_byte(x, base)) == 127,
        x - base < -128 ==> signed_byte(delta_byte(x, base)) == -128,
{
}

/// A coordinate is its base moved by the signed byte, and below zero it starts
/// over from the end of the numbers.
pub proof fn law_coordinate_is_moved_base(base: u16, delta: u8)
    ensures
        base + signed_byte(delta) >= 0 ==> coordinate(base, delta) == base + signed_byte(delta),
        base + signed_byte(delta) < 0 ==> coordinate(base, delta) == base + signed_byte(delta)
            + 0x1_0000_0000,
{
}

/// Counts from 65535 on are written as 65535, and smaller ones as they are.
pub proof fn law_counts_are_cut_off(x: u32)
    ensures
        x < 65535 ==> cap16(x) == x,
        x >= 65535 ==> cap16(x) == 65535,
{
}

/// The header of a frame: the mark, the version, the request, the base, the
/// level, the number of tiles and two zeros.
pub proof fn law_frame_header_layout(request_id: u32, lod: u8, tiles: Seq<Tile>, k: int)
    ensures
        ({
            let buf = frame_bytes(request_id, lod, tiles);
            &&& buf.len() == 18 + 16 * tiles.len() + payload_bytes(
                tiles,
                tiles.len() as int,
            ).len()
            &&& 0 <= k < 4 ==> buf[k] == byte_of(0x47444147, k)
            &&& buf[4] == 1 && buf[5] == 0
            &&& 0 <= k < 4 ==> buf[6 + k] == byte_of(request_id as int, k)
            &&& 0 <= k < 2 ==> buf[10 + k] == byte_of(base_tx(tiles) as int, k)
            &&& 0 <= k < 2 ==> buf[12 + k] == byte_of(base_ty(tiles) as int, k)
            &&& buf[14] == lod
            &&& tiles.len() <= 255 ==> buf[15] == tiles.len()
            &&& tiles.len() > 255 ==> buf[15] == 255
            &&& buf[16] == 0 && buf[17] == 0
        }),
{
    let buf = frame_bytes(request_id, lod, tiles);
    let header = header_bytes(request_id, lod, tiles);
    lemma_entries_len(tiles, tiles.len() as int);
    let x = (base_tx(tiles) % 65536) as u16;
    let y = (base_ty(tiles) % 65536) as u16;
    let tail = header.skip(14);
    assert(header =~= le32(0x47444147) + le16(1) + le32(request_id) + le16(x) + le16(y) + tail);
    lemma_header_parts(0x47444147, 1, request_id, x, y, tail, k);
    lemma_low_bytes(base_tx(tiles), k);
    lemma_low_bytes(base_ty(tiles), k);
    assert(header.len() == 18);
    assert(forall|j: int| 0 <= j < 18 ==> buf[j] == header[j]);
    assert(tail[0] == lod);
    assert(header[14] == tail[0] && header[15] == tail[1] && header[16] == tail[2] && header[17]
        == tail[3]);
}

proof fn lemma_low_bytes(n: u32, k: int)
    ensures
        0 <= k < 2 ==> byte_of((n % 65536) as int, k) == byte_of(n as int, k),
{
    reveal_with_fuel(byte_of, 2);
}

proof fn lemma_header_parts(a: u32, b: u16, c: u32, d: u16, e: u16, tail: Seq<u8>, k: int)
    requires
        tail.len() == 4,
    ensures
        ({
            let all = le32(a) + le16(b) + le32(c) + le16(d) + le16(e) + tail;
            &&& all.len() == 18
            &&& 0 <= k < 4 ==> all[k] == byte_of(a as int, k)
            &&& all[4] == b % 256
            &&& all[5] == b / 256
            &&& 0 <= k < 4 ==> all[6 + k] == byte_of(c as int, k)
            &&& 0 <= k < 2 ==> all[10 + k] == byte_of(d as int, k)
            &&& 0 <= k < 2 ==> all[12 + k] == byte_of(e as int, k)
        }),
{
    law_bytes_are_little_endian(b, a, 0, k);
    law_bytes_are_little_endian(d, c, 0, k);
    law_bytes_are_little_endian(e, c, 0, k);
    let all = le32(a) + le16(b) + le32(c) + le16(d) + le16(e) + tail;
    if 0 <= k < 4 {
        assert(all[k] == le32(a)[k]);
        assert(all[6 + k] == le32(c)[k]);
    }
    assert(all[4] == le16(b)[0]);
    assert(all[5] == le16(b)[1]);
    if 0 <= k < 2 {
        assert(all[10 + k] == le16(d)[k]);
        assert(all[12 + k] == le16(e)[k]);
    }
}

/// The entry of a tile stands behind the header and the entries before it. It
/// holds the distances from the base, the layer, the codec, the two counts, and
/// where the payload stands among the payloads and how long it is.
pub proof fn law_frame_entry_layout(request_id: u32, lod: u8, tiles: Seq<Tile>, k: int, j: int)
    requires
        0 <= k < tiles.len(),
        payload_offset(tiles, k) <= u32::MAX,
        tiles[k].payload.len() <= u32::MAX,
    ensures
        ({
            let buf = frame_bytes(request_id, lod, tiles);
            let at = 18 + 16 * k;
            let t = tiles[k];
            &&& buf[at] == delta_byte(t.meta.tx, base_tx(tiles))
            &&& buf[at + 1] == delta_byte(t.meta.ty, base_ty(tiles))
            &&& buf[at + 2] == t.meta.layer
            &&& buf[at + 3] == t.meta.codec
            &&& 0 <= j < 2 ==> buf[at + 4 + j] == byte_of(cap16(t.meta.node_count) as int, j)
            &&& 0 <= j < 2 ==> buf[at + 6 + j] == byte_of(cap16(t.meta.edge_count) as int, j)
            &&& 0 <= j < 4 ==> buf[at + 8 + j] == byte_of(payload_offset(tiles, k), j)
            &&& 0 <= j < 4 ==> buf[at + 12 + j] == byte_of(t.payload.len() as int, j)
        }),
{
    let n = tiles.len() as int;
    let buf = frame_bytes(request_id, lod, tiles);
    let header = header_bytes(request_id, lod, tiles);
    let entries = entries_bytes(tiles, n);
    let at = 18 + 16 * k;
    let t = tiles[k];
    let e = entry_bytes(tiles, k);
    lemma_entries_len(tiles, n);
    lemma_entry_at(tiles, n, k);
    assert(header.len() == 18);
    assert(e.len() == 16);
    assert forall|i: int| 0 <= i < 16 implies #[trigger] buf[at + i] == e[i] by {
        assert(entries.subrange(16 * k, 16 * k + 16)[i] == e[i]);
        assert(buf[at + i] == entries[16 * k + i]);
    }
    let size = (t.payload.len() % 0x1_0000_0000) as u32;
    let offset = payload_offset(tiles, k) as u32;
    lemma_offset_is_positive(tiles, k);
    law_bytes_are_little_endian(cap16(t.meta.node_count), offset, 0, j);
    law_bytes_are_little_endian(cap16(t.meta.edge_count), size, 0, j);
    assert(buf[at + 0] == e[0]);
    if 0 <= j < 2 {
        assert(buf[at + (4 + j)] == e[4 + j]);
        assert(buf[at + (6 + j)] == e[6 + j]);
        assert(e[4 + j] == le16(cap16(t.meta.node_count))[j]);
        assert(e[6 + j] == le16(cap16(t.meta.edge_count))[j]);
    }
    if 0 <= j < 4 {
        assert(buf[at + (8 + j)] == e[8 + j]);
        assert(buf[at + (12 + j)] == e[12 + j]);
        assert(e[8 + j] == le32(offset)[j]);
        assert(e[12 + j] == le32(size)[j]);
    }
}

proof fn lemma_offset_is_positive(tiles: Seq<Tile>, k: int)
    ensures
        payload_offset(tiles, k) >= 0,
    decreases k,
{
    if k > 0 {
        lemma_offset_is_positive(tiles, k - 1);
    }
}

/// The payloads stand behind the entries, one behind the other: the first at the
/// start, and each next one where the one before it ends.
pub proof fn law_frame_payload_layout(request_id: u32, lod: u8, tiles: Seq<Tile>, k: int, j: int)
    requires
        0 <= k < tiles.len(),
        payload_bytes(tiles, tiles.len() as int).len() <= u32::MAX,
        0 <= j < tiles[k].payload.len(),
    ensures
        frame_bytes(request_id, lod, tiles)[18 + 16 * tiles.len() + payload_offset(tiles, k) + j]
            == tiles[k].payload[j],
        k == 0 ==> payload_offset(tiles, k) == 0,
        k > 0 ==> payload_offset(tiles, k) == payload_offset(tiles, k - 1)
            + tiles[k - 1].payload.len(),
{
    let n = tiles.len() as int;
    lemma_entries_len(tiles, n);
    lemma_payload_at(tiles, n, k, j);
    let header = header_bytes(request_id, lod, tiles);
    assert(header.len() == 18);
    if k > 0 {
        lemma_payload_fits(tiles, n, k - 1);
    }
}

proof fn lemma_payload_fits(tiles: Seq<Tile>, n: int, k: int)
    requires
        0 <= k < n <= tiles.len(),
    ensures
        tiles[k].payload.len() <= payload_bytes(tiles, n).len(),
    decreases n,
{
    if k < n - 1 {
        lemma_payload_fits(tiles, n - 1, k);
    }
}

proof fn lemma_payload_at(tiles: Seq<Tile>, n: int, k: int, j: int)
    requires
        0 <= k < n <= tiles.len(),
        payload_bytes(tiles, n).len() <= u32::MAX,
        0 <= j < tiles[k].payload.len(),
    ensures
        0 <= payload_offset(tiles, k),
        payload_offset(tiles, k) + j < payload_bytes(tiles, n).len(),
        payload_bytes(tiles, n)[payload_offset(tiles, k) + j] == tiles[k].payload[j],
        payload_offset(tiles, n) == payload_bytes(tiles, n).len(),
    decreases n,
{
    if k < n - 1 {
        lemma_payload_at(tiles, n - 1, k, j);
        lemma_payload_fits(tiles, n, n - 1);
    } else {
        lemma_offsets_add_up(tiles, n - 1);
        lemma_payload_fits(tiles, n, n - 1);
    }
}

proof fn lemma_offsets_add_up(tiles: Seq<Tile>, n: int)
    requires
        0 <= n <= tiles.len(),
        payload_bytes(tiles, n).len() <= u32::MAX,
    ensures
        payload_offset(tiles, n) == payload_bytes(tiles, n).len(),
    decreases n,
{
    if n > 0 {
        lemma_offsets_add_up(tiles, n - 1);
        lemma_payload_fits(tiles, n, n - 1);
    }
}

/// A buffer is taken for a frame exactly if it has a header with the mark and
/// the version, and holds all the entries and payloads that it announces. What
/// is read of a tile are the fields of its entry, with the payload behind the
/// entries.
pub proof fn law_frame_reads_its_entries(buf: Seq<u8>, k: int, j: int)
    ensures
        is_frame(buf) <==> buf.len() >= 18 && buf[0] == 0x47 && buf[1] == 0x41 && buf[2] == 0x44
            && buf[3] == 0x47 && buf[4] == 1 && buf[5] == 0 && buf.len() >= 18 + 16 * buf[15] && (
        forall|i: int|
            #![trigger u32_at(buf, 18 + 16 * i + 8)]
            0 <= i < buf[15] ==> 18 + 16 * buf[15] + u32_at(buf, 18 + 16 * i + 8) + u32_at(
                buf,
                18 + 16 * i + 12,
            ) <= buf.len()),
        is_frame(buf) && 0 <= k < buf[15] ==> {
            let at = 18 + 16 * k;
            let t = frame_tile(buf, k);
            let start = 18 + 16 * buf[15] + u32_at(buf, at + 8);
            &&& t.meta.layer == buf[at + 2]
            &&& t.meta.codec == buf[at + 3]
            &&& t.meta.node_count == buf[at + 4] + 256 * buf[at + 5]
            &&& t.meta.edge_count == buf[at + 6] + 256 * buf[at + 7]
            &&& t.payload.len() == u32_at(buf, at + 12)
            &&& 0 <= j < t.payload.len() ==> t.payload[j] == buf[start + j]
            &&& (t.meta.tx - (buf[10] + 256 * buf[11]) - signed_byte(buf[at])) % 0x1_0000_0000 == 0
            &&& (t.meta.ty - (buf[12] + 256 * buf[13]) - signed_byte(buf[at + 1])) % 0x1_0000_0000
                == 0
        },
{
    assert(u32_at(buf, 0) == 0x47444147 <==> buf[0] == 0x47 && buf[1] == 0x41 && buf[2] == 0x44
        && buf[3] == 0x47);
    assert(u16_at(buf, 4) == 1 <==> buf[4] == 1 && buf[5] == 0);
    if is_frame(buf) {
        assert forall|i: int|
            #![trigger u32_at(buf, 18 + 16 * i + 8)]
            0 <= i < buf[15] implies 18 + 16 * buf[15] + u32_at(buf, 18 + 16 * i + 8) + u32_at(
            buf,
            18 + 16 * i + 12,
        ) <= buf.len() by {
            assert(payload_end(buf, i) <= buf.len());
        }
        if 0 <= k < buf[15] {
            assert(payload_end(buf, k) <= buf.len());
            law_coordinate_is_moved_base(u16_at(buf, 10), buf[18 + 16 * k]);
            law_coordinate_is_moved_base(u16_at(buf, 12), buf[18 + 16 * k + 1]);
        }
    }
    if buf.len() >= 18 && buf.len() >= 18 + 16 * buf[15] && (forall|i: int|
        #![trigger u32_at(buf, 18 + 16 * i + 8)]
        0 <= i < buf[15] ==> 18 + 16 * buf[15] + u32_at(buf, 18 + 16 * i + 8) + u32_at(
            buf,
            18 + 16 * i + 12,
        ) <= buf.len()) {
        assert forall|i: int| 0 <= i < buf[15] implies #[trigger] payload_end(buf, i)
            <= buf.len() by {
            let x = u32_at(buf, 18 + 16 * i + 8);
        }
    }
}

} // verus!
