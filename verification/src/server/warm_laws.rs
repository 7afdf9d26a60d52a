//! Where the bytes of an unloaded entity stand.

use vstd::prelude::*;

use super::roster::EntityMeta;
use super::warm_tier::{
    end_after, entity_bytes, meta_in, overwritten, payload_len, position_bytes, readable,
    without_range, CacheEntry, PutLog, WarmTier,
};
use crate::proto::layout_laws::{byte_of, law_bytes_are_little_endian};
use crate::proto::le::{le32, le64};

verus! {

/// An entity stands in the cache file as its rowid, the number of bytes that
/// follow the header, a flag, the two coordinates if the flag is 1, and the last
/// access, each number with its least significant byte first.
pub proof fn law_entity_layout(rowid: u64, meta: EntityMeta, k: int)
    ensures
        ({
            let b = entity_bytes(rowid, meta);
            &&& 0 <= k < 8 ==> b[k] == byte_of(rowid as int, k)
            &&& b[8] == b.len() - 12
            &&& b[9] == 0 && b[10] == 0 && b[11] == 0
            &&& match meta.position {
                Some((x, y)) => {
                    &&& b.len() == 29
                    &&& b[12] == 1
                    &&& 0 <= k < 4 ==> b[13 + k] == byte_of(x.bits as int, k)
                    &&& 0 <= k < 4 ==> b[17 + k] == byte_of(y.bits as int, k)
                    &&& 0 <= k < 8 ==> b[21 + k] == byte_of(meta.last_access as int, k)
                },
                None => {
                    &&& b.len() == 21
                    &&& b[12] == 0
                    &&& 0 <= k < 8 ==> b[13 + k] == byte_of(meta.last_access as int, k)
                },
            }
        }),
{
    let b = entity_bytes(rowid, meta);
    let len = payload_len(meta.position);
    law_bytes_are_little_endian(0, len, rowid, k);
    law_bytes_are_little_endian(0, len, meta.last_access, k);
    if 0 <= k < 8 {
        assert(b[k] == le64(rowid)[k]);
    }
    assert(b[8] == le32(len)[0] && b[9] == le32(len)[1] && b[10] == le32(len)[2] && b[11] == le32(
        len,
    )[3]);
    match meta.position {
        Some((x, y)) => {
            law_bytes_are_little_endian(0, x.bits, 0, k);
            law_bytes_are_little_endian(0, y.bits, 0, k);
            let p = position_bytes(meta.position);
            if 0 <= k < 4 {
                assert(p[1 + k] == le32(x.bits)[k]);
                assert(p[5 + k] == le32(y.bits)[k]);
                assert(b[13 + k] == p[1 + k]);
                assert(b[17 + k] == p[5 + k]);
            }
            if 0 <= k < 8 {
                assert(b[21 + k] == le64(meta.last_access)[k]);
            }
        },
        None => {
            if 0 <= k < 8 {
                assert(b[13 + k] == le64(meta.last_access)[k]);
            }
        },
    }
}

/// Bytes can be read if they hold what their flag announces. They have a
/// position exactly if the flag is not 0; its coordinates and the last access
/// are then the numbers in the bytes behind the flag.
pub proof fn law_bytes_say_entity(b: Seq<u8>)
    ensures
        b.len() < 21 ==> !readable(b),
        b.len() >= 29 ==> readable(b),
        21 <= b.len() < 29 ==> (readable(b) <==> b[12] == 0),
        readable(b) && b[12] == 0 ==> meta_in(b).position is None,
        readable(b) && b[12] != 0 ==> {
            &&& meta_in(b).position matches Some((x, y)) && x.bits == b[13] + 256 * b[14] + 65536
                * b[15] + 16777216 * b[16] && y.bits == b[17] + 256 * b[18] + 65536 * b[19]
                + 16777216 * b[20]
            &&& meta_in(b).last_access % 256 == b[21]
            &&& meta_in(b).last_access / 0x100_0000_0000_0000 == b[28]
        },
        readable(b) && b[12] == 0 ==> meta_in(b).last_access % 256 == b[13]
            && meta_in(b).last_access / 0x100_0000_0000_0000 == b[20],
{
}

/// A put takes exactly those entities out of the index that share a byte with
/// what is written, and leaves the places of all others.
pub proof fn law_put_drops_what_is_overwritten(
    index: Map<u64, CacheEntry>,
    offset: usize,
    len: int,
    rowid: u64,
)
    requires
        len > 0,
        index.contains_key(rowid),
        index[rowid].len > 0,
    ensures
        ({
            let e = index[rowid];
            let kept = without_range(index, offset, len);
            &&& kept.contains_key(rowid) <==> e.offset + e.len <= offset || offset + len <= e.offset
            &&& kept.contains_key(rowid) ==> kept[rowid] == e
        }),
        forall|r: u64| #[trigger]
            without_range(index, offset, len).contains_key(r) ==> index.contains_key(r),
{
}

/// An entity goes behind the last one if it and the eight bytes behind it fit
/// there, and to the start of the file otherwise.
pub proof fn law_place_has_room(tier: WarmTier, len: int)
    requires
        len >= 0,
    ensures
        tier.write_offset + 8 + len <= tier.capacity ==> tier.place_for(len) == tier.write_offset,
        tier.write_offset + 8 + len > tier.capacity ==> tier.place_for(len) == 0,
        8 + len <= tier.capacity ==> tier.place_for(len) + 8 + len <= tier.capacity,
{
}

/// Writing bytes changes the file where they are written and nowhere else. A file
/// that is too short grows to hold them, with zeros in between.
pub proof fn law_write_changes_its_range(image: Seq<u8>, offset: int, bytes: Seq<u8>, k: int)
    requires
        0 <= offset,
    ensures
        ({
            let after = overwritten(image, offset, bytes);
            &&& after.len() >= image.len()
            &&& after.len() >= offset + bytes.len()
            &&& after.len() == image.len() || after.len() == offset + bytes.len()
            &&& 0 <= k < bytes.len() ==> after[offset + k] == bytes[k]
            &&& 0 <= k < image.len() && (k < offset || k >= offset + bytes.len()) ==> after[k]
                == image[k]
            &&& image.len() <= k < offset && k < after.len() ==> after[k] == 0
        }),
{
}

/// One behind the other, an entity with a position takes 37 bytes of the file and
/// one without takes 29.
pub proof fn law_entities_take_their_bytes(log: PutLog, rowid: u64, meta: EntityMeta)
    ensures
        end_after(Seq::empty()) == 0,
        end_after(log.push((rowid, meta))) == end_after(log) + if meta.position is Some {
            37int
        } else {
            29int
        },
{
    assert(log.push((rowid, meta)).drop_last() =~= log);
    law_entity_layout(rowid, meta, 0);
}

} // verus!
