//! Cache file for entities that were unloaded.

use std::collections::HashMap;

use vstd::prelude::*;

use super::roster::EntityMeta;
use crate::float::Float32;
use crate::proto::le::{
    law_le32_reads_back, law_le64_reads_back, le32, le64, push_u32, push_u64, read_u32, read_u64,
    u32_at, u64_at,
};

verus! {

broadcast use vstd::std_specs::hash::group_hash_axioms;

/// Where an entity lies in the cache file.
#[derive(Clone, Copy, Debug, PartialEq, Eq, Structural)]
pub struct CacheEntry {
    pub offset: usize,
    pub len: usize,
}

/// Layout of the cache file. An entity is written as its rowid, the length of
/// what follows, a flag for the position, the position if there is one, and the
/// last access, all in little-endian order.
pub struct WarmTier {
    pub index: HashMap<u64, CacheEntry>,
    pub write_offset: usize,
    pub capacity: usize,
}

/// Bytes to be written to the cache file, and where.
#[derive(Clone, Debug)]
pub struct WarmWrite {
    pub offset: usize,
    pub bytes: Vec<u8>,
}

/// The flag and the position of an entity.
pub open spec fn position_bytes(position: Option<(Float32, Float32)>) -> Seq<u8> {
    match position {
        Some((x, y)) => seq![1u8] + le32(x.bits) + le32(y.bits),
        None => seq![0u8],
    }
}

/// Length of what follows the header of an entity.
pub open spec fn payload_len(position: Option<(Float32, Float32)>) -> u32 {
    if position is Some {
        17
    } else {
        9
    }
}

/// An entity as it stands in the cache file.
pub open spec fn entity_bytes(rowid: u64, meta: EntityMeta) -> Seq<u8> {
    le64(rowid) + le32(payload_len(meta.position)) + position_bytes(meta.position) + le64(
        meta.last_access,
    )
}

/// Whether the bytes are long enough for what their flag announces.
pub open spec fn readable(bytes: Seq<u8>) -> bool {
    &&& bytes.len() >= 21
    &&& bytes[12] != 0 ==> bytes.len() >= 29
}

/// What the bytes say of an entity.
pub open spec fn meta_in(bytes: Seq<u8>) -> EntityMeta {
    if bytes[12] != 0 {
        EntityMeta {
            position: Some((Float32 { bits: u32_at(bytes, 13) }, Float32 { bits: u32_at(bytes, 17) })),
            last_access: u64_at(bytes, 21),
        }
    } else {
        EntityMeta { position: None, last_access: u64_at(bytes, 13) }
    }
}

/// Whether an entity lies, at least in part, in the `len` bytes from `offset` on.
pub open spec fn overlaps(entry: CacheEntry, offset: usize, len: int) -> bool {
    entry.offset < offset + len && offset < entry.offset + entry.len
}

/// The index without the entities that lie in the `len` bytes from `offset` on.
pub open spec fn without_range(index: Map<u64, CacheEntry>, offset: usize, len: int) -> Map<
    u64,
    CacheEntry,
> {
    Map::new(
        |r: u64| index.contains_key(r) && !overlaps(index[r], offset, len),
        |r: u64| index[r],
    )
}

/// Whether an entity stands at a place of the file: its length is the one that
/// its flag announces, and the file holds all of it. No entity stands where the
/// header is all zeros.
pub open spec fn stands_at(image: Seq<u8>, offset: int) -> bool {
    let len = u32_at(image, offset + 8);
    &&& offset + 21 <= image.len()
    &&& offset + 12 + len <= image.len()
    &&& len == if image[offset + 12] != 0 {
        17int
    } else {
        9int
    }
}

/// Index that a pass over a file finds from `offset` on, and where the pass
/// ends: at the first place where no entity stands. Eight bytes stand behind
/// each entity.
pub open spec fn found_in(image: Seq<u8>, offset: int, index: Map<u64, CacheEntry>) -> (
    Map<u64, CacheEntry>,
    int,
)
    decreases image.len() + 8 - offset,
{
    if offset < 0 || !stands_at(image, offset) {
        (index, offset)
    } else {
        let rowid = u64_at(image, offset);
        let len = u32_at(image, offset + 8);
        let entry = CacheEntry { offset: offset as usize, len: (12 + len) as usize };
        found_in(image, offset + 20 + len, index.insert(rowid, entry))
    }
}

/// Reads back what `entity_bytes` wrote.
pub proof fn law_entity_reads_back(rowid: u64, meta: EntityMeta)
    ensures
        readable(entity_bytes(rowid, meta)),
        meta_in(entity_bytes(rowid, meta)) == meta,
        u64_at(entity_bytes(rowid, meta), 0) == rowid,
        u32_at(entity_bytes(rowid, meta), 8) + 12 == entity_bytes(rowid, meta).len(),
        entity_bytes(rowid, meta).len() == if entity_bytes(rowid, meta)[12] != 0 {
            29int
        } else {
            21int
        },
{
    let b = entity_bytes(rowid, meta);
    assert(b.subrange(0, 8) =~= le64(rowid));
    law_le64_reads_back(b, 0, rowid);
    assert(b.subrange(8, 12) =~= le32(payload_len(meta.position)));
    law_le32_reads_back(b, 8, payload_len(meta.position));
    match meta.position {
        Some((x, y)) => {
            assert(b[12] == 1);
            assert(b.subrange(13, 17) =~= le32(x.bits));
            assert(b.subrange(17, 21) =~= le32(y.bits));
            assert(b.subrange(21, 29) =~= le64(meta.last_access));
            law_le32_reads_back(b, 13, x.bits);
            law_le32_reads_back(b, 17, y.bits);
            law_le64_reads_back(b, 21, meta.last_access);
        },
        None => {
            assert(b[12] == 0);
            assert(b.subrange(13, 21) =~= le64(meta.last_access));
            law_le64_reads_back(b, 13, meta.last_access);
        },
    }
}

/// Takes the entities that lie in the `len` bytes from `offset` on out of the
/// index.
fn drop_range(index: &mut HashMap<u64, CacheEntry>, offset: usize, len: usize)
    requires
        offset + len <= usize::MAX,
    ensures
        final(index)@ == without_range(old(index)@, offset, len as int),
{
    let mut doomed: Vec<u64> = Vec::new();
    let ghost map = index@;
    for pair in it: index.iter()
        invariant
            map == index@,
            offset + len <= usize::MAX,
            forall|j: int|
                0 <= j < it.index() && overlaps(
                    *(#[trigger] it.seq()[j]).1,
                    offset,
                    len as int,
                ) ==> doomed@.contains(*it.seq()[j].0),
            forall|d: int|
                0 <= d < doomed@.len() ==> map.contains_key(#[trigger] doomed@[d]) && overlaps(
                    map[doomed@[d]],
                    offset,
                    len as int,
                ),
    {
        let ghost before = doomed@;
        let (rowid, entry) = pair;
        let hit: bool = entry.offset < offset + len && (offset < entry.offset || offset
            - entry.offset < entry.len);
        assert(hit == overlaps(*entry, offset, len as int));
        if hit {
            doomed.push(*rowid);
        }
        proof {
            assert forall|x: u64| before.contains(x) implies doomed@.contains(x) by {
                let i = choose|i: int| 0 <= i < before.len() && before[i] == x;
                assert(doomed@[i] == x);
            }
            if hit {
                assert(doomed@[before.len() as int] == *rowid);
            }
        }
    }
    let mut k: usize = 0;
    proof {
        assert forall|r: u64| #[trigger] map.contains_key(r) && overlaps(
            map[r],
            offset,
            len as int,
        ) implies doomed@.contains(r) by {}
    }
    while k < doomed.len()
        invariant
            k <= doomed@.len(),
            forall|r: u64| #[trigger]
                index@.contains_key(r) <==> map.contains_key(r) && !doomed@.take(k as int).contains(
                    r,
                ),
            forall|r: u64| #[trigger] index@.contains_key(r) ==> index@[r] == map[r],
        decreases doomed@.len() - k,
    {
        let ghost head = doomed@.take(k as int);
        index.remove(&doomed[k]);
        k = k + 1;
        proof {
            let more = doomed@.take(k as int);
            assert(more =~= head.push(doomed@[k - 1]));
            assert forall|r: u64| more.contains(r) <==> head.contains(r) || r == doomed@[k - 1] by {
                if head.contains(r) {
                    let i = choose|i: int| 0 <= i < head.len() && head[i] == r;
                    assert(more[i] == r);
                }
                assert(more[k - 1] == doomed@[k - 1]);
                if more.contains(r) && r != doomed@[k - 1] {
                    let i = choose|i: int| 0 <= i < more.len() && more[i] == r;
                    assert(head[i] == r);
                }
            }
        }
    }
    proof {
        assert(doomed@.take(k as int) =~= doomed@);
        assert forall|r: u64| doomed@.contains(r) implies map.contains_key(r) && overlaps(
            map[r],
            offset,
            len as int,
        ) by {
            let i = choose|i: int| 0 <= i < doomed@.len() && doomed@[i] == r;
            assert(map.contains_key(doomed@[i]));
        }
        assert(index@ =~= without_range(map, offset, len as int));
    }
}

/// Tests whether the bytes are long enough for what their flag announces.
pub fn is_readable(bytes: &[u8]) -> (r: bool)
    ensures
        r == readable(bytes@),
{
    bytes.len() >= 21 && (bytes[12] == 0 || bytes.len() >= 29)
}

/// Reads an entity from its bytes.
pub fn decode_entity(bytes: &[u8]) -> (r: EntityMeta)
    requires
        readable(bytes@),
    ensures
        r == meta_in(bytes@),
{
    if bytes[12] != 0 {
        let x: u32 = read_u32(bytes, 13);
        let y: u32 = read_u32(bytes, 17);
        let last_access: u64 = read_u64(bytes, 21);
        EntityMeta { position: Some((Float32 { bits: x }, Float32 { bits: y })), last_access }
    } else {
        let last_access: u64 = read_u64(bytes, 13);
        EntityMeta { position: None, last_access }
    }
}

/// Writes an entity as it stands in the cache file.
pub fn encode_entity(rowid: u64, meta: &EntityMeta) -> (r: Vec<u8>)
    ensures
        r@ == entity_bytes(rowid, *meta),
        r@.len() == if meta.position is Some {
            29int
        } else {
            21int
        },
{
    let mut buf: Vec<u8> = Vec::with_capacity(29);
    push_u64(&mut buf, rowid);
    let len: u32 = if meta.position.is_some() {
        17
    } else {
        9
    };
    push_u32(&mut buf, len);
    match meta.position {
        Some((x, y)) => {
            buf.push(1);
            push_u32(&mut buf, x.bits);
            push_u32(&mut buf, y.bits);
        },
        None => {
            buf.push(0);
        },
    }
    push_u64(&mut buf, meta.last_access);
    assert(buf@ =~= entity_bytes(rowid, *meta));
    buf
}

impl WarmTier {
    /// Layout of a new cache file.
    pub fn create(capacity: usize) -> (r: Self)
        ensures
            r.index@ == Map::<u64, CacheEntry>::empty(),
            r.write_offset == 0,
            r.capacity == capacity,
    {
        WarmTier { index: HashMap::new(), write_offset: 0, capacity }
    }

    /// Layout of an existing cache file with the given contents. A file that is
    /// larger than asked for keeps its size.
    pub fn open(capacity: usize, image: &[u8]) -> (r: Self)
        requires
            image@.len() + 8 <= usize::MAX,
        ensures
            r.capacity == if capacity >= image@.len() {
                capacity
            } else {
                image@.len() as usize
            },
            r.index@ == found_in(image@, 0, Map::empty()).0,
            r.write_offset == found_in(image@, 0, Map::empty()).1,
    {
        let capacity: usize = if capacity >= image.len() {
            capacity
        } else {
            image.len()
        };
        let mut tier = WarmTier::create(capacity);
        if image.len() > 0 {
            tier.rebuild_index(image);
            proof {
                lemma_pass_moves_on(image@, 0, Map::empty());
            }
        }
        tier
    }

    /// Rebuilds the index from the contents of the file.
    fn rebuild_index(&mut self, image: &[u8])
        requires
            image@.len() + 8 <= usize::MAX,
        ensures
            final(self).capacity == old(self).capacity,
            final(self).index@ == found_in(image@, 0, Map::empty()).0,
            ({
                let end = found_in(image@, 0, Map::empty()).1;
                final(self).write_offset == if end > old(self).write_offset {
                    end
                } else {
                    old(self).write_offset as int
                }
            }),
    {
        self.index.clear();
        let mut offset: usize = 0;
        let file_len: usize = image.len();
        let ghost goal = found_in(image@, 0, Map::empty());
        assert(self.index@ =~= Map::<u64, CacheEntry>::empty());
        while offset <= file_len && file_len - offset >= 21
            invariant_except_break
                offset <= file_len + 8,
                found_in(image@, offset as int, self.index@) == goal,
            invariant
                file_len == image@.len(),
                file_len + 8 <= usize::MAX,
                self.capacity == old(self).capacity,
                self.write_offset == old(self).write_offset,
            ensures
                self.index@ == goal.0,
                offset == goal.1,
            decreases file_len + 8 - offset,
        {
            let rowid: u64 = read_u64(image, offset);
            let len: u32 = read_u32(image, offset + 8);
            let left: usize = file_len - offset - 12;
            let fitting: u32 = if image[offset + 12] != 0 {
                17
            } else {
                9
            };
            if len != fitting || left < fitting as usize {
                break ;
            }
            self.index.insert(rowid, CacheEntry { offset, len: 12 + len as usize });
            offset = offset + 20 + len as usize;
        }
        if offset > self.write_offset {
            self.write_offset = offset;
        }
    }

    /// Where the next entity of `len` bytes goes: behind the last one, or at
    /// the start where the room does not suffice.
    pub open spec fn place_for(self, len: int) -> usize {
        if self.write_offset + 8 + len > self.capacity {
            0
        } else {
            self.write_offset
        }
    }

    /// Prepares to write an unloaded entity, and says what to write where. The
    /// entities whose bytes are overwritten leave the index.
    pub fn put(&mut self, rowid: u64, meta: &EntityMeta) -> (r: WarmWrite)
        ensures
            r.bytes@ == entity_bytes(rowid, *meta),
            r.offset == old(self).place_for(r.bytes@.len() as int),
            final(self).write_offset == r.offset,
            final(self).capacity == old(self).capacity,
            final(self).index@ == without_range(
                old(self).index@,
                r.offset,
                r.bytes@.len() as int,
            ),
    {
        let bytes: Vec<u8> = encode_entity(rowid, meta);
        let entry_len: usize = 8 + bytes.len();
        if self.capacity < entry_len || self.write_offset > self.capacity - entry_len {
            self.write_offset = 0;
        }
        drop_range(&mut self.index, self.write_offset, bytes.len());
        WarmWrite { offset: self.write_offset, bytes }
    }

    /// Records that the prepared entity was written.
    pub fn put_done(&mut self, rowid: u64, write: &WarmWrite)
        requires
            old(self).write_offset + 8 + write.bytes@.len() <= usize::MAX,
        ensures
            final(self).index@ == old(self).index@.insert(
                rowid,
                (CacheEntry { offset: write.offset, len: write.bytes@.len() as usize }),
            ),
            final(self).write_offset == old(self).write_offset + 8 + write.bytes@.len(),
            final(self).capacity == old(self).capacity,
    {
        let len: usize = write.bytes.len();
        self.index.insert(rowid, CacheEntry { offset: write.offset, len });
        self.write_offset = self.write_offset + (8 + len);
    }

    /// Where an entity lies in the file.
    pub fn get(&self, rowid: u64) -> (r: Option<CacheEntry>)
        ensures
            r == if self.index@.contains_key(rowid) {
                Some(self.index@[rowid])
            } else {
                None
            },
    {
        match self.index.get(&rowid) {
            Some(entry) => Some(*entry),
            None => None,
        }
    }

    /// Forgets an entity.
    pub fn remove(&mut self, rowid: u64)
        ensures
            final(self).index@ == old(self).index@.remove(rowid),
            final(self).write_offset == old(self).write_offset,
            final(self).capacity == old(self).capacity,
    {
        self.index.remove(&rowid);
    }

    /// Number of entities in the file.
    pub fn len(&self) -> (r: usize)
        ensures
            r == self.index@.len(),
    {
        self.index.len()
    }

    /// Tests whether an entity is in the file.
    pub fn contains(&self, rowid: u64) -> (r: bool)
        ensures
            r == self.index@.contains_key(rowid),
    {
        self.index.contains_key(&rowid)
    }
}

proof fn lemma_pass_moves_on(image: Seq<u8>, offset: int, index: Map<u64, CacheEntry>)
    requires
        0 <= offset,
    ensures
        found_in(image, offset, index).1 >= offset,
    decreases image.len() + 8 - offset,
{
    if stands_at(image, offset) {
        let rowid = u64_at(image, offset);
        let len = u32_at(image, offset + 8);
        let entry = CacheEntry { offset: offset as usize, len: (12 + len) as usize };
        lemma_pass_moves_on(image, offset + 20 + len, index.insert(rowid, entry));
    }
}

/// The file after bytes were written at a place. It grows where they do not
/// fit, and holds zeros where nothing was written.
pub open spec fn overwritten(image: Seq<u8>, offset: int, bytes: Seq<u8>) -> Seq<u8> {
    Seq::new(
        if image.len() >= offset + bytes.len() {
            image.len()
        } else {
            (offset + bytes.len()) as nat
        },
        |i: int|
            if offset <= i < offset + bytes.len() {
                bytes[i - offset]
            } else if i < image.len() {
                image[i]
            } else {
                0
            },
    )
}

/// Entities in the order in which they were put.
pub type PutLog = Seq<(u64, EntityMeta)>;

/// Where the entity after those of `log` goes as long as the file does not
/// start over.
pub open spec fn end_after(log: PutLog) -> int
    decreases log.len(),
{
    if log.len() == 0 {
        0
    } else {
        end_after(log.drop_last()) + 8 + entity_bytes(log.last().0, log.last().1).len()
    }
}

/// A file of `size` zeros after the entities of `log` were put into it one
/// behind the other.
pub open spec fn file_after(log: PutLog, size: nat) -> Seq<u8>
    decreases log.len(),
{
    if log.len() == 0 {
        Seq::new(size, |i: int| 0u8)
    } else {
        overwritten(
            file_after(log.drop_last(), size),
            end_after(log.drop_last()),
            entity_bytes(log.last().0, log.last().1),
        )
    }
}

/// The index after the entities of `log` were put one behind the other.
pub open spec fn index_after(log: PutLog) -> Map<u64, CacheEntry>
    decreases log.len(),
{
    if log.len() == 0 {
        Map::empty()
    } else {
        index_after(log.drop_last()).insert(
            log.last().0,
            CacheEntry {
                offset: end_after(log.drop_last()) as usize,
                len: entity_bytes(log.last().0, log.last().1).len() as usize,
            },
        )
    }
}

/// What was put last of each entity.
pub open spec fn last_put(log: PutLog) -> Map<u64, EntityMeta>
    decreases log.len(),
{
    if log.len() == 0 {
        Map::empty()
    } else {
        last_put(log.drop_last()).insert(log.last().0, log.last().1)
    }
}

/// What was put is what a read gives back: in the file as it was written, the
/// recorded place holds the entity.
pub proof fn law_put_reads_back(image: Seq<u8>, offset: int, rowid: u64, meta: EntityMeta)
    requires
        0 <= offset,
    ensures
        ({
            let bytes = entity_bytes(rowid, meta);
            let back = overwritten(image, offset, bytes).subrange(offset, offset + bytes.len());
            readable(back) && meta_in(back) == meta
        }),
{
    let bytes = entity_bytes(rowid, meta);
    law_entity_reads_back(rowid, meta);
    assert(overwritten(image, offset, bytes).subrange(offset, offset + bytes.len()) =~= bytes);
}

/// A put leaves the bytes of every entity that stays in the index as they
/// were, also where the file starts over.
pub proof fn law_put_keeps_others(
    before: WarmTier,
    image: Seq<u8>,
    rowid: u64,
    meta: EntityMeta,
    other: u64,
)
    requires
        ({
            let bytes = entity_bytes(rowid, meta);
            let place = before.place_for(bytes.len() as int);
            without_range(before.index@, place, bytes.len() as int).contains_key(other)
        }),
        before.index@[other].offset + before.index@[other].len <= image.len(),
    ensures
        ({
            let bytes = entity_bytes(rowid, meta);
            let place = before.place_for(bytes.len() as int);
            let e = before.index@[other];
            &&& without_range(before.index@, place, bytes.len() as int)[other] == e
            &&& overwritten(image, place as int, bytes).subrange(
                e.offset as int,
                e.offset + e.len,
            ) == image.subrange(e.offset as int, e.offset + e.len)
        }),
{
    let bytes = entity_bytes(rowid, meta);
    let place = before.place_for(bytes.len() as int);
    let e = before.index@[other];
    assert(overwritten(image, place as int, bytes).subrange(e.offset as int, e.offset + e.len)
        =~= image.subrange(e.offset as int, e.offset + e.len));
}

/// A put that does not start the file over takes the layout after a series of
/// puts to the layout after one put more.
pub proof fn law_put_extends_log(before: WarmTier, log: PutLog, rowid: u64, meta: EntityMeta)
    requires
        before.index@ == index_after(log),
        before.write_offset == end_after(log),
        before.place_for(entity_bytes(rowid, meta).len() as int) == before.write_offset,
    ensures
        ({
            let len = entity_bytes(rowid, meta).len();
            let entry = CacheEntry { offset: before.write_offset, len: len as usize };
            &&& without_range(before.index@, before.write_offset, len as int).insert(rowid, entry)
                == index_after(log.push((rowid, meta)))
            &&& before.write_offset + 8 + len == end_after(log.push((rowid, meta)))
        }),
{
    let len = entity_bytes(rowid, meta).len();
    assert(log.push((rowid, meta)).drop_last() =~= log);
    assert forall|r: u64| #[trigger] index_after(log).contains_key(r) implies !overlaps(
        index_after(log)[r],
        before.write_offset,
        len as int,
    ) by {
        lemma_index_ends_before(log, r);
    }
    assert(without_range(before.index@, before.write_offset, len as int) =~= before.index@);
}

/// A file that was written and is opened again has the layout that the puts
/// left, and its place for the next entity is where the last put left it.
pub proof fn law_reopened_layout(log: PutLog, size: nat)
    requires
        end_after(log) <= usize::MAX,
    ensures
        found_in(file_after(log, size), 0, Map::empty()) == (index_after(log), end_after(log)),
{
    let image = file_after(log, size);
    let n = log.len() as int;
    assert(log.take(0) =~= Seq::<(u64, EntityMeta)>::empty());
    lemma_pass_follows_log(log, size, n);
    assert(log.take(n) =~= log);
    let end = end_after(log);
    if end + 12 <= image.len() {
        assert forall|i: int| end <= i < image.len() implies image[i] == 0 by {
            lemma_zeros_behind(log, size, i);
        }
        assert(u32_at(image, end + 8) == 0);
    }
    lemma_end_grows(log, n);
}

/// Whether an entity with the given rowid can be read at a place of the file.
pub open spec fn reads_at(image: Seq<u8>, e: CacheEntry, rowid: u64) -> bool {
    &&& e.offset + e.len <= image.len()
    &&& readable(image.subrange(e.offset as int, e.offset + e.len))
    &&& u64_at(image, e.offset as int) == rowid
}

/// Whatever a file holds, every place that an open records can be read, and
/// the rowid stands there.
pub proof fn law_found_places_are_readable(image: Seq<u8>, rowid: u64)
    requires
        image.len() <= usize::MAX,
        found_in(image, 0, Map::empty()).0.contains_key(rowid),
    ensures
        reads_at(image, found_in(image, 0, Map::empty()).0[rowid], rowid),
{
    lemma_found_readable(image, 0, Map::empty(), rowid);
}

proof fn lemma_found_readable(
    image: Seq<u8>,
    offset: int,
    index: Map<u64, CacheEntry>,
    rowid: u64,
)
    requires
        0 <= offset,
        image.len() <= usize::MAX,
        found_in(image, offset, index).0.contains_key(rowid),
        index.contains_key(rowid) ==> reads_at(image, index[rowid], rowid),
    ensures
        reads_at(image, found_in(image, offset, index).0[rowid], rowid),
    decreases image.len() + 8 - offset,
{
    if stands_at(image, offset) {
        let found = u64_at(image, offset);
        let len = u32_at(image, offset + 8);
        let entry = CacheEntry { offset: offset as usize, len: (12 + len) as usize };
        let bytes = image.subrange(entry.offset as int, entry.offset + entry.len);
        assert(bytes[12] == image[offset + 12]);
        lemma_found_readable(image, offset + 20 + len, index.insert(found, entry), rowid);
    }
}

/// A cache file can be used again: after puts that did not start it over, an
/// open and a read give back, of each entity that was put and of no other,
/// what was put of it last.
pub proof fn law_reopened_reads_back(log: PutLog, size: nat, rowid: u64)
    requires
        end_after(log) <= usize::MAX,
    ensures
        ({
            let image = file_after(log, size);
            let index = found_in(image, 0, Map::empty()).0;
            let e = index[rowid];
            let back = image.subrange(e.offset as int, e.offset + e.len);
            &&& index.contains_key(rowid) <==> last_put(log).contains_key(rowid)
            &&& index.contains_key(rowid) ==> {
                &&& e.offset + e.len <= image.len()
                &&& readable(back)
                &&& u64_at(back, 0) == rowid
                &&& meta_in(back) == last_put(log)[rowid]
            }
        }),
{
    law_reopened_layout(log, size);
    lemma_index_of_last(log, size, rowid);
}

proof fn lemma_end_grows(log: PutLog, k: int)
    requires
        0 <= k <= log.len(),
    ensures
        0 <= end_after(log.take(k)) <= end_after(log),
        k < log.len() ==> end_after(log.take(k)) + 8 + entity_bytes(log[k].0, log[k].1).len()
            == end_after(log.take(k + 1)) && end_after(log.take(k + 1)) <= end_after(log),
    decreases log.len(),
{
    let n = log.len() as int;
    assert(log.take(n) =~= log);
    if k < n {
        assert(log.take(k + 1).drop_last() =~= log.take(k));
        assert(log.take(k + 1).last() == log[k]);
        lemma_end_grows(log.drop_last(), k);
        assert(log.drop_last().take(k) =~= log.take(k));
        if k + 1 < n {
            assert(log.drop_last().take(k + 1) =~= log.take(k + 1));
        }
    } else if n > 0 {
        lemma_end_grows(log.drop_last(), n - 1);
        assert(log.drop_last().take(n - 1) =~= log.drop_last());
    }
}

/// Each entity of the log stands in the file.
proof fn lemma_entity_stands(log: PutLog, size: nat, k: int)
    requires
        0 <= k < log.len(),
    ensures
        ({
            let at = end_after(log.take(k));
            let bytes = entity_bytes(log[k].0, log[k].1);
            &&& 0 <= at
            &&& at + bytes.len() <= file_after(log, size).len()
            &&& file_after(log, size).subrange(at, at + bytes.len()) == bytes
        }),
    decreases log.len(),
{
    let image = file_after(log, size);
    let rest = log.drop_last();
    let at = end_after(log.take(k));
    let bytes = entity_bytes(log[k].0, log[k].1);
    lemma_end_grows(log, k);
    if k == log.len() - 1 {
        assert(log.take(k) =~= rest);
        assert(image.subrange(at, at + bytes.len()) =~= bytes);
    } else {
        lemma_entity_stands(rest, size, k);
        lemma_end_grows(rest, k);
        assert(rest.take(k) =~= log.take(k));
        assert(rest.take(k + 1) =~= log.take(k + 1));
        let earlier = file_after(rest, size);
        assert forall|i: int| 0 <= i < bytes.len() implies image.subrange(
            at,
            at + bytes.len(),
        )[i] == bytes[i] by {
            assert(image[at + i] == earlier[at + i]);
            assert(earlier.subrange(at, at + bytes.len())[i] == bytes[i]);
        }
        assert(image.subrange(at, at + bytes.len()) =~= bytes);
    }
}

/// Behind the last entity the file holds zeros.
proof fn lemma_zeros_behind(log: PutLog, size: nat, i: int)
    requires
        end_after(log) <= i < file_after(log, size).len(),
    ensures
        file_after(log, size)[i] == 0,
    decreases log.len(),
{
    lemma_end_grows(log, 0);
    if log.len() > 0 {
        let rest = log.drop_last();
        lemma_end_grows(rest, 0);
        if i < file_after(rest, size).len() {
            lemma_zeros_behind(rest, size, i);
        }
    }
}

/// The pass goes on behind an entity that stands in the file.
proof fn lemma_pass_steps(
    image: Seq<u8>,
    at: int,
    index: Map<u64, CacheEntry>,
    rowid: u64,
    bytes: Seq<u8>,
)
    requires
        0 <= at,
        at + bytes.len() <= image.len(),
        bytes.len() == if bytes[12] != 0 {
            29int
        } else {
            21int
        },
        image.subrange(at, at + bytes.len()) == bytes,
        u64_at(bytes, 0) == rowid,
        u32_at(bytes, 8) + 12 == bytes.len(),
    ensures
        found_in(image, at, index) == found_in(
            image,
            at + 8 + bytes.len(),
            index.insert(
                rowid,
                CacheEntry { offset: at as usize, len: bytes.len() as usize },
            ),
        ),
{
    lemma_read_within(image, at, bytes);
    assert(image[at + 12] == image.subrange(at, at + bytes.len())[12]);
}

/// The pass over the file comes by the entities of the log in turn.
proof fn lemma_pass_follows_log(log: PutLog, size: nat, k: int)
    requires
        0 <= k <= log.len(),
        end_after(log) <= usize::MAX,
    ensures
        found_in(file_after(log, size), 0, Map::empty()) == found_in(
            file_after(log, size),
            end_after(log.take(k)),
            index_after(log.take(k)),
        ),
    decreases k,
{
    if k == 0 {
        assert(log.take(0) =~= Seq::<(u64, EntityMeta)>::empty());
    } else {
        let (rowid, meta) = log[k - 1];
        let shorter = log.take(k - 1);
        let longer = log.take(k);
        let bytes = entity_bytes(rowid, meta);
        lemma_pass_follows_log(log, size, k - 1);
        lemma_entity_stands(log, size, k - 1);
        law_entity_reads_back(rowid, meta);
        lemma_pass_steps(
            file_after(log, size),
            end_after(shorter),
            index_after(shorter),
            rowid,
            bytes,
        );
        assert(longer.drop_last() =~= shorter);
        assert(longer.last() == log[k - 1]);
        assert(end_after(longer) == end_after(shorter) + 8 + bytes.len());
        assert(index_after(longer) == index_after(shorter).insert(
            rowid,
            CacheEntry { offset: end_after(shorter) as usize, len: bytes.len() as usize },
        ));
    }
}

/// A number is read inside a part as it is read inside the whole.
proof fn lemma_read_within(image: Seq<u8>, at: int, bytes: Seq<u8>)
    requires
        0 <= at,
        at + bytes.len() <= image.len(),
        bytes.len() >= 12,
        image.subrange(at, at + bytes.len()) == bytes,
    ensures
        u64_at(image, at) == u64_at(bytes, 0),
        u32_at(image, at + 8) == u32_at(bytes, 8),
{
    assert forall|i: int| 0 <= i < 12 implies #[trigger] image[at + i] == bytes[i] by {
        assert(image.subrange(at, at + bytes.len())[i] == bytes[i]);
    }
    assert(image[at + 0] == bytes[0]);
    assert(image[at + 1] == bytes[1]);
    assert(image[at + 2] == bytes[2]);
    assert(image[at + 3] == bytes[3]);
    assert(image[at + 4] == bytes[4]);
    assert(image[at + 5] == bytes[5]);
    assert(image[at + 6] == bytes[6]);
    assert(image[at + 7] == bytes[7]);
    assert(image[at + 8] == bytes[8]);
    assert(image[at + 9] == bytes[9]);
    assert(image[at + 10] == bytes[10]);
    assert(image[at + 11] == bytes[11]);
}

proof fn lemma_index_ends_before(log: PutLog, r: u64)
    requires
        index_after(log).contains_key(r),
        end_after(log) <= usize::MAX,
    ensures
        index_after(log)[r].offset + index_after(log)[r].len <= end_after(log),
    decreases log.len(),
{
    lemma_end_grows(log, 0);
    if log.len() > 0 {
        let rest = log.drop_last();
        lemma_end_grows(rest, 0);
        if log.last().0 != r {
            lemma_index_ends_before(rest, r);
        }
    }
}

/// The index points at what was put last.
proof fn lemma_index_of_last(log: PutLog, size: nat, rowid: u64)
    requires
        end_after(log) <= usize::MAX,
    ensures
        ({
            let image = file_after(log, size);
            let index = index_after(log);
            let e = index[rowid];
            let back = image.subrange(e.offset as int, e.offset + e.len);
            &&& index.contains_key(rowid) <==> last_put(log).contains_key(rowid)
            &&& index.contains_key(rowid) ==> {
                &&& e.offset + e.len <= image.len()
                &&& readable(back)
                &&& u64_at(back, 0) == rowid
                &&& meta_in(back) == last_put(log)[rowid]
            }
        }),
    decreases log.len(),
{
    if log.len() > 0 {
        let rest = log.drop_last();
        let n = log.len() as int;
        let image = file_after(log, size);
        let earlier = file_after(rest, size);
        lemma_end_grows(log, n - 1);
        assert(log.take(n - 1) =~= rest);
        if log.last().0 == rowid {
            lemma_entity_stands(log, size, n - 1);
            law_entity_reads_back(rowid, log.last().1);
        } else {
            lemma_index_of_last(rest, size, rowid);
            if index_after(rest).contains_key(rowid) {
                lemma_index_ends_before(rest, rowid);
                let e = index_after(rest)[rowid];
                assert(image.subrange(e.offset as int, e.offset + e.len) =~= earlier.subrange(
                    e.offset as int,
                    e.offset + e.len,
                ));
            }
        }
    }
}

} // verus!
