//! Graph with its entities, edges and positions in one place.

use std::collections::VecDeque;

use vstd::arithmetic::power2::pow2;
use vstd::prelude::*;

use super::edge_csr::EdgeCsr;
use super::entity_store::{evicted_rows, memory_without, meta_of};
use super::graph_index::{
    below, collect_loaded, edge_bytes, edge_memory_of, loaded, place_rows, placed_rows,
    spatial_bits_for_count, PositionRow,
};
use super::query_ctx::{grow_marks, grown, next_generation};
use super::roster::{
    blanks, evictions, held_of, lemma_oldest_first, lemma_unloaded_bound, lemma_unloaded_fresh,
    lemma_unloaded_update, lemma_unloaded_without, oldest_first, pickable, positioned, unloaded,
    without, EntityMeta, Roster,
};
use super::rows::EdgeRow;
use super::sorted::{ascending, sort_unique};
use super::spatial_index::{live_flags, Placed, SpatialIndex};
use super::traversal::{
    bfs_impl, bfs_order, csr_next, discover, mark_all, marked, rowids_of,
};
use crate::ecs::pending::StorageId;
use crate::float::Float32;

verus! {

/// Graph in memory. The edges always stay; entities can be unloaded and loaded
/// again.
pub struct HotTier {
    pub roster: Roster,
    pub edge_csr: EdgeCsr,
    pub spatial_index: Option<SpatialIndex>,
    /// Bytes in use, by estimate.
    pub memory_used: usize,
    /// Bytes beyond which entities are unloaded.
    pub memory_threshold: usize,
    /// Counts accesses.
    pub access_clock: u64,
    pub spatial_buf: Vec<u32>,
    pub seen_set: Vec<u32>,
    pub seen_gen: u32,
    pub visit_buf: Vec<u32>,
    pub queue_buf: VecDeque<(u32, u32)>,
}

/// The entities and the clock after one access.
pub open spec fn touch(
    metas: Seq<Option<EntityMeta>>,
    clock: int,
    number: Option<u32>,
) -> (Seq<Option<EntityMeta>>, int) {
    match meta_of(metas, number) {
        Some(meta) => (
            metas.update(
                number->0 as int,
                Some(EntityMeta { position: meta.position, last_access: (clock + 1) as u64 }),
            ),
            clock + 1,
        ),
        None => (metas, clock),
    }
}

/// The entities and the clock after accesses to the given rowids.
pub open spec fn touch_all(
    csr: EdgeCsr,
    metas: Seq<Option<EntityMeta>>,
    clock: int,
    rowids: Seq<u64>,
) -> (Seq<Option<EntityMeta>>, int)
    decreases rowids.len(),
{
    if rowids.len() == 0 {
        (metas, clock)
    } else {
        let before = touch_all(csr, metas, clock, rowids.drop_last());
        touch(before.0, before.1, csr.number_of(rowids.last()))
    }
}

/// Rowids of the loaded entities among those found.
pub open spec fn hit(
    rowids: Seq<u64>,
    metas: Seq<Option<EntityMeta>>,
    found: Seq<u32>,
    rowid: u64,
) -> bool {
    exists|k: int|
        0 <= k < found.len() && (#[trigger] found[k]) < metas.len() && metas[found[k] as int] is Some
            && rowids[found[k] as int] == rowid
}

impl HotTier {
    /// Whether the parts are sound and speak of the same entities.
    pub open spec fn wf(self) -> bool {
        &&& self.roster.wf()
        &&& self.edge_csr.wf()
        &&& self.spatial_index is Some ==> self.spatial_index->0.wf()
        &&& self.roster.metas().len() == self.edge_csr.entity_rowids@.len()
    }

    /// Whether the bytes of all entities can be counted when those that are not
    /// loaded come back.
    pub open spec fn has_room(self) -> bool {
        let metas = self.roster.metas();
        &&& self.memory_used + EntityMeta::BYTES * unloaded(metas) <= usize::MAX
        &&& EntityMeta::BYTES * metas.len() <= usize::MAX
    }

    /// What is held of an entity, by its rowid.
    pub open spec fn held(self, rowid: u64) -> Option<EntityMeta> {
        meta_of(self.roster.metas(), self.edge_csr.number_of(rowid))
    }

    /// Whether everything but the entities, the memory and the clock is as in
    /// `other`.
    pub open spec fn same_graph(self, other: HotTier) -> bool {
        &&& self.edge_csr == other.edge_csr
        &&& self.spatial_index == other.spatial_index
        &&& self.memory_threshold == other.memory_threshold
    }

    /// Whether the marks that spatial queries keep are as in `other`.
    pub open spec fn same_marks(self, other: HotTier) -> bool {
        &&& self.seen_set == other.seen_set
        &&& self.seen_gen == other.seen_gen
    }

    /// No entities.
    pub fn empty(id: StorageId) -> (r: Self)
        ensures
            r.wf(),
            r.has_room(),
            r.roster.unused(),
            r.roster.metas() == Seq::<Option<EntityMeta>>::empty(),
            r.edge_csr.entity_rowids@ == Seq::<u64>::empty(),
            r.seen_set@ == Seq::<u32>::empty(),
            r.spatial_index is None,
            r.memory_used == 0,
            r.memory_threshold == usize::MAX,
            r.access_clock == 0,
            r.seen_gen == 0,
    {
        HotTier {
            roster: Roster::with_capacity(0, id),
            edge_csr: EdgeCsr::empty(),
            spatial_index: None,
            memory_used: 0,
            memory_threshold: usize::MAX,
            access_clock: 0,
            spatial_buf: Vec::new(),
            seen_set: Vec::new(),
            seen_gen: 0,
            visit_buf: Vec::new(),
            queue_buf: VecDeque::new(),
        }
    }

    /// Loads a graph from the entity rowids, the edge rows and the position
    /// rows.
    pub fn load(
        rowids: &[u64],
        rows: &[EdgeRow],
        positions: &[PositionRow],
        id: StorageId,
    ) -> (r: Self)
        requires
            rowids.len() <= u32::MAX,
            rows.len() <= u32::MAX,
            positions.len() <= u32::MAX,
            28 * rows.len() + 8 * (rowids.len() + 1) + 24 * rowids.len() <= usize::MAX,
        ensures
            r.wf(),
            r.has_room(),
            r.roster.unused(),
            r.edge_csr.entity_rowids@ == rowids@,
            r.edge_csr.holds_rows(rows@),
            r.roster.metas() == positioned(
                blanks(rowids@.len()),
                placed_rows(positions@, r.edge_csr.entity_by_rowid@),
            ),
            r.memory_used == 24 * rowids@.len() + edge_bytes(r.edge_csr),
            r.memory_threshold == usize::MAX,
            r.access_clock == 0,
            r.seen_set@ == Seq::<u32>::empty(),
            r.seen_gen == 0,
            r.spatial_index is Some <==> positions.len() > 0,
            match r.spatial_index {
                Some(index) => {
                    &&& index.holds(placed_rows(positions@, r.edge_csr.entity_by_rowid@))
                    &&& 4 <= index.bits <= 8
                    &&& index.bits > 4 ==> pow2((2 * index.bits - 1) as nat) <= rowids.len()
                    &&& index.bits < 8 ==> rowids.len() < pow2((2 * index.bits + 1) as nat)
                },
                None => true,
            },
    {
        let mut this = HotTier::empty(id);
        this.edge_csr = EdgeCsr::load(rowids, rows);
        this.roster.add_blanks(rowids.len());
        assert(Seq::<Option<EntityMeta>>::empty() + blanks(rowids@.len()) =~= blanks(
            rowids@.len(),
        ));
        proof {
            this.edge_csr.lemma_edge_count(rows@);
        }
        proof {
            lemma_unloaded_fresh(
                rowids@.len(),
                placed_rows(positions@, this.edge_csr.entity_by_rowid@),
            );
        }
        this.memory_used = rowids.len() * EntityMeta::BYTES + edge_memory_of(&this.edge_csr);
        if positions.len() > 0 {
            let placed: Vec<Placed> = place_rows(&this.edge_csr, positions);
            this.roster.place(placed.as_slice());
            let bits: u16 = spatial_bits_for_count(rowids.len());
            this.spatial_index = Some(SpatialIndex::build(placed.as_slice(), bits));
        } else {
            assert(positions@ =~= Seq::<PositionRow>::empty());
        }
        this
    }

    /// What is held of an entity, if it is loaded.
    pub fn get_entity_readonly(&self, rowid: u64) -> (r: Option<&EntityMeta>)
        requires
            self.wf(),
        ensures
            match r {
                Some(meta) => self.held(rowid) == Some(*meta),
                None => self.held(rowid) is None,
            },
    {
        match self.edge_csr.find_entity_index(rowid) {
            Some(i) => self.roster.get(i as usize),
            None => None,
        }
    }

    /// Counts an access to an entity and returns what is held of it, if it is
    /// loaded.
    pub fn get_entity(&mut self, rowid: u64) -> (r: Option<&EntityMeta>)
        requires
            old(self).wf(),
            old(self).access_clock < u64::MAX,
        ensures
            final(self).wf(),
            final(self).same_graph(*old(self)),
            final(self).same_marks(*old(self)),
            final(self).memory_used == old(self).memory_used,
            final(self).roster.same_slots(old(self).roster),
            old(self).has_room() ==> final(self).has_room(),
            (final(self).roster.metas(), final(self).access_clock as int) == touch(
                old(self).roster.metas(),
                old(self).access_clock as int,
                old(self).edge_csr.number_of(rowid),
            ),
            match r {
                Some(meta) => final(self).held(rowid) == Some(*meta),
                None => old(self).held(rowid) is None,
            },
    {
        self.record_access(rowid);
        self.get_entity_readonly(rowid)
    }

    /// Counts an access to an entity, if it is loaded.
    fn record_access(&mut self, rowid: u64)
        requires
            old(self).wf(),
            old(self).access_clock < u64::MAX,
        ensures
            final(self).wf(),
            final(self).same_graph(*old(self)),
            final(self).same_marks(*old(self)),
            final(self).memory_used == old(self).memory_used,
            final(self).roster.same_slots(old(self).roster),
            old(self).has_room() ==> final(self).has_room(),
            (final(self).roster.metas(), final(self).access_clock as int) == touch(
                old(self).roster.metas(),
                old(self).access_clock as int,
                old(self).edge_csr.number_of(rowid),
            ),
    {
        if let Some(i) = self.edge_csr.find_entity_index(rowid) {
            proof {
                if i < self.roster.metas().len() {
                    lemma_unloaded_update(self.roster.metas(), i as int);
                }
            }
            if let Some(meta) = self.roster.get_mut(i as usize) {
                self.access_clock = self.access_clock + 1;
                meta.last_access = self.access_clock;
            }
        }
    }

    /// Counts an access to an entity and returns what is held of it, for
    /// change, if it is loaded.
    pub fn get_entity_mut(&mut self, rowid: u64) -> (r: Option<&mut EntityMeta>)
        requires
            old(self).wf(),
            old(self).access_clock < u64::MAX,
        ensures
            final(self).wf(),
            final(self).same_graph(*old(self)),
            final(self).same_marks(*old(self)),
            final(self).memory_used == old(self).memory_used,
            final(self).roster.same_slots(old(self).roster),
            old(self).has_room() ==> final(self).has_room(),
            match r {
                Some(meta) => {
                    let i = old(self).edge_csr.number_of(rowid)->0 as int;
                    &&& old(self).held(rowid) is Some
                    &&& meta.position == old(self).held(rowid)->0.position
                    &&& meta.last_access == old(self).access_clock + 1
                    &&& final(self).access_clock == old(self).access_clock + 1
                    &&& final(self).roster.metas() == old(self).roster.metas().update(
                        i,
                        Some(*final(meta)),
                    )
                },
                None => {
                    &&& old(self).held(rowid) is None
                    &&& final(self).roster.metas() == old(self).roster.metas()
                    &&& final(self).access_clock == old(self).access_clock
                },
            },
    {
        match self.edge_csr.find_entity_index(rowid) {
            Some(i) => {
                proof {
                    if i < self.roster.metas().len() {
                        lemma_unloaded_update(self.roster.metas(), i as int);
                    }
                }
                match self.roster.get_mut(i as usize) {
                    Some(meta) => {
                        self.access_clock = self.access_clock + 1;
                        meta.last_access = self.access_clock;
                        Some(meta)
                    },
                    None => None,
                }
            },
            None => None,
        }
    }

    /// Counts an access to each of the entities that are loaded.
    pub fn touch_entities(&mut self, rowids: &[u64])
        requires
            old(self).wf(),
            old(self).access_clock + rowids.len() <= u64::MAX,
        ensures
            final(self).wf(),
            final(self).same_graph(*old(self)),
            final(self).same_marks(*old(self)),
            final(self).memory_used == old(self).memory_used,
            final(self).roster.same_slots(old(self).roster),
            old(self).has_room() ==> final(self).has_room(),
            (final(self).roster.metas(), final(self).access_clock as int) == touch_all(
                old(self).edge_csr,
                old(self).roster.metas(),
                old(self).access_clock as int,
                rowids@,
            ),
    {
        let mut k: usize = 0;
        assert(rowids@.take(0) =~= Seq::<u64>::empty());
        while k < rowids.len()
            invariant
                k <= rowids@.len(),
                self.wf(),
                self.same_graph(*old(self)),
                self.same_marks(*old(self)),
                self.memory_used == old(self).memory_used,
                self.roster.same_slots(old(self).roster),
                old(self).has_room() ==> self.has_room(),
                old(self).access_clock + rowids@.len() <= u64::MAX,
                self.access_clock <= old(self).access_clock + k,
                (self.roster.metas(), self.access_clock as int) == touch_all(
                    old(self).edge_csr,
                    old(self).roster.metas(),
                    old(self).access_clock as int,
                    rowids@.take(k as int),
                ),
            decreases rowids@.len() - k,
        {
            assert(rowids@.take(k + 1).drop_last() =~= rowids@.take(k as int));
            self.record_access(rowids[k]);
            k = k + 1;
        }
        assert(rowids@.take(k as int) =~= rowids@);
    }

    /// Tests whether an entity is loaded.
    pub fn is_loaded(&self, rowid: u64) -> (r: bool)
        requires
            self.wf(),
        ensures
            r == self.held(rowid) is Some,
    {
        self.get_entity_readonly(rowid).is_some()
    }

    /// Position of an entity, if it is loaded and has one.
    pub fn position_of(&self, rowid: u64) -> (r: Option<(Float32, Float32)>)
        requires
            self.wf(),
        ensures
            r == match self.held(rowid) {
                Some(meta) => meta.position,
                None => None,
            },
    {
        match self.get_entity_readonly(rowid) {
            Some(meta) => meta.position,
            None => None,
        }
    }

    /// Loads an entity anew with the given position; `None` if the graph does
    /// not have it.
    pub fn reload_entity(&mut self, rowid: u64, position: Option<(Float32, Float32)>) -> (r: Option<
        (),
    >)
        requires
            old(self).wf(),
            match old(self).edge_csr.number_of(rowid) {
                Some(i) => {
                    &&& old(self).roster.can_unload(i as int)
                    &&& old(self).memory_used + EntityMeta::BYTES <= usize::MAX || (old(
                        self,
                    ).has_room() && old(self).held(rowid) is None)
                },
                None => true,
            },
        ensures
            final(self).wf(),
            old(self).has_room() && old(self).held(rowid) is None ==> final(self).has_room(),
            final(self).same_graph(*old(self)),
            final(self).same_marks(*old(self)),
            final(self).access_clock == old(self).access_clock,
            r is Some <==> old(self).edge_csr.number_of(rowid) is Some,
            match old(self).edge_csr.number_of(rowid) {
                Some(i) => {
                    &&& final(self).roster.metas() == old(self).roster.metas().update(
                        i as int,
                        Some(EntityMeta { position, last_access: old(self).access_clock }),
                    )
                    &&& old(self).roster.reloads(i as int, final(self).roster)
                    &&& final(self).memory_used == old(self).memory_used + EntityMeta::BYTES
                },
                None => *final(self) == *old(self),
            },
    {
        match self.edge_csr.find_entity_index(rowid) {
            Some(i) => {
                proof {
                    let metas = self.roster.metas();
                    let meta = EntityMeta { position, last_access: self.access_clock };
                    lemma_unloaded_update(metas, i as int);
                    assert(unloaded(metas.update(i as int, Some(meta))) >= 0);
                }
                self.roster.put(
                    i as usize,
                    EntityMeta { position, last_access: self.access_clock },
                );
                self.memory_used = self.memory_used + EntityMeta::BYTES;
                Some(())
            },
            None => None,
        }
    }

    /// Unloads the `count` longest unused entities and returns their rowids and
    /// what was held of them.
    pub fn evict_lru(&mut self, count: usize) -> (r: Vec<(u64, EntityMeta)>)
        requires
            old(self).wf(),
            old(self).roster.epochs_left(),
        ensures
            final(self).wf(),
            old(self).has_room() ==> final(self).has_room(),
            final(self).roster.epochs_left(),
            final(self).same_graph(*old(self)),
            final(self).same_marks(*old(self)),
            final(self).access_clock == old(self).access_clock,
            final(self).memory_used == memory_without(old(self).memory_used as int, r@.len() as int),
            exists|list: Seq<(u32, u64)>, gone: Seq<(u32, EntityMeta)>|
                {
                    &&& #[trigger] oldest_first(list, old(self).roster.metas())
                    &&& old(self).roster.unloads(
                        evictions(list, count as int),
                        final(self).roster,
                    )
                    &&& final(self).roster.metas() == without(
                        old(self).roster.metas(),
                        evictions(list, count as int),
                    )
                    &&& held_of(gone, old(self).roster.metas(), evictions(list, count as int))
                    &&& #[trigger] evicted_rows(r@, gone, old(self).edge_csr.entity_rowids@)
                },
    {
        let ghost metas = self.roster.metas();
        let gone: Vec<(u32, EntityMeta)> = self.roster.evict_oldest(count);
        proof {
            let list = choose|list: Seq<(u32, u64)>|
                {
                    &&& #[trigger] oldest_first(list, metas)
                    &&& self.roster.metas() == without(metas, evictions(list, count as int))
                    &&& held_of(gone@, metas, evictions(list, count as int))
                };
            lemma_oldest_first(list, metas);
            let picks = evictions(list, count as int);
            assert(pickable(metas, picks));
            lemma_unloaded_without(metas, picks);
            lemma_unloaded_bound(self.roster.metas());
        }
        let mut evicted: Vec<(u64, EntityMeta)> = Vec::with_capacity(gone.len());
        let mut memory: usize = self.memory_used;
        let mut k: usize = 0;
        while k < gone.len()
            invariant
                k <= gone@.len(),
                evicted@.len() == k,
                memory == memory_without(old(self).memory_used as int, k as int),
                forall|j: int|
                    0 <= j < k ==> (#[trigger] evicted@[j]).1 == gone@[j].1 && evicted@[j].0
                        == if gone@[j].0 < self.edge_csr.entity_rowids@.len() {
                        self.edge_csr.entity_rowids@[gone@[j].0 as int]
                    } else {
                        0
                    },
            decreases gone@.len() - k,
        {
            let (i, meta): (u32, EntityMeta) = gone[k];
            evicted.push((self.edge_csr.entity_rowid(i), meta));
            memory = memory.saturating_sub(EntityMeta::BYTES);
            k = k + 1;
        }
        self.memory_used = memory;
        assert(evicted_rows(evicted@, gone@, old(self).edge_csr.entity_rowids@));
        evicted
    }

    /// Tests whether more memory is in use than allowed.
    pub fn over_threshold(&self) -> (r: bool)
        ensures
            r == (self.memory_used > self.memory_threshold),
    {
        self.memory_used > self.memory_threshold
    }

    /// Rowids within `max_depth` steps of the start, nearest first; none if the
    /// start is unknown.
    pub open spec fn reached(self, start_rowid: u64, max_depth: u32, labels: Seq<u32>) -> Seq<u64> {
        match self.edge_csr.number_of(start_rowid) {
            Some(start) => rowids_of(
                self.edge_csr.entity_rowids@,
                bfs_order(
                    csr_next(self.edge_csr, labels),
                    start as int,
                    Set::empty(),
                    max_depth as nat,
                ),
            ),
            None => Seq::empty(),
        }
    }

    /// Rowids within `max_depth` steps of the start, along edges whose labels
    /// pass, nearest first.
    pub fn traverse_bfs(&self, start_rowid: u64, max_depth: u32, edge_labels: &[u32]) -> (r: Vec<
        u64,
    >)
        requires
            self.wf(),
        ensures
            r@ == self.reached(start_rowid, max_depth, edge_labels@),
    {
        let mut result: Vec<u64> = Vec::new();
        let mut visited: Vec<u32> = vec![0u32; self.edge_csr.entity_count()];
        let mut queue: VecDeque<(u32, u32)> = VecDeque::new();
        assert(marked(visited@, 1) =~= Set::<int>::empty());
        bfs_impl(
            &self.edge_csr,
            start_rowid,
            max_depth,
            edge_labels,
            &mut visited,
            1,
            &mut queue,
            &mut result,
        );
        assert(result@ =~= self.reached(start_rowid, max_depth, edge_labels@));
        result
    }

    /// As `traverse_bfs`, with buffers that are kept.
    pub fn traverse_bfs_into(
        &mut self,
        start_rowid: u64,
        max_depth: u32,
        edge_labels: &[u32],
        out: &mut Vec<u64>,
    )
        requires
            old(self).wf(),
        ensures
            final(self).wf(),
            final(self).same_graph(*old(self)),
            final(self).same_marks(*old(self)),
            final(self).roster == old(self).roster,
            final(self).memory_used == old(self).memory_used,
            final(self).access_clock == old(self).access_clock,
            final(out)@ == old(self).reached(start_rowid, max_depth, edge_labels@),
    {
        out.clear();
        let entity_count: usize = self.edge_csr.entity_count();
        self.visit_buf.clear();
        self.visit_buf.resize(entity_count, 0);
        self.queue_buf.clear();
        assert(marked(self.visit_buf@, 1) =~= Set::<int>::empty());
        bfs_impl(
            &self.edge_csr,
            start_rowid,
            max_depth,
            edge_labels,
            &mut self.visit_buf,
            1,
            &mut self.queue_buf,
            out,
        );
        assert(out@ =~= old(self).reached(start_rowid, max_depth, edge_labels@));
    }

    /// Rowids of the loaded entities in the cells that a query looks at, in
    /// ascending order.
    pub fn query_spatial(
        &self,
        min_x: Float32,
        min_y: Float32,
        max_x: Float32,
        max_y: Float32,
        lod: u16,
    ) -> (r: Vec<u64>)
        requires
            self.wf(),
            lod < 32,
        ensures
            ascending(r@),
            match self.spatial_index {
                Some(index) => forall|rowid: u64| #[trigger]
                    r@.contains(rowid) <==> hit(
                        self.edge_csr.entity_rowids@,
                        self.roster.metas(),
                        index.numbers_in(index.window(min_x, min_y, max_x, max_y, lod).cells()),
                        rowid,
                    ),
                None => r@ == Seq::<u64>::empty(),
            },
    {
        match &self.spatial_index {
            None => Vec::new(),
            Some(index) => {
                let mut indices: Vec<u32> = Vec::new();
                index.query_bounds_into(min_x, min_y, max_x, max_y, lod, &mut indices);
                let ghost metas = self.roster.metas();
                let ghost all = self.edge_csr.entity_rowids@;
                let mut rowids: Vec<u64> = Vec::with_capacity(indices.len());
                let mut k: usize = 0;
                while k < indices.len()
                    invariant
                        self.wf(),
                        metas == self.roster.metas(),
                        all == self.edge_csr.entity_rowids@,
                        k <= indices@.len(),
                        forall|rowid: u64| #[trigger]
                            rowids@.contains(rowid) <==> hit(
                                all,
                                metas,
                                indices@.take(k as int),
                                rowid,
                            ),
                    decreases indices@.len() - k,
                {
                    let i: usize = indices[k] as usize;
                    let ghost before = rowids@;
                    let ghost head = indices@.take(k as int);
                    if self.roster.get(i).is_some() {
                        rowids.push(self.edge_csr.entity_rowids[i]);
                    }
                    k = k + 1;
                    proof {
                        assert(indices@.take(k as int) =~= head.push(i as u32));
                        assert forall|rowid: u64| #[trigger] rowids@.contains(rowid) <==> hit(
                            all,
                            metas,
                            indices@.take(k as int),
                            rowid,
                        ) by {
                            lemma_hit_push(all, metas, head, i as u32, rowid);
                            if before.contains(rowid) {
                                let j = choose|j: int| 0 <= j < before.len() && before[j] == rowid;
                                assert(rowids@[j] == rowid);
                            }
                            if rowids@.len() > before.len() {
                                assert(rowids@[before.len() as int] == all[i as int]);
                                if rowids@.contains(rowid) && rowid != all[i as int] {
                                    let j = choose|j: int|
                                        0 <= j < rowids@.len() && rowids@[j] == rowid;
                                    assert(before[j] == rowid);
                                }
                            }
                        }
                    }
                }
                assert(indices@.take(k as int) =~= indices@);
                sort_unique(rowids)
            },
        }
    }

    /// Rowids of the loaded entities in the cells that a query looks at, each
    /// once, with buffers that are kept.
    pub fn query_spatial_into(
        &mut self,
        min_x: Float32,
        min_y: Float32,
        max_x: Float32,
        max_y: Float32,
        lod: u16,
        out: &mut Vec<u64>,
    )
        requires
            old(self).wf(),
            lod < 32,
        ensures
            final(self).wf(),
            final(self).same_graph(*old(self)),
            final(self).roster == old(self).roster,
            final(self).memory_used == old(self).memory_used,
            final(self).access_clock == old(self).access_clock,
            match old(self).spatial_index {
                None => {
                    &&& final(out)@ == Seq::<u64>::empty()
                    &&& *final(self) == *old(self)
                },
                Some(index) => {
                    let n = old(self).edge_csr.entity_rowids@.len() as int;
                    let found = index.numbers_in(
                        index.window(min_x, min_y, max_x, max_y, lod).cells(),
                    );
                    if found.len() == 0 || n == 0 {
                        &&& final(out)@ == Seq::<u64>::empty()
                        &&& final(self).seen_set == old(self).seen_set
                        &&& final(self).seen_gen == old(self).seen_gen
                    } else {
                        let marks = grown(old(self).seen_set@, n);
                        let generation = next_generation(old(self).seen_gen);
                        let fresh = discover(below(found, n), marked(marks, generation));
                        &&& final(self).seen_gen == generation
                        &&& final(self).seen_set@ == mark_all(marks, fresh, generation)
                        &&& final(out)@ == rowids_of(
                            old(self).edge_csr.entity_rowids@,
                            loaded(fresh, live_flags(old(self).roster.entity_ptrs@)),
                        )
                    }
                },
            },
    {
        out.clear();
        if let Some(index) = &self.spatial_index {
            index.query_bounds_into(min_x, min_y, max_x, max_y, lod, &mut self.spatial_buf);
            let entity_count: usize = self.edge_csr.entity_rowids.len();
            if self.spatial_buf.len() == 0 || entity_count == 0 {
                return ;
            }
            self.seen_gen = if self.seen_gen == u32::MAX {
                0
            } else {
                self.seen_gen + 1
            };
            grow_marks(&mut self.seen_set, entity_count);
            collect_loaded(
                &self.edge_csr.entity_rowids,
                &self.spatial_buf,
                self.roster.entity_ptrs.as_slice(),
                &mut self.seen_set,
                self.seen_gen,
                out,
            );
        }
    }
}

proof fn lemma_hit_push(
    rowids: Seq<u64>,
    metas: Seq<Option<EntityMeta>>,
    found: Seq<u32>,
    i: u32,
    rowid: u64,
)
    ensures
        hit(rowids, metas, found.push(i), rowid) <==> hit(rowids, metas, found, rowid) || (i
            < metas.len() && metas[i as int] is Some && rowids[i as int] == rowid),
{
    let more = found.push(i);
    if hit(rowids, metas, found, rowid) {
        let k = choose|k: int|
            0 <= k < found.len() && (#[trigger] found[k]) < metas.len() && metas[found[k] as int]
                is Some && rowids[found[k] as int] == rowid;
        assert(more[k] == found[k]);
    }
    assert(more[found.len() as int] == i);
    if hit(rowids, metas, more, rowid) {
        let k = choose|k: int|
            0 <= k < more.len() && (#[trigger] more[k]) < metas.len() && metas[more[k] as int]
                is Some && rowids[more[k] as int] == rowid;
        if k < found.len() {
            assert(found[k] == more[k]);
        }
    }
}

} // verus!
