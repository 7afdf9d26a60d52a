//! Loading, unloading and memory accounting of entities.

use vstd::prelude::*;

use super::graph_index::GraphIndex;
use super::roster::{
    blanks, evictions, held_of, oldest_first, positioned, without, EntityMeta, Roster,
};
use super::spatial_index::Placed;
use crate::ecs::pending::StorageId;
use crate::float::Float32;

verus! {

/// Mutable part of a loaded graph.
pub struct EntityStore {
    pub roster: Roster,
    /// Bytes in use, by estimate.
    pub memory_used: usize,
    /// Bytes beyond which entities are unloaded.
    pub memory_threshold: usize,
    pub access_clock: u64,
}

/// What is held of an entity, by its rowid.
pub open spec fn meta_of(
    metas: Seq<Option<EntityMeta>>,
    number: Option<u32>,
) -> Option<EntityMeta> {
    match number {
        Some(i) => if i < metas.len() {
            metas[i as int]
        } else {
            None
        },
        None => None,
    }
}

/// Bytes left after `count` entities were unloaded, at least zero.
pub open spec fn memory_without(memory: int, count: int) -> int {
    if memory >= EntityMeta::BYTES * count {
        memory - EntityMeta::BYTES * count
    } else {
        0
    }
}

/// What was unloaded can be loaded anew: as many entities as were unloaded fit
/// into the count of bytes again.
pub proof fn law_unloaded_bytes_come_back(memory: usize, unloaded: int, reloaded: int)
    requires
        0 <= reloaded <= unloaded,
        EntityMeta::BYTES * unloaded <= usize::MAX,
    ensures
        memory_without(memory as int, unloaded) + EntityMeta::BYTES * reloaded <= usize::MAX,
{
}

/// Whether `evicted` gives the rowids of the unloaded entities and what was
/// held of them.
pub open spec fn evicted_rows(
    evicted: Seq<(u64, EntityMeta)>,
    gone: Seq<(u32, EntityMeta)>,
    rowids: Seq<u64>,
) -> bool {
    &&& evicted.len() == gone.len()
    &&& forall|k: int|
        0 <= k < gone.len() ==> (#[trigger] evicted[k]).1 == gone[k].1 && evicted[k].0 == if gone[k].0
            < rowids.len() {
            rowids[gone[k].0 as int]
        } else {
            0
        }
}

impl EntityStore {
    pub open spec fn wf(self) -> bool {
        self.roster.wf()
    }

    /// No entities.
    pub fn with_capacity(capacity: usize, memory_threshold: usize, id: StorageId) -> (r: Self)
        ensures
            r.wf(),
            r.roster.unused(),
            r.roster.metas() == Seq::<Option<EntityMeta>>::empty(),
            r.memory_used == 0,
            r.memory_threshold == memory_threshold,
            r.access_clock == 0,
    {
        EntityStore {
            roster: Roster::with_capacity(capacity, id),
            memory_used: 0,
            memory_threshold,
            access_clock: 0,
        }
    }

    /// Adds `entity_count` entities and gives the placed ones their positions.
    pub fn populate(&mut self, entity_count: usize, pos_pairs: &[Placed])
        requires
            old(self).wf(),
            old(self).roster.metas().len() + entity_count <= u32::MAX,
            old(self).memory_used + entity_count * EntityMeta::BYTES <= usize::MAX,
        ensures
            final(self).wf(),
            old(self).roster.unused() ==> final(self).roster.unused(),
            final(self).roster.metas() == positioned(
                old(self).roster.metas() + blanks(entity_count as nat),
                pos_pairs@,
            ),
            final(self).roster.metas().len() == old(self).roster.metas().len() + entity_count,
            final(self).memory_used == old(self).memory_used + entity_count * EntityMeta::BYTES,
            final(self).memory_threshold == old(self).memory_threshold,
            final(self).access_clock == old(self).access_clock,
    {
        self.roster.add_blanks(entity_count);
        self.roster.place(pos_pairs);
        self.memory_used = self.memory_used + entity_count * EntityMeta::BYTES;
    }

    /// What is held of an entity, if it is loaded.
    pub fn get_entity_readonly(&self, rowid: u64, index: &GraphIndex) -> (r: Option<&EntityMeta>)
        requires
            self.wf(),
        ensures
            match r {
                Some(meta) => meta_of(self.roster.metas(), index.edge_csr.number_of(rowid)) == Some(
                    *meta,
                ),
                None => meta_of(self.roster.metas(), index.edge_csr.number_of(rowid)) is None,
            },
    {
        match index.find_entity_index(rowid) {
            Some(i) => self.roster.get(i as usize),
            None => None,
        }
    }

    /// Loads an entity anew with the given position; `None` if the graph does
    /// not have it.
    pub fn reload_entity(
        &mut self,
        rowid: u64,
        position: Option<(Float32, Float32)>,
        index: &GraphIndex,
    ) -> (r: Option<()>)
        requires
            old(self).wf(),
            match index.edge_csr.number_of(rowid) {
                Some(i) => i < old(self).roster.metas().len() && old(self).roster.can_unload(
                    i as int,
                ) && old(self).memory_used + EntityMeta::BYTES <= usize::MAX,
                None => true,
            },
        ensures
            final(self).wf(),
            r is Some <==> index.edge_csr.number_of(rowid) is Some,
            match index.edge_csr.number_of(rowid) {
                Some(i) => {
                    &&& final(self).roster.metas() == old(self).roster.metas().update(
                        i as int,
                        Some(EntityMeta { position, last_access: old(self).access_clock }),
                    )
                    &&& old(self).roster.reloads(i as int, final(self).roster)
                    &&& final(self).memory_used == old(self).memory_used + EntityMeta::BYTES
                    &&& final(self).memory_threshold == old(self).memory_threshold
                    &&& final(self).access_clock == old(self).access_clock
                },
                None => *final(self) == *old(self),
            },
    {
        match index.find_entity_index(rowid) {
            Some(i) => {
                self.roster.put(
                    i as usize,
                    EntityMeta { position, last_access: self.access_clock },
                );
                self.memory_used = self.memory_used + EntityMeta::BYTES;
                Some(())
            },
            None => None,
        }
    }

    /// Unloads the `count` longest unused entities and returns their rowids and
    /// what was held of them.
    pub fn evict_lru(&mut self, count: usize, index: &GraphIndex) -> (r: Vec<(u64, EntityMeta)>)
        requires
            old(self).wf(),
            old(self).roster.epochs_left(),
        ensures
            final(self).wf(),
            final(self).roster.epochs_left(),
            final(self).memory_threshold == old(self).memory_threshold,
            final(self).access_clock == old(self).access_clock,
            final(self).memory_used == memory_without(old(self).memory_used as int, r@.len() as int),
            exists|list: Seq<(u32, u64)>, gone: Seq<(u32, EntityMeta)>|
                {
                    &&& #[trigger] oldest_first(list, old(self).roster.metas())
                    &&& old(self).roster.unloads(
                        evictions(list, count as int),
                        final(self).roster,
                    )
                    &&& final(self).roster.metas() == without(
                        old(self).roster.metas(),
                        evictions(list, count as int),
                    )
                    &&& held_of(gone, old(self).roster.metas(), evictions(list, count as int))
                    &&& #[trigger] evicted_rows(r@, gone, index.edge_csr.entity_rowids@)
                },
    {
        let gone: Vec<(u32, EntityMeta)> = self.roster.evict_oldest(count);
        let mut evicted: Vec<(u64, EntityMeta)> = Vec::with_capacity(gone.len());
        let mut memory: usize = self.memory_used;
        let mut k: usize = 0;
        while k < gone.len()
            invariant
                k <= gone@.len(),
                evicted@.len() == k,
                memory == memory_without(old(self).memory_used as int, k as int),
                forall|j: int|
                    0 <= j < k ==> (#[trigger] evicted@[j]).1 == gone@[j].1 && evicted@[j].0
                        == if gone@[j].0 < index.edge_csr.entity_rowids@.len() {
                        index.edge_csr.entity_rowids@[gone@[j].0 as int]
                    } else {
                        0
                    },
            decreases gone@.len() - k,
        {
            let (i, meta): (u32, EntityMeta) = gone[k];
            let rowid: u64 = index.edge_csr.entity_rowid(i);
            memory = memory.saturating_sub(EntityMeta::BYTES);
            evicted.push((rowid, meta));
            k = k + 1;
        }
        self.memory_used = memory;
        assert(evicted_rows(evicted@, gone@, index.edge_csr.entity_rowids@));
        evicted
    }

    /// Tests whether more memory is in use than allowed.
    pub fn over_threshold(&self) -> (r: bool)
        ensures
            r == (self.memory_used > self.memory_threshold),
    {
        self.memory_used > self.memory_threshold
    }

    /// Tests whether an entity is loaded.
    pub fn is_loaded(&self, rowid: u64, index: &GraphIndex) -> (r: bool)
        requires
            self.wf(),
        ensures
            r == meta_of(self.roster.metas(), index.edge_csr.number_of(rowid)) is Some,
    {
        self.get_entity_readonly(rowid, index).is_some()
    }

    /// Position of an entity, if it is loaded and has one.
    pub fn position_of(&self, rowid: u64, index: &GraphIndex) -> (r: Option<(Float32, Float32)>)
        requires
            self.wf(),
        ensures
            r == match meta_of(self.roster.metas(), index.edge_csr.number_of(rowid)) {
                Some(meta) => meta.position,
                None => None,
            },
    {
        match self.get_entity_readonly(rowid, index) {
            Some(meta) => meta.position,
            None => None,
        }
    }
}

} // verus!
