//! Graph of entities and edges that refer to each other by slot.

use std::collections::{HashMap, VecDeque};

use vstd::arithmetic::power2::pow2;
use vstd::prelude::*;

use super::edge_csr::{known, known_rows, numbers_rows};
use super::graph_index::{placed_rows, spatial_bits_for_count, PositionRow};
use super::rows::EdgeRow;
use super::sorted::{ascending, sort_unique};
use super::spatial_index::{Placed, SpatialIndex};
use super::traversal::{
    bfs_order, discover, label_passes, lemma_push_contains, lemma_unmarked_update, levels, passes,
    unmarked, walk, Progress,
};
use crate::ecs::pending::{
    epoch_of, lemma_occurrences_distinct, occurrences, Epoch, Index, PointerData, StorageId,
};
use crate::ecs::laws::lemma_released_iff;
use crate::ecs::pointer::Pointer;
use crate::ecs::storage::{kept_from, law_iteration_visits_kept_slots, Storage};
use crate::float::Float32;

verus! {

broadcast use vstd::std_specs::hash::group_hash_axioms;

/// An entity and the slots of its edges.
#[derive(Debug)]
pub struct GraphEntity {
    pub sqlite_rowid: u64,
    pub edges_out: Vec<Index>,
    pub edges_in: Vec<Index>,
}

/// A directed edge between the slots of two entities.
#[derive(Debug)]
pub struct GraphEdge {
    pub sqlite_rowid: u64,
    pub source_idx: Index,
    pub target_idx: Index,
    pub label: u32,
}

/// Graph in memory.
pub struct GraphStore {
    pub entities: Storage<GraphEntity>,
    pub edges: Storage<GraphEdge>,
    pub entity_by_rowid: HashMap<u64, Pointer<GraphEntity>>,
    pub rowid_by_index: Vec<u64>,
    pub edge_rowid_by_index: Vec<u64>,
    /// Keeps the entities alive.
    pub entity_handles: Vec<Pointer<GraphEntity>>,
    /// Keeps the edges alive.
    pub edge_handles: Vec<Pointer<GraphEdge>>,
    pub positions: Vec<Option<(Float32, Float32)>>,
    pub spatial_index: Option<SpatialIndex>,
}

/// Slot of the entity with each rowid.
pub open spec fn numbers_of(map: Map<u64, Pointer<GraphEntity>>) -> Map<u64, u32> {
    Map::new(|r: u64| map.contains_key(r), |r: u64| map[r].data.index as u32)
}

/// Whether no slot was ever vacated and no change of a reference count is left
/// to apply.
pub open spec fn settled<T>(storage: Storage<T>) -> bool {
    &&& storage.inner.free_list@.len() == 0
    &&& storage.pending.add_ref@.len() == 0
    &&& storage.pending.sub_ref@.len() == 0
    &&& storage.pending.epoch@ == Seq::new(storage.inner.meta@.len(), |i: int| 0u16)
}

/// Places in `rows` of the edges that leave a slot, in order.
pub open spec fn leaving(rows: Seq<EdgeRow>, numbers: Map<u64, u32>, i: int) -> Seq<Index>
    decreases rows.len(),
{
    if rows.len() == 0 {
        Seq::empty()
    } else {
        let head = leaving(rows.drop_last(), numbers, i);
        if numbers[rows.last().source_entity] == i {
            head.push((rows.len() - 1) as usize)
        } else {
            head
        }
    }
}

/// Places in `rows` of the edges that arrive at a slot, in order.
pub open spec fn arriving(rows: Seq<EdgeRow>, numbers: Map<u64, u32>, i: int) -> Seq<Index>
    decreases rows.len(),
{
    if rows.len() == 0 {
        Seq::empty()
    } else {
        let head = arriving(rows.drop_last(), numbers, i);
        if numbers[rows.last().target_entity] == i {
            head.push((rows.len() - 1) as usize)
        } else {
            head
        }
    }
}

/// Position of a slot: that of its last row.
pub open spec fn last_position(placed: Seq<Placed>, i: int) -> Option<(Float32, Float32)>
    decreases placed.len(),
{
    if placed.len() == 0 {
        None
    } else if placed.last().0 == i {
        Some((placed.last().1, placed.last().2))
    } else {
        last_position(placed.drop_last(), i)
    }
}

impl GraphStore {
    /// Whether all references lead to slots that exist.
    pub open spec fn wf(self) -> bool {
        let n = self.entities.inner.data@.len();
        &&& self.entities.wf()
        &&& self.edges.wf()
        &&& n <= u32::MAX
        &&& self.rowid_by_index@.len() == n
        &&& forall|r: u64| #[trigger]
            self.entity_by_rowid@.contains_key(r) ==> self.entity_by_rowid@[r].data.storage_id
                == self.entities.id && self.entity_by_rowid@[r].data.index < n
        &&& forall|j: int|
            0 <= j < self.edge_handles@.len() ==> (#[trigger] self.edge_handles@[j]).data.storage_id
                == self.edges.id && self.edge_handles@[j].data.index
                < self.edges.inner.data@.len()
        &&& forall|j: int|
            0 <= j < self.edges.inner.data@.len() ==> (
            #[trigger] self.edges.inner.data@[j]).target_idx < n
        &&& self.spatial_index is Some ==> self.spatial_index->0.wf()
    }

    /// Whether the graph holds exactly the given rows.
    pub open spec fn holds(
        self,
        rowids: Seq<u64>,
        rows: Seq<EdgeRow>,
        positions: Seq<PositionRow>,
    ) -> bool {
        let numbers = numbers_of(self.entity_by_rowid@);
        let kept = known_rows(rows, numbers);
        let placed = placed_rows(positions, numbers);
        &&& self.rowid_by_index@ == rowids
        &&& numbers_rows(numbers, rowids)
        &&& self.entities.inner.data@.len() == rowids.len()
        &&& forall|i: int| 0 <= i < rowids.len() ==> self.entity_matches(i, rowids, kept, numbers)
        &&& self.edges.inner.data@.len() == kept.len()
        &&& self.edge_handles@.len() == kept.len()
        &&& forall|j: int| 0 <= j < kept.len() ==> self.edge_matches(j, kept, numbers)
        &&& self.positions@.len() == rowids.len()
        &&& forall|i: int|
            0 <= i < rowids.len() ==> #[trigger] self.positions@[i] == last_position(placed, i)
        &&& self.spatial_index is Some <==> placed.len() > 0
        &&& self.spatial_index is Some ==> self.spatial_index->0.holds(placed)
    }

    /// Whether every entity and every edge is kept alive: each slot has its
    /// handle, an entity that its rowid leads to is referenced once more, and
    /// no change of a reference count is left to apply.
    pub open spec fn all_alive(self, rowids: Seq<u64>, kept: Seq<EdgeRow>) -> bool {
        &&& self.entity_handles@.len() == rowids.len()
        &&& forall|i: int|
            0 <= i < rowids.len() ==> (#[trigger] self.entity_handles@[i]).data == (PointerData {
                index: i as usize,
                epoch: 0,
                storage_id: self.entities.id,
            })
        &&& self.entities.inner.meta@.len() == rowids.len()
        &&& forall|i: int|
            0 <= i < rowids.len() ==> #[trigger] self.entities.inner.meta@[i]
                == if self.entity_by_rowid@[rowids[i]].data.index == i {
                2int
            } else {
                1int
            }
        &&& forall|r: u64| #[trigger]
            self.entity_by_rowid@.contains_key(r) ==> self.entity_by_rowid@[r].data.epoch == 0
        &&& self.edge_handles@.len() == kept.len()
        &&& forall|j: int|
            0 <= j < kept.len() ==> (#[trigger] self.edge_handles@[j]).data == (PointerData {
                index: j as usize,
                epoch: 0,
                storage_id: self.edges.id,
            })
        &&& self.edges.inner.meta@ == Seq::new(kept.len(), |j: int| 1u16)
        &&& self.edge_rowid_by_index@ == Seq::new(kept.len(), |j: int| kept[j].id)
        &&& settled(self.entities)
        &&& settled(self.edges)
    }

    /// Whether the entity in slot `i` has its rowid and its edges.
    pub open spec fn entity_matches(
        self,
        i: int,
        rowids: Seq<u64>,
        kept: Seq<EdgeRow>,
        numbers: Map<u64, u32>,
    ) -> bool {
        let e = self.entities.inner.data@[i];
        &&& e.sqlite_rowid == rowids[i]
        &&& e.edges_out@ == leaving(kept, numbers, i)
        &&& e.edges_in@ == arriving(kept, numbers, i)
    }

    /// Whether the edge in slot `j` is the kept row `j`.
    pub open spec fn edge_matches(
        self,
        j: int,
        kept: Seq<EdgeRow>,
        numbers: Map<u64, u32>,
    ) -> bool {
        let e = self.edges.inner.data@[j];
        &&& self.edge_handles@[j].data.index == j
        &&& e.sqlite_rowid == kept[j].id
        &&& e.source_idx == numbers[kept[j].source_entity]
        &&& e.target_idx == numbers[kept[j].target_entity]
        &&& e.label == kept[j].label
    }

    /// Slot of the entity that stands for slot `i`: the one its rowid leads to.
    /// A slot with rowid 0 stands for none.
    pub open spec fn entity_slot(self, i: int) -> Option<int> {
        if 0 <= i < self.rowid_by_index@.len() && self.rowid_by_index@[i] != 0
            && self.entity_by_rowid@.contains_key(self.rowid_by_index@[i]) {
            Some(self.entity_by_rowid@[self.rowid_by_index@[i]].data.index as int)
        } else {
            None
        }
    }

    /// Slot of the edge that an edge handle leads to.
    pub open spec fn edge_slot(self, j: int) -> Option<int> {
        if 0 <= j < self.edge_handles@.len() {
            Some(self.edge_handles@[j].data.index as int)
        } else {
            None
        }
    }

    /// Targets of the given edges whose labels pass.
    pub open spec fn targets(self, edges: Seq<Index>, filter: Seq<u32>) -> Seq<int>
        decreases edges.len(),
    {
        if edges.len() == 0 {
            Seq::empty()
        } else {
            let head = self.targets(edges.drop_last(), filter);
            match self.edge_slot(edges.last() as int) {
                Some(j) => {
                    let e = self.edges.inner.data@[j];
                    if label_passes(filter, e.label) {
                        head.push(e.target_idx as int)
                    } else {
                        head
                    }
                },
                None => head,
            }
        }
    }

    /// Slots that an entity's edges lead to.
    pub open spec fn next(self, filter: Seq<u32>) -> spec_fn(int) -> Seq<int> {
        |i: int|
            match self.entity_slot(i) {
                Some(k) => self.targets(self.entities.inner.data@[k].edges_out@, filter),
                None => Seq::empty(),
            }
    }

    /// Rowids of the slots, leaving out slots that stand for no entity.
    pub open spec fn rowids_at(self, slots: Seq<int>) -> Seq<u64>
        decreases slots.len(),
    {
        if slots.len() == 0 {
            Seq::empty()
        } else {
            let head = self.rowids_at(slots.drop_last());
            match self.entity_slot(slots.last()) {
                Some(k) => head.push(self.entities.inner.data@[k].sqlite_rowid),
                None => head,
            }
        }
    }

    /// A graph without entities.
    pub fn empty(entities: StorageId, edges: StorageId) -> (r: Self)
        ensures
            r.wf(),
            r.entities.inner.data@.len() == 0,
            r.entities.inner.free_list@.len() == 0,
            r.entities.pending.add_ref@.len() == 0,
            r.entities.pending.sub_ref@.len() == 0,
            r.entities.pending.epoch@.len() == 0,
            r.edges.inner.data@.len() == 0,
            r.edges.inner.free_list@.len() == 0,
            r.edges.pending.add_ref@.len() == 0,
            r.edges.pending.sub_ref@.len() == 0,
            r.edges.pending.epoch@.len() == 0,
            r.entities.id == entities,
            r.edges.id == edges,
            r.entity_by_rowid@ == Map::<u64, Pointer<GraphEntity>>::empty(),
            r.rowid_by_index@.len() == 0,
            r.edge_rowid_by_index@.len() == 0,
            r.entity_handles@.len() == 0,
            r.edge_handles@.len() == 0,
            r.positions@.len() == 0,
            r.spatial_index is None,
    {
        GraphStore {
            entities: Storage::new(entities),
            edges: Storage::new(edges),
            entity_by_rowid: HashMap::new(),
            rowid_by_index: Vec::new(),
            edge_rowid_by_index: Vec::new(),
            entity_handles: Vec::new(),
            edge_handles: Vec::new(),
            positions: Vec::new(),
            spatial_index: None,
        }
    }

    /// Number of entities, by rowid.
    pub fn entity_count(&self) -> (r: usize)
        ensures
            r == self.entity_by_rowid@.len(),
    {
        self.entity_by_rowid.len()
    }

    /// Position of a slot.
    pub fn position_of(&self, idx: Index) -> (r: Option<(Float32, Float32)>)
        ensures
            r == if idx < self.positions@.len() {
                self.positions@[idx as int]
            } else {
                None
            },
    {
        if idx < self.positions.len() {
            self.positions[idx]
        } else {
            None
        }
    }

    /// Slot of the entity with the given rowid.
    pub fn find_entity_index(&self, rowid: u64) -> (r: Option<Index>)
        ensures
            r == if self.entity_by_rowid@.contains_key(rowid) {
                Some(self.entity_by_rowid@[rowid].data.index)
            } else {
                None
            },
    {
        match self.entity_by_rowid.get(&rowid) {
            Some(p) => Some(p.data.get_index()),
            None => None,
        }
    }

    /// The entity that stands for a slot.
    pub fn entity_at(&self, idx: Index) -> (r: Option<&GraphEntity>)
        requires
            self.wf(),
        ensures
            match r {
                Some(e) => self.entity_slot(idx as int) is Some
                    && *e == self.entities.inner.data@[self.entity_slot(idx as int)->0],
                None => self.entity_slot(idx as int) is None,
            },
    {
        if idx >= self.rowid_by_index.len() {
            return None;
        }
        let rowid: u64 = self.rowid_by_index[idx];
        if rowid == 0 {
            return None;
        }
        match self.entity_by_rowid.get(&rowid) {
            Some(ptr) => Some(self.entities.index(ptr)),
            None => None,
        }
    }

    /// The edge that an edge handle leads to.
    pub fn edge_at(&self, idx: Index) -> (r: Option<&GraphEdge>)
        requires
            self.wf(),
        ensures
            match r {
                Some(e) => self.edge_slot(idx as int) is Some
                    && *e == self.edges.inner.data@[self.edge_slot(idx as int)->0],
                None => self.edge_slot(idx as int) is None,
            },
    {
        if idx < self.edge_handles.len() {
            Some(self.edges.index(&self.edge_handles[idx]))
        } else {
            None
        }
    }
}

impl GraphStore {
    /// Whether the entities were created from the rowids and the reference
    /// changes are queued as that leaves them.
    spec fn has_entities(self, rowids: Seq<u64>) -> bool {
        let n = rowids.len();
        let subs = self.entities.pending.sub_ref@;
        &&& n <= u32::MAX
        &&& self.entities.wf()
        &&& self.entities.inner.free_list@.len() == 0
        &&& self.entities.inner.data@.len() == n
        &&& forall|i: int| 0 <= i < n ==> #[trigger] self.entities.inner.meta@[i] == 1
        &&& forall|i: int|
            0 <= i < n ==> (#[trigger] self.entities.inner.data@[i]).sqlite_rowid == rowids[i]
        &&& self.rowid_by_index@ == rowids
        &&& numbers_rows(numbers_of(self.entity_by_rowid@), rowids)
        &&& forall|r: u64| #[trigger]
            self.entity_by_rowid@.contains_key(r) ==> self.entity_by_rowid@[r].data.storage_id
                == self.entities.id && self.entity_by_rowid@[r].data.index < n && !subs.contains(
                self.entity_by_rowid@[r].data.index,
            )
        &&& self.entities.pending.add_ref@ == Seq::new(n, |k: int| k as usize)
        &&& subs.no_duplicates()
        &&& forall|i: int|
            0 <= i < n ==> (#[trigger] subs.contains(i as usize)
                <==> self.entity_by_rowid@[rowids[i]].data.index != i)
        &&& self.entities.pending.epoch@.len() == 0
        &&& forall|r: u64| #[trigger]
            self.entity_by_rowid@.contains_key(r) ==> self.entity_by_rowid@[r].data.epoch == 0
        &&& self.entity_handles@.len() == n
        &&& forall|i: int|
            0 <= i < n ==> (#[trigger] self.entity_handles@[i]).data == (PointerData {
                index: i as usize,
                epoch: 0,
                storage_id: self.entities.id,
            })
    }

    /// Adds an entity without edges.
    fn add_entity(&mut self, rowid: u64, Ghost(rowids): Ghost<Seq<u64>>)
        requires
            old(self).has_entities(rowids),
            rowids.len() < u32::MAX,
            rowids.len() < usize::MAX,
        ensures
            final(self).has_entities(rowids.push(rowid)),
            final(self).entities.id == old(self).entities.id,
            final(self).edges == old(self).edges,
            final(self).edge_handles == old(self).edge_handles,
            final(self).edge_rowid_by_index == old(self).edge_rowid_by_index,
            final(self).positions == old(self).positions,
            final(self).spatial_index == old(self).spatial_index,
            forall|i: int|
                0 <= i < rowids.len() ==> final(self).entities.inner.data@[i] == old(
                    self,
                ).entities.inner.data@[i],
            final(self).entities.inner.data@[rowids.len() as int].edges_out@.len() == 0,
            final(self).entities.inner.data@[rowids.len() as int].edges_in@.len() == 0,
    {
        let ghost before = *self;
        let ghost n = rowids.len() as int;
        let ptr: Pointer<GraphEntity> = self.entities.create(
            GraphEntity { sqlite_rowid: rowid, edges_out: Vec::new(), edges_in: Vec::new() },
        );
        let idx: usize = ptr.data.get_index();
        assert(idx == n);
        if idx >= self.rowid_by_index.len() {
            self.rowid_by_index.resize(idx + 1, 0);
        }
        self.rowid_by_index.set(idx, rowid);
        assert(self.rowid_by_index@ =~= rowids.push(rowid));
        let copy: Pointer<GraphEntity> = ptr.clone_ref(&mut self.entities.pending);
        if let Some(replaced) = self.entity_by_rowid.insert(rowid, copy) {
            replaced.release(&mut self.entities.pending);
        }
        self.entity_handles.push(ptr);
        proof {
            let subs0 = before.entities.pending.sub_ref@;
            let subs = self.entities.pending.sub_ref@;
            let map0 = before.entity_by_rowid@;
            let map = self.entity_by_rowid@;
            lemma_numbers_push(map0, rowids, rowid, map);
            assert(self.entities.pending.add_ref@ =~= Seq::new((n + 1) as nat, |k: int| k as usize));
            assert forall|k: int| 0 <= k < subs0.len() implies (#[trigger] subs0[k]) < n by {
                assert(before.entities.pending.sub_ref@[k] < before.entities.inner.meta@.len());
            }
            if map0.contains_key(rowid) {
                let gone = map0[rowid].data.index;
                assert(subs =~= subs0.push(gone));
                assert(!subs0.contains(gone));
                assert(subs.no_duplicates()) by {
                    assert forall|a: int, b: int| 0 <= a < b < subs.len() implies subs[a] != subs[b] by {
                        if b == subs0.len() {
                            assert(subs0.contains(subs0[a]));
                        }
                    }
                }
            } else {
                assert(subs == subs0);
            }
            assert forall|r: u64| #[trigger] map.contains_key(r) implies map[r].data.storage_id
                == self.entities.id && map[r].data.index < n + 1 && !subs.contains(
                map[r].data.index,
            ) by {
                let x = map[r].data.index;
                if r != rowid {
                    assert(map0.contains_key(r));
                    assert(numbers_of(map0).contains_key(r));
                    if map0.contains_key(rowid) {
                        assert(numbers_of(map0).contains_key(rowid));
                    }
                }
                if subs.contains(x) {
                    let k = choose|k: int| 0 <= k < subs.len() && subs[k] == x;
                    if k < subs0.len() {
                        assert(subs0[k] == x);
                        assert(subs0.contains(x));
                    }
                }
            }
            let more = rowids.push(rowid);
            assert forall|i: int| 0 <= i < n + 1 implies (#[trigger] subs.contains(i as usize)
                <==> map[more[i]].data.index != i) by {
                if i < n {
                    assert(subs0.contains(i as usize) <==> map0[rowids[i]].data.index != i);
                    assert(numbers_of(map0).contains_key(rowids[i]));
                    if subs0.contains(i as usize) {
                        let k = choose|k: int| 0 <= k < subs0.len() && subs0[k] == i as usize;
                        assert(subs[k] == i as usize);
                    }
                    if map0.contains_key(rowid) {
                        assert(subs[subs0.len() as int] == map0[rowid].data.index);
                    }
                }
                if subs.contains(i as usize) {
                    let k = choose|k: int| 0 <= k < subs.len() && subs[k] == i as usize;
                    if k < subs0.len() {
                        assert(subs0[k] == i as usize);
                    } else {
                        assert(numbers_of(map0).contains_key(rowid));
                    }
                }
            }
            assert(self.entities.wf()) by {
                assert forall|k: int| 0 <= k < subs.len() implies (#[trigger] subs[k])
                    < self.entities.inner.meta@.len() by {
                    if k < subs0.len() {
                        assert(subs[k] == subs0[k]);
                    }
                }
            }
        }
    }

    /// Whether the edges were created from the kept rows.
    spec fn has_edges(self, rowids: Seq<u64>, kept: Seq<EdgeRow>) -> bool {
        let numbers = numbers_of(self.entity_by_rowid@);
        &&& self.edges.wf()
        &&& self.edges.inner.free_list@.len() == 0
        &&& self.edges.pending.add_ref@.len() == 0
        &&& self.edges.pending.sub_ref@.len() == 0
        &&& self.edges.inner.data@.len() == kept.len()
        &&& self.edge_handles@.len() == kept.len()
        &&& forall|j: int| 0 <= j < kept.len() ==> known(#[trigger] kept[j], numbers)
        &&& forall|i: int|
            0 <= i < rowids.len() ==> #[trigger] self.entity_matches(i, rowids, kept, numbers)
        &&& forall|j: int| 0 <= j < kept.len() ==> #[trigger] self.edge_matches(j, kept, numbers)
        &&& forall|j: int|
            0 <= j < kept.len() ==> (#[trigger] self.edge_handles@[j]).data == (PointerData {
                index: j as usize,
                epoch: 0,
                storage_id: self.edges.id,
            })
        &&& self.edges.pending.epoch@.len() == 0
        &&& self.edges.inner.meta@ == Seq::new(kept.len(), |j: int| 1u16)
        &&& self.edge_rowid_by_index@ == Seq::new(kept.len(), |j: int| kept[j].id)
    }

    /// Adds an edge; one with an unknown end is left out.
    fn add_edge(
        &mut self,
        row: EdgeRow,
        Ghost(rowids): Ghost<Seq<u64>>,
        Ghost(kept): Ghost<Seq<EdgeRow>>,
    )
        requires
            old(self).has_entities(rowids),
            old(self).has_edges(rowids, kept),
        ensures
            final(self).has_entities(rowids),
            final(self).entities.id == old(self).entities.id,
            final(self).edges.id == old(self).edges.id,
            final(self).entity_by_rowid == old(self).entity_by_rowid,
            final(self).positions == old(self).positions,
            final(self).spatial_index == old(self).spatial_index,
            final(self).has_edges(
                rowids,
                if known(row, numbers_of(old(self).entity_by_rowid@)) {
                    kept.push(row)
                } else {
                    kept
                },
            ),
    {
        let ghost before = *self;
        let ghost numbers = numbers_of(self.entity_by_rowid@);
        let source: Option<Index> = self.find_entity_index(row.source_entity);
        let target: Option<Index> = self.find_entity_index(row.target_entity);
        if let (Some(source_idx), Some(target_idx)) = (source, target) {
            proof {
                assert(numbers.contains_key(row.source_entity));
                assert(numbers.contains_key(row.target_entity));
            }
            let held: usize = self.edges.inner.meta.len();
            assert(held == kept.len());
            let edge_ptr: Pointer<GraphEdge> = self.edges.create(
                GraphEdge { sqlite_rowid: row.id, source_idx, target_idx, label: row.label },
            );
            let edge_idx: usize = edge_ptr.data.get_index();
            if edge_idx >= self.edge_rowid_by_index.len() {
                self.edge_rowid_by_index.resize(self.edges.inner.meta.len(), 0);
            }
            self.edge_rowid_by_index.set(edge_idx, row.id);
            assert(self.edge_rowid_by_index@ =~= before.edge_rowid_by_index@.push(row.id));
            if let Some(ptr) = self.entity_by_rowid.get(&row.source_entity) {
                let entity: &mut GraphEntity = self.entities.index_mut(ptr);
                entity.edges_out.push(edge_idx);
            }
            if let Some(ptr) = self.entity_by_rowid.get(&row.target_entity) {
                let entity: &mut GraphEntity = self.entities.index_mut(ptr);
                entity.edges_in.push(edge_idx);
            }
            self.edge_handles.push(edge_ptr);
            proof {
                let more = kept.push(row);
                assert(more.drop_last() =~= kept);
                assert(self.entities.wf());
                assert forall|i: int| 0 <= i < rowids.len() implies #[trigger] self.entity_matches(
                    i,
                    rowids,
                    more,
                    numbers,
                ) by {
                    assert(before.entity_matches(i, rowids, kept, numbers));
                }
                assert forall|j: int| 0 <= j < more.len() implies #[trigger] self.edge_matches(
                    j,
                    more,
                    numbers,
                ) by {
                    if j < kept.len() {
                        assert(before.edge_matches(j, kept, numbers));
                    }
                }
                assert forall|j: int| 0 <= j < more.len() implies (
                #[trigger] self.edge_handles@[j]).data == (PointerData {
                    index: j as usize,
                    epoch: 0,
                    storage_id: self.edges.id,
                }) by {
                    if j < kept.len() {
                        assert(before.edge_handles@[j] == self.edge_handles@[j]);
                    }
                }
                assert(self.edges.inner.meta@ =~= Seq::new(more.len(), |j: int| 1u16));
                assert(self.edge_rowid_by_index@ =~= Seq::new(more.len(), |j: int| more[j].id));
            }
        }
    }
}

impl GraphStore {
    /// Tests whether no entity is referenced.
    pub fn is_empty(&self) -> (r: bool)
        requires
            self.wf(),
        ensures
            r == (kept_from(self.entities.inner.meta@, true, 0).len() == 0),
    {
        let mut iter = self.entities.iter();
        iter.next().is_none()
    }

    /// Gives entities their positions; rows of unknown entities are left out.
    fn load_positions(
        &mut self,
        positions: &[PositionRow],
        Ghost(rowids): Ghost<Seq<u64>>,
    ) -> (r: Vec<Placed>)
        requires
            old(self).has_entities(rowids),
            old(self).positions@.len() == 0,
        ensures
            final(self).entities == old(self).entities,
            final(self).edges == old(self).edges,
            final(self).entity_by_rowid == old(self).entity_by_rowid,
            final(self).rowid_by_index == old(self).rowid_by_index,
            final(self).entity_handles == old(self).entity_handles,
            final(self).edge_handles == old(self).edge_handles,
            final(self).edge_rowid_by_index == old(self).edge_rowid_by_index,
            final(self).spatial_index == old(self).spatial_index,
            r@ == placed_rows(positions@, numbers_of(old(self).entity_by_rowid@)),
            r@.len() <= positions@.len(),
            final(self).positions@.len() == rowids.len(),
            forall|i: int|
                0 <= i < rowids.len() ==> #[trigger] final(self).positions@[i] == last_position(
                    r@,
                    i,
                ),
    {
        let ghost numbers = numbers_of(self.entity_by_rowid@);
        let n: usize = self.rowid_by_index.len();
        let mut k: usize = 0;
        while k < n
            invariant
                k <= n,
                self.positions@.len() == k,
                forall|i: int| 0 <= i < k ==> #[trigger] self.positions@[i] is None,
                self.entities == old(self).entities,
                self.edges == old(self).edges,
                self.entity_by_rowid == old(self).entity_by_rowid,
                self.rowid_by_index == old(self).rowid_by_index,
                self.entity_handles == old(self).entity_handles,
                self.edge_handles == old(self).edge_handles,
                self.edge_rowid_by_index == old(self).edge_rowid_by_index,
                self.spatial_index == old(self).spatial_index,
            decreases n - k,
        {
            self.positions.push(None);
            k = k + 1;
        }
        let mut placed: Vec<Placed> = Vec::new();
        let mut j: usize = 0;
        assert(positions@.take(0) =~= Seq::<PositionRow>::empty());
        while j < positions.len()
            invariant
                j <= positions@.len(),
                n == rowids.len(),
                numbers == numbers_of(self.entity_by_rowid@),
                self.has_entities(rowids),
                self.entities == old(self).entities,
                self.edges == old(self).edges,
                self.entity_by_rowid == old(self).entity_by_rowid,
                self.rowid_by_index == old(self).rowid_by_index,
                self.entity_handles == old(self).entity_handles,
                self.edge_handles == old(self).edge_handles,
                self.edge_rowid_by_index == old(self).edge_rowid_by_index,
                self.spatial_index == old(self).spatial_index,
                placed@ == placed_rows(positions@.take(j as int), numbers),
                placed@.len() <= j,
                self.positions@.len() == n,
                forall|i: int|
                    0 <= i < n ==> #[trigger] self.positions@[i] == last_position(placed@, i),
            decreases positions@.len() - j,
        {
            let row: PositionRow = positions[j];
            assert(positions@.take(j + 1).drop_last() =~= positions@.take(j as int));
            let ghost before = placed@;
            if let Some(idx) = self.find_entity_index(row.0) {
                assert(numbers.contains_key(row.0));
                self.positions.set(idx, Some((row.1, row.2)));
                placed.push((idx as u32, row.1, row.2));
                assert(placed@.drop_last() =~= before);
            }
            j = j + 1;
        }
        assert(positions@.take(j as int) =~= positions@);
        placed
    }

    /// Loads a graph from the entity rowids, the edge rows and the position
    /// rows.
    pub fn load(
        rowids: &[u64],
        rows: &[EdgeRow],
        positions: &[PositionRow],
        entities: StorageId,
        edges: StorageId,
    ) -> (r: Self)
        requires
            rowids.len() <= u32::MAX,
            rowids.len() < usize::MAX,
            positions.len() <= u32::MAX,
        ensures
            r.wf(),
            r.holds(rowids@, rows@, positions@),
            r.all_alive(rowids@, known_rows(rows@, numbers_of(r.entity_by_rowid@))),
            r.entities.id == entities,
            r.edges.id == edges,
            match r.spatial_index {
                Some(index) => {
                    let n = r.entity_by_rowid@.len();
                    &&& 4 <= index.bits <= 8
                    &&& index.bits > 4 ==> pow2((2 * index.bits - 1) as nat) <= n
                    &&& index.bits < 8 ==> n < pow2((2 * index.bits + 1) as nat)
                },
                None => true,
            },
    {
        let mut graph = GraphStore::empty(entities, edges);
        let mut i: usize = 0;
        proof {
            assert(graph.entities.pending.add_ref@ =~= Seq::new(0, |k: int| k as usize));
            assert(rowids@.take(0) =~= Seq::<u64>::empty());
            assert(graph.rowid_by_index@ =~= Seq::<u64>::empty());
        }
        while i < rowids.len()
            invariant
                i <= rowids@.len() <= u32::MAX,
                rowids@.len() < usize::MAX,
                graph.has_entities(rowids@.take(i as int)),
                graph.edges.wf(),
                graph.edges.inner.free_list@.len() == 0,
                graph.edges.pending.add_ref@.len() == 0,
                graph.edges.pending.sub_ref@.len() == 0,
                graph.edges.pending.epoch@.len() == 0,
                graph.entities.id == entities,
                graph.edges.id == edges,
                graph.edges.inner.data@.len() == 0,
                graph.edge_handles@.len() == 0,
                graph.edge_rowid_by_index@.len() == 0,
                graph.positions@.len() == 0,
                graph.spatial_index is None,
                forall|k: int|
                    0 <= k < i ==> (#[trigger] graph.entities.inner.data@[k]).edges_out@.len() == 0
                        && graph.entities.inner.data@[k].edges_in@.len() == 0,
            decreases rowids@.len() - i,
        {
            let ghost taken = rowids@.take(i as int);
            let ghost data0 = graph.entities.inner.data@;
            graph.add_entity(rowids[i], Ghost(taken));
            i = i + 1;
            proof {
                assert(rowids@.take(i as int) =~= taken.push(rowids@[i - 1]));
                assert forall|k: int| 0 <= k < i implies (
                #[trigger] graph.entities.inner.data@[k]).edges_out@.len() == 0
                    && graph.entities.inner.data@[k].edges_in@.len() == 0 by {
                    if k < i - 1 {
                        assert(graph.entities.inner.data@[k] == data0[k]);
                    }
                }
            }
        }
        assert(rowids@.take(i as int) =~= rowids@);

        let ghost map = graph.entity_by_rowid@;
        let ghost numbers = numbers_of(map);
        let mut k: usize = 0;
        proof {
            assert(rows@.take(0) =~= Seq::<EdgeRow>::empty());
            let none = Seq::<EdgeRow>::empty();
            assert(graph.edges.inner.meta@ =~= Seq::new(none.len(), |j: int| 1u16));
            assert(graph.edge_rowid_by_index@ =~= Seq::new(none.len(), |j: int| none[j].id));
            assert forall|e: int| 0 <= e < rowids@.len() implies #[trigger] graph.entity_matches(
                e,
                rowids@,
                none,
                numbers,
            ) by {
                assert(graph.entities.inner.data@[e].edges_out@ =~= Seq::<Index>::empty());
                assert(graph.entities.inner.data@[e].edges_in@ =~= Seq::<Index>::empty());
            }
        }
        while k < rows.len()
            invariant
                k <= rows@.len(),
                graph.entity_by_rowid@ == map,
                numbers == numbers_of(map),
                graph.has_entities(rowids@),
                graph.has_edges(rowids@, known_rows(rows@.take(k as int), numbers)),
                graph.entities.id == entities,
                graph.edges.id == edges,
                graph.positions@.len() == 0,
                graph.spatial_index is None,
            decreases rows@.len() - k,
        {
            let ghost kept = known_rows(rows@.take(k as int), numbers);
            assert(rows@.take(k + 1).drop_last() =~= rows@.take(k as int));
            graph.add_edge(rows[k], Ghost(rowids@), Ghost(kept));
            k = k + 1;
        }
        assert(rows@.take(k as int) =~= rows@);
        let ghost kept = known_rows(rows@, numbers);
        let ghost wired = graph;

        let placed: Vec<Placed> = graph.load_positions(positions, Ghost(rowids@));
        if placed.len() > 0 {
            let bits: u16 = spatial_bits_for_count(graph.entity_count());
            graph.spatial_index = Some(SpatialIndex::build(placed.as_slice(), bits));
        }
        let ghost unsynced = graph;
        proof {
            unsynced.lemma_can_sync(rowids@);
            assert(graph.edges.can_sync()) by {
                assert(graph.edges.pending.add_ref@ =~= Seq::<Index>::empty());
                assert(graph.edges.pending.sub_ref@ =~= Seq::<Index>::empty());
                assert forall|x: Index| #[trigger] occurrences(Seq::<Index>::empty(), x) == 0 by {}
            }
        }
        graph.entities.sync_pending();
        graph.edges.sync_pending();
        proof {
            graph.lemma_alive(wired, rowids@, kept);
            assert forall|e: int| 0 <= e < rowids@.len() implies #[trigger] graph.entity_matches(
                e,
                rowids@,
                kept,
                numbers,
            ) by {
                assert(wired.entity_matches(e, rowids@, kept, numbers));
            }
            assert forall|j: int| 0 <= j < kept.len() implies #[trigger] graph.edge_matches(
                j,
                kept,
                numbers,
            ) by {
                assert(wired.edge_matches(j, kept, numbers));
            }
            assert forall|j: int| 0 <= j < graph.edges.inner.data@.len() implies (
            #[trigger] graph.edges.inner.data@[j]).target_idx < rowids@.len() by {
                assert(wired.edge_matches(j, kept, numbers));
                assert(known(kept[j], numbers));
                assert(numbers.contains_key(kept[j].target_entity));
            }
            assert forall|j: int| 0 <= j < graph.edge_handles@.len() implies (
            #[trigger] graph.edge_handles@[j]).data.storage_id == graph.edges.id
                && graph.edge_handles@[j].data.index < graph.edges.inner.data@.len() by {
                assert(wired.edge_matches(j, kept, numbers));
            }
        }
        graph
    }

    /// Once the queued changes are applied, everything loaded is kept alive.
    proof fn lemma_alive(self, before: Self, rowids: Seq<u64>, kept: Seq<EdgeRow>)
        requires
            before.has_entities(rowids),
            before.has_edges(rowids, kept),
            self.entity_by_rowid == before.entity_by_rowid,
            self.entity_handles == before.entity_handles,
            self.edge_handles == before.edge_handles,
            self.edge_rowid_by_index == before.edge_rowid_by_index,
            before.entities.syncs_to(self.entities),
            before.edges.syncs_to(self.edges),
        ensures
            self.all_alive(rowids, kept),
    {
        let n = rowids.len();
        let adds = before.entities.pending.add_ref@;
        let subs = before.entities.pending.sub_ref@;
        let none = Seq::<Index>::empty();
        assert(before.edges.inner.meta.len() == kept.len());
        assert(adds.no_duplicates());
        assert forall|i: int| 0 <= i < n implies #[trigger] self.entities.inner.meta@[i]
            == if self.entity_by_rowid@[rowids[i]].data.index == i {
            2int
        } else {
            1int
        } by {
            let k = i as usize;
            lemma_occurrences_distinct(adds, k);
            lemma_occurrences_distinct(subs, k);
            assert(adds[i] == k);
            assert(self.entities.inner.meta@[k as int] == before.entities.balance(k));
            assert(subs.contains(k) <==> self.entity_by_rowid@[rowids[i]].data.index != i);
        }
        assert forall|i: Index| i < n implies before.entities.balance(i) > 0 by {
            lemma_occurrences_distinct(adds, i);
            lemma_occurrences_distinct(subs, i);
            assert(adds[i as int] == i);
            assert(before.entities.inner.meta@[i as int] == 1);
        }
        before.lemma_can_sync(rowids);
        lemma_none_released(before.entities);
        assert(before.edges.pending.add_ref@ =~= none);
        assert(before.edges.pending.sub_ref@ =~= none);
        assert(before.edges.released() =~= none);
        assert forall|j: int| 0 <= j < kept.len() implies #[trigger] self.edges.inner.meta@[j]
            == 1 by {
            let k = j as usize;
            assert(self.edges.inner.meta@[k as int] == before.edges.balance(k));
        }
        assert forall|i: int| 0 <= i < n implies #[trigger] self.entities.pending.epoch@[i] == 0 by {
            let k = i as usize;
            assert(self.entities.pending.epoch@[k as int] == before.entities.synced_epoch(k));
        }
        assert forall|j: int| 0 <= j < kept.len() implies #[trigger] self.edges.pending.epoch@[j]
            == 0 by {
            let k = j as usize;
            assert(self.edges.pending.epoch@[k as int] == before.edges.synced_epoch(k));
        }
        assert(self.edges.inner.meta@ =~= Seq::new(kept.len(), |j: int| 1u16));
        assert(self.edges.pending.epoch@ =~= Seq::new(kept.len(), |i: int| 0u16));
        assert(self.entities.pending.epoch@ =~= Seq::new(n, |i: int| 0u16));
    }

    proof fn lemma_can_sync(self, rowids: Seq<u64>)
        requires
            self.has_entities(rowids),
        ensures
            self.entities.can_sync(),
    {
        let adds = self.entities.pending.add_ref@;
        let subs = self.entities.pending.sub_ref@;
        assert(adds.no_duplicates());
        assert forall|i: Index| i < self.entities.inner.meta@.len() implies {
            &&& #[trigger] self.entities.inner.meta@[i as int] + occurrences(adds, i) <= u16::MAX
            &&& self.entities.balance(i) >= 0
            &&& occurrences(subs, i) > 0 && self.entities.balance(i) == 0 ==> epoch_of(
                self.entities.pending.epoch@,
                i as int,
            ) < Epoch::MAX
        } by {
            lemma_occurrences_distinct(adds, i);
            lemma_occurrences_distinct(subs, i);
            assert(adds[i as int] == i);
            assert(adds.contains(i));
        }
    }
}

/// A loaded graph is empty only if there was nothing to load: every slot is
/// visited by an iteration.
pub proof fn law_loaded_graph_is_visited(
    graph: GraphStore,
    rowids: Seq<u64>,
    kept: Seq<EdgeRow>,
    i: int,
)
    requires
        graph.all_alive(rowids, kept),
    ensures
        kept_from(graph.entities.inner.meta@, true, 0).contains(i) <==> 0 <= i < rowids.len(),
        kept_from(graph.edges.inner.meta@, true, 0).contains(i) <==> 0 <= i < kept.len(),
        kept_from(graph.entities.inner.meta@, true, 0).len() == 0 <==> rowids.len() == 0,
{
    let meta = graph.entities.inner.meta@;
    law_iteration_visits_kept_slots(meta, true, 0);
    law_iteration_visits_kept_slots(graph.edges.inner.meta@, true, 0);
    let visits = kept_from(meta, true, 0);
    if rowids.len() > 0 {
        assert(meta[0] > 0);
        assert(visits.contains(0));
    }
    if visits.len() > 0 {
        assert(visits.contains(visits[0]));
    }
}

/// Where every slot keeps a reference, none is vacated.
proof fn lemma_none_released<T>(s: Storage<T>)
    requires
        s.wf(),
        s.can_sync(),
        forall|i: Index| i < s.inner.meta@.len() ==> #[trigger] s.balance(i) > 0,
    ensures
        s.released().len() == 0,
{
    if s.released().len() > 0 {
        let i = s.released()[0];
        assert(s.released().contains(i));
        lemma_released_iff(s);
        assert(s.balance(i) > 0);
    }
}

/// Whether one of the slots found has the given rowid, which is not 0.
pub open spec fn slot_hit(rowids: Seq<u64>, found: Seq<u32>, rowid: u64) -> bool {
    rowid != 0 && exists|k: int|
        0 <= k < found.len() && (#[trigger] found[k]) < rowids.len() && rowids[found[k] as int]
            == rowid
}

proof fn lemma_slot_hit_push(rowids: Seq<u64>, found: Seq<u32>, i: u32, rowid: u64)
    ensures
        slot_hit(rowids, found.push(i), rowid) <==> slot_hit(rowids, found, rowid) || (rowid != 0
            && i < rowids.len() && rowids[i as int] == rowid),
{
    let more = found.push(i);
    if slot_hit(rowids, found, rowid) {
        let k = choose|k: int|
            0 <= k < found.len() && (#[trigger] found[k]) < rowids.len() && rowids[found[k] as int]
                == rowid;
        assert(more[k] == found[k]);
    }
    assert(more[found.len() as int] == i);
    if slot_hit(rowids, more, rowid) {
        let k = choose|k: int|
            0 <= k < more.len() && (#[trigger] more[k]) < rowids.len() && rowids[more[k] as int]
                == rowid;
        if k < found.len() {
            assert(found[k] == more[k]);
        }
    }
}

impl GraphStore {
    /// Rowids of the entities in the cells that a query looks at, in ascending
    /// order.
    pub fn query_spatial(
        &self,
        min_x: Float32,
        min_y: Float32,
        max_x: Float32,
        max_y: Float32,
        lod: u16,
    ) -> (r: Vec<u64>)
        requires
            self.wf(),
            lod < 32,
        ensures
            ascending(r@),
            match self.spatial_index {
                Some(index) => forall|rowid: u64| #[trigger]
                    r@.contains(rowid) <==> slot_hit(
                        self.rowid_by_index@,
                        index.numbers_in(index.window(min_x, min_y, max_x, max_y, lod).cells()),
                        rowid,
                    ),
                None => r@ == Seq::<u64>::empty(),
            },
    {
        match &self.spatial_index {
            None => Vec::new(),
            Some(index) => {
                let mut indices: Vec<u32> = Vec::new();
                index.query_bounds_into(min_x, min_y, max_x, max_y, lod, &mut indices);
                let ghost all = self.rowid_by_index@;
                let mut rowids: Vec<u64> = Vec::new();
                let mut k: usize = 0;
                while k < indices.len()
                    invariant
                        all == self.rowid_by_index@,
                        k <= indices@.len(),
                        forall|rowid: u64| #[trigger]
                            rowids@.contains(rowid) <==> slot_hit(
                                all,
                                indices@.take(k as int),
                                rowid,
                            ),
                    decreases indices@.len() - k,
                {
                    let i: usize = indices[k] as usize;
                    let ghost before = rowids@;
                    let ghost head = indices@.take(k as int);
                    if i < self.rowid_by_index.len() && self.rowid_by_index[i] != 0 {
                        rowids.push(self.rowid_by_index[i]);
                    }
                    k = k + 1;
                    proof {
                        assert(indices@.take(k as int) =~= head.push(i as u32));
                        assert forall|rowid: u64| #[trigger] rowids@.contains(rowid) <==> slot_hit(
                            all,
                            indices@.take(k as int),
                            rowid,
                        ) by {
                            lemma_slot_hit_push(all, head, i as u32, rowid);
                            if before.contains(rowid) {
                                let j = choose|j: int| 0 <= j < before.len() && before[j] == rowid;
                                assert(rowids@[j] == rowid);
                            }
                            if rowids@.len() > before.len() {
                                assert(rowids@[before.len() as int] == all[i as int]);
                                if rowids@.contains(rowid) && rowid != all[i as int] {
                                    let j = choose|j: int|
                                        0 <= j < rowids@.len() && rowids@[j] == rowid;
                                    assert(before[j] == rowid);
                                }
                            }
                        }
                    }
                }
                assert(indices@.take(k as int) =~= indices@);
                sort_unique(rowids)
            },
        }
    }

    /// Rowids within `max_depth` steps of the start, along edges whose labels
    /// pass, nearest first; none if the start is unknown.
    pub fn traverse_bfs(&self, start_rowid: u64, max_depth: u32, edge_labels: &[u32]) -> (r: Vec<
        u64,
    >)
        requires
            self.wf(),
        ensures
            if self.entity_by_rowid@.contains_key(start_rowid) {
                let start = self.entity_by_rowid@[start_rowid].data.index as int;
                let order = bfs_order(
                    self.next(edge_labels@),
                    start,
                    Set::empty(),
                    max_depth as nat,
                );
                r@ == seq![start_rowid] + self.rowids_at(order.skip(1))
            } else {
                r@ == Seq::<u64>::empty()
            },
    {
        let mut result: Vec<u64> = Vec::new();
        let start_idx: Index = match self.find_entity_index(start_rowid) {
            Some(idx) => idx,
            None => {
                return result;
            },
        };
        let ghost n = self.entities.inner.data@.len() as int;
        let ghost next = self.next(edge_labels@);
        let ghost goal = bfs_order(next, start_idx as int, Set::empty(), max_depth as nat);
        let mut visited: Vec<u32> = vec![0u32; self.rowid_by_index.len()];
        let mut queue: VecDeque<(u32, u32)> = VecDeque::new();
        visited.set(start_idx, 1);
        queue.push_back((start_idx as u32, 0));
        result.push(start_rowid);
        let ghost mut at = Progress {
            level: seq![start_idx as int],
            done: 0,
            found: Seq::empty(),
            seen: Set::empty().insert(start_idx as int),
            order: seq![start_idx as int],
            depth: 0,
        };
        proof {
            assert(at.level.take(0) =~= Seq::<int>::empty());
            assert(walk(next, at.level.take(0)) == Seq::<int>::empty());
            assert(at.order.take(1) =~= at.order);
            assert(at.order =~= at.order.take(1) + at.found);
            assert(at.order.skip(1) =~= Seq::<int>::empty());
            assert(result@ =~= seq![start_rowid] + self.rowids_at(at.order.skip(1)));
        }
        while queue.len() > 0
            invariant
                self.wf(),
                n == self.entities.inner.data@.len(),
                visited@.len() == n,
                next == self.next(edge_labels@),
                at.leads_to(goal, next, max_depth as int),
                at.queued(queue@),
                at.all_below(n),
                at.marks(visited@, 1),
                at.order.len() >= 1,
                result@ == seq![start_rowid] + self.rowids_at(at.order.skip(1)),
            decreases unmarked(visited@, 1) + queue@.len(),
        {
            proof {
                if at.done == at.level.len() {
                    let before = at;
                    at.lemma_turn(goal, next, max_depth as int, queue@);
                    at = at.turned();
                    assert forall|j: int| 0 <= j < visited@.len() implies (#[trigger] visited@[j] == 1
                        <==> (at.seen.contains(j) || at.found.contains(j))) by {
                        assert(before.found.to_set().contains(j) == before.found.contains(j));
                    }
                }
            }
            let (idx, depth): (u32, u32) = queue.pop_front().unwrap();
            assert(idx == at.level[at.done] && depth == at.depth);
            if depth >= max_depth {
                proof {
                    at.done = at.done + 1;
                }
                continue ;
            }
            let ghost found_before = walk(next, at.level.take(at.done));
            let ghost measure = unmarked(visited@, 1) + queue@.len();
            proof {
                assert(at.level.take(at.done + 1).drop_last() =~= at.level.take(at.done));
                assert(walk(next, at.level.take(at.done + 1)) == found_before + next(idx as int));
            }
            let entity: &GraphEntity = match self.entity_at(idx as usize) {
                Some(e) => e,
                None => {
                    proof {
                        assert(found_before + Seq::<int>::empty() =~= found_before);
                        at.done = at.done + 1;
                    }
                    continue ;
                },
            };
            let ghost edges = entity.edges_out@;
            assert(next(idx as int) == self.targets(edges, edge_labels@));
            let mut pos: usize = 0;
            proof {
                assert(edges.take(0) =~= Seq::<Index>::empty());
                assert(found_before =~= found_before + Seq::<int>::empty());
            }
            while pos < entity.edges_out.len()
                invariant
                    self.wf(),
                    n == self.entities.inner.data@.len(),
                    visited@.len() == n,
                    edges == entity.edges_out@,
                    pos <= edges.len(),
                    depth == at.depth < max_depth,
                    0 <= at.done < at.level.len(),
                    idx == at.level[at.done],
                    found_before == walk(next, at.level.take(at.done)),
                    walk(next, at.level.take(at.done + 1)) == found_before + self.targets(
                        edges,
                        edge_labels@,
                    ),
                    at.order.len() >= at.found.len(),
                    at.order.len() >= 1,
                    at.order == at.order.take(at.order.len() - at.found.len()) + at.found,
                    goal == at.order.take(at.order.len() - at.found.len()) + levels(
                        next,
                        at.level,
                        at.seen,
                        (max_depth - at.depth) as nat,
                    ),
                    at.found == discover(
                        found_before + self.targets(edges.take(pos as int), edge_labels@),
                        at.seen,
                    ),
                    ({
                        let ahead = Progress { done: at.done + 1, ..at };
                        ahead.queued(queue@)
                    }),
                    at.all_below(n),
                    at.marks(visited@, 1),
                    result@ == seq![start_rowid] + self.rowids_at(at.order.skip(1)),
                    measure == unmarked(visited@, 1) + queue@.len(),
                decreases edges.len() - pos,
            {
                let edge_idx: Index = entity.edges_out[pos];
                let ghost prefix = found_before + self.targets(
                    edges.take(pos as int),
                    edge_labels@,
                );
                assert(edges.take(pos + 1).drop_last() =~= edges.take(pos as int));
                pos = pos + 1;
                let edge: &GraphEdge = match self.edge_at(edge_idx) {
                    Some(e) => e,
                    None => {
                        continue ;
                    },
                };
                if !passes(edge_labels, edge.label) {
                    continue ;
                }
                let target_idx: Index = edge.target_idx;
                proof {
                    let longer = found_before + self.targets(
                        edges.take(pos as int),
                        edge_labels@,
                    );
                    assert(longer =~= prefix.push(target_idx as int));
                    assert(longer.drop_last() =~= prefix);
                }
                if visited[target_idx] != 1 {
                    proof {
                        lemma_unmarked_update(visited@, 1, target_idx as int);
                    }
                    let ghost old_at = at;
                    visited.set(target_idx, 1);
                    queue.push_back((target_idx as u32, depth + 1));
                    if let Some(target) = self.entity_at(target_idx) {
                        result.push(target.sqlite_rowid);
                    }
                    proof {
                        at.found = old_at.found.push(target_idx as int);
                        at.order = old_at.order.push(target_idx as int);
                        assert(at.order.take(at.order.len() - at.found.len())
                            =~= old_at.order.take(old_at.order.len() - old_at.found.len()));
                        assert(at.order =~= at.order.take(at.order.len() - at.found.len())
                            + at.found);
                        assert forall|j: int| 0 <= j < visited@.len() implies (
                        #[trigger] visited@[j] == 1 <==> (at.seen.contains(j)
                            || at.found.contains(j))) by {
                            lemma_push_contains(old_at.found, target_idx as int, j);
                        }
                        assert(at.order.skip(1).drop_last() =~= old_at.order.skip(1));
                        assert(at.order.skip(1).last() == target_idx as int);
                        assert(result@ =~= seq![start_rowid] + self.rowids_at(at.order.skip(1)));
                    }
                }
            }
            proof {
                assert(edges.take(pos as int) =~= edges);
                at.done = at.done + 1;
            }
        }
        proof {
            at.lemma_finished(goal, next, max_depth as int, queue@);
        }
        result
    }
}

proof fn lemma_numbers_push(
    before: Map<u64, Pointer<GraphEntity>>,
    rowids: Seq<u64>,
    rowid: u64,
    after: Map<u64, Pointer<GraphEntity>>,
)
    requires
        numbers_rows(numbers_of(before), rowids),
        rowids.len() < u32::MAX,
        after.contains_key(rowid),
        after == before.insert(rowid, after[rowid]),
        after[rowid].data.index == rowids.len(),
    ensures
        numbers_rows(numbers_of(after), rowids.push(rowid)),
{
    let all = rowids.push(rowid);
    let old_numbers = numbers_of(before);
    let numbers = numbers_of(after);
    assert forall|r: u64| #[trigger] numbers.contains_key(r) <==> all.contains(r) by {
        assert(old_numbers.contains_key(r) <==> rowids.contains(r));
        if rowids.contains(r) {
            let k = choose|k: int| 0 <= k < rowids.len() && rowids[k] == r;
            assert(all[k] == r);
        }
        if all.contains(r) && r != rowid {
            let k = choose|k: int| 0 <= k < all.len() && all[k] == r;
            assert(rowids[k] == r);
        }
        assert(all[rowids.len() as int] == rowid);
    }
    assert forall|r: u64| #[trigger] numbers.contains_key(r) implies {
        &&& numbers[r] < all.len()
        &&& all[numbers[r] as int] == r
        &&& forall|j: int| numbers[r] < j < all.len() ==> #[trigger] all[j] != r
    } by {
        if r != rowid {
            assert(old_numbers.contains_key(r));
        }
    }
}

} // verus!
