//! Queries on a graph whose entities live in three tiers.

use vstd::prelude::*;

use super::edge_csr::{EdgeCsr, IncomingEdges, OutgoingEdges};
use super::entity_store::{evicted_rows, memory_without, meta_of, EntityStore};
use super::graph_index::{
    below, collected, edge_bytes, law_generation_clears_marks, placed_rows, seen_after,
    visited_after, GraphIndex, PositionRow,
};
use super::query_ctx::{grown, marks_below, next_generation, QueryContext};
use super::roster::{blanks, evictions, held_of, oldest_first, positioned, without, EntityMeta};
use super::rows::EdgeRow;
use super::spatial_index::{live_flags, Placed};
use super::traversal::{
    bfs_order, csr_next, discover, label_passes, mark_all, marked, passes, rowids_of,
};
use super::warm_tier::{CacheEntry, WarmTier};
use crate::ecs::pending::StorageId;
use crate::float::Float32;
use crate::proto::types::{Direction, EdgeData};

verus! {

/// Limits of the tiers.
#[derive(Clone, Copy, Debug, PartialEq, Eq, Structural)]
pub struct PipelineConfig {
    /// Bytes in memory beyond which entities are unloaded.
    pub hot_memory_threshold: usize,
    /// Size of the cache file in bytes.
    pub warm_cache_capacity: usize,
    /// Number of entities that are unloaded at a time.
    pub evict_batch_size: usize,
}

impl Default for PipelineConfig {
    fn default() -> (r: Self)
        ensures
            r.hot_memory_threshold == 512 * 1024 * 1024,
            r.warm_cache_capacity == 256 * 1024 * 1024,
            r.evict_batch_size == 256,
    {
        PipelineConfig {
            hot_memory_threshold: 536_870_912,
            warm_cache_capacity: 268_435_456,
            evict_batch_size: 256,
        }
    }
}

/// What a lookup of an entity does next.
#[derive(Clone, Copy, Debug)]
pub enum EntityStep {
    /// The lookup is over.
    Done(Option<EntityMeta>),
    /// Ask the cache file's index.
    CheckWarm,
    /// Read the entry of the cache file.
    ReadWarm(CacheEntry),
    /// Read the position from the database.
    ReadCold,
}

/// Read-only part of the graph, with the limits of the tiers.
pub struct Pipeline {
    pub index: GraphIndex,
    pub config: PipelineConfig,
}

/// An edge without its properties.
pub struct EdgeView {
    pub id: u64,
    pub source: u64,
    pub target: u64,
    pub label: u32,
}

/// What an edge says.
pub open spec fn edge_view(e: EdgeData) -> EdgeView {
    EdgeView { id: e.id, source: e.source, target: e.target, label: e.label }
}

/// Whether a list of edges says what is expected, and carries no properties.
pub open spec fn says(list: Seq<EdgeData>, expected: Seq<EdgeView>) -> bool {
    &&& list.len() == expected.len()
    &&& forall|k: int|
        0 <= k < list.len() ==> edge_view(#[trigger] list[k]) == expected[k]
            && list[k].properties@.len() == 0
}

/// Rowid of an entity; 0 if there is none with the number.
pub open spec fn rowid_at(csr: EdgeCsr, i: u32) -> u64 {
    if i < csr.entity_rowids@.len() {
        csr.entity_rowids@[i as int]
    } else {
        0
    }
}

/// Outgoing edges stored at `from..to` whose labels pass.
pub open spec fn edges_out(
    csr: EdgeCsr,
    own: u32,
    filter: Seq<u32>,
    from: int,
    to: int,
) -> Seq<EdgeView>
    decreases to - from,
{
    if to <= from {
        Seq::empty()
    } else {
        let head = edges_out(csr, own, filter, from, to - 1);
        let label = csr.labels@[to - 1] as u32;
        if label_passes(filter, label) {
            head.push(
                EdgeView {
                    id: csr.rowids@[to - 1],
                    source: rowid_at(csr, own),
                    target: rowid_at(csr, csr.targets@[to - 1]),
                    label,
                },
            )
        } else {
            head
        }
    }
}

/// Incoming edges stored at `from..to` whose labels pass.
pub open spec fn edges_in(
    csr: EdgeCsr,
    own: u32,
    filter: Seq<u32>,
    from: int,
    to: int,
) -> Seq<EdgeView>
    decreases to - from,
{
    if to <= from {
        Seq::empty()
    } else {
        let head = edges_in(csr, own, filter, from, to - 1);
        let label = csr.in_labels@[to - 1] as u32;
        if label_passes(filter, label) {
            head.push(
                EdgeView {
                    id: csr.in_rowids@[to - 1],
                    source: rowid_at(csr, csr.sources@[to - 1]),
                    target: rowid_at(csr, own),
                    label,
                },
            )
        } else {
            head
        }
    }
}

/// The smaller of two numbers.
pub open spec fn least(a: int, b: int) -> int {
    if a < b {
        a
    } else {
        b
    }
}

/// Outgoing edges of an entity among its first `limit`.
pub open spec fn first_out(csr: EdgeCsr, i: u32, filter: Seq<u32>, limit: int) -> Seq<EdgeView> {
    let from = csr.offsets@[i as int] as int;
    let to = csr.offsets@[i + 1] as int;
    edges_out(csr, i, filter, from, from + least(to - from, limit))
}

/// Incoming edges of an entity among its first `limit`.
pub open spec fn first_in(csr: EdgeCsr, i: u32, filter: Seq<u32>, limit: int) -> Seq<EdgeView> {
    let from = csr.in_offsets@[i as int] as int;
    let to = csr.in_offsets@[i + 1] as int;
    edges_in(csr, i, filter, from, from + least(to - from, limit))
}

/// Edges of an entity. The limit counts the edges that are looked at; incoming
/// ones are looked at as far as the outgoing ones that passed leave room.
pub open spec fn edges_of(
    csr: EdgeCsr,
    number: Option<u32>,
    direction: Direction,
    filter: Seq<u32>,
    limit: int,
) -> Seq<EdgeView> {
    match number {
        None => Seq::empty(),
        Some(i) => {
            let out = if direction is Incoming {
                Seq::empty()
            } else {
                first_out(csr, i, filter, limit)
            };
            if direction is Outgoing || out.len() >= limit {
                out
            } else {
                out + first_in(csr, i, filter, limit - out.len())
            }
        },
    }
}

/// Whether an entity is loaded and lies inside the bounds.
pub open spec fn lies_inside(
    meta: Option<EntityMeta>,
    min_x: Float32,
    min_y: Float32,
    max_x: Float32,
    max_y: Float32,
) -> bool {
    match meta {
        Some(m) => match m.position {
            Some((x, y)) => x.at_least(min_x) && max_x.at_least(x) && y.at_least(min_y)
                && max_y.at_least(y),
            None => false,
        },
        None => false,
    }
}

/// The rowids whose entities lie inside the bounds, in their order.
pub open spec fn inside_only(
    csr: EdgeCsr,
    metas: Seq<Option<EntityMeta>>,
    rowids: Seq<u64>,
    min_x: Float32,
    min_y: Float32,
    max_x: Float32,
    max_y: Float32,
) -> Seq<u64>
    decreases rowids.len(),
{
    if rowids.len() == 0 {
        Seq::empty()
    } else {
        let head = inside_only(csr, metas, rowids.drop_last(), min_x, min_y, max_x, max_y);
        let rowid = rowids.last();
        if lies_inside(meta_of(metas, csr.number_of(rowid)), min_x, min_y, max_x, max_y) {
            head.push(rowid)
        } else {
            head
        }
    }
}

/// The first `limit` items.
pub open spec fn at_most(rowids: Seq<u64>, limit: int) -> Seq<u64> {
    if limit < rowids.len() {
        rowids.take(limit)
    } else {
        rowids
    }
}

impl Pipeline {
    /// Whether the index is sound.
    pub open spec fn wf(self) -> bool {
        self.index.wf()
    }

    /// Whether the index is sound and the store speaks of its entities.
    pub open spec fn serves(self, entities: EntityStore) -> bool {
        &&& self.wf()
        &&& entities.wf()
        &&& entities.roster.metas().len() == self.index.edge_csr.entity_rowids@.len()
    }

    /// Whether an entity can be loaded anew.
    pub open spec fn can_promote(self, entities: EntityStore, rowid: u64) -> bool {
        match self.index.edge_csr.number_of(rowid) {
            Some(i) => entities.memory_used + EntityMeta::BYTES <= usize::MAX
                && entities.roster.can_unload(i as int),
            None => true,
        }
    }

    /// Loads a graph from its rows, with all entities in memory.
    pub fn load(
        rowids: &[u64],
        rows: &[EdgeRow],
        positions: &[PositionRow],
        config: PipelineConfig,
        id: StorageId,
    ) -> (r: (Self, EntityStore))
        requires
            rowids.len() <= u32::MAX,
            rows.len() <= u32::MAX,
            positions.len() <= u32::MAX,
            28 * rows.len() + 8 * (rowids.len() + 1) + 24 * rowids.len() <= usize::MAX,
        ensures
            r.0.wf(),
            r.0.config == config,
            r.0.serves(r.1),
            r.1.roster.unused(),
            r.0.index.edge_csr.entity_rowids@ == rowids@,
            r.0.index.edge_csr.holds_rows(rows@),
            r.0.index.holds_positions(positions@),
            r.1.roster.metas() == positioned(
                blanks(rowids@.len()),
                placed_rows(positions@, r.0.index.edge_csr.entity_by_rowid@),
            ),
            r.1.memory_used == 24 * rowids@.len() + edge_bytes(r.0.index.edge_csr),
            r.1.memory_threshold == config.hot_memory_threshold,
            r.1.access_clock == 0,
    {
        let (index, placed, entity_count, edge_memory): (GraphIndex, Vec<Placed>, usize, usize) =
            GraphIndex::load(rowids, rows, positions);
        proof {
            index.edge_csr.lemma_edge_count(rows@);
        }
        let mut entities = EntityStore::with_capacity(
            entity_count,
            config.hot_memory_threshold,
            id,
        );
        entities.memory_used = edge_memory;
        entities.populate(entity_count, placed.as_slice());
        assert(Seq::<Option<EntityMeta>>::empty() + blanks(rowids@.len()) =~= blanks(
            rowids@.len(),
        ));
        (Pipeline { index, config }, entities)
    }

    /// Starts the lookup of an entity: what is held in memory comes first.
    pub fn get_entity(&self, entities: &EntityStore, rowid: u64) -> (r: EntityStep)
        requires
            self.serves(*entities),
        ensures
            r == match meta_of(entities.roster.metas(), self.index.edge_csr.number_of(rowid)) {
                Some(meta) => EntityStep::Done(Some(meta)),
                None => EntityStep::CheckWarm,
            },
    {
        match entities.get_entity_readonly(rowid, &self.index) {
            Some(meta) => EntityStep::Done(Some(*meta)),
            None => EntityStep::CheckWarm,
        }
    }

    /// Goes on with the cache file, or with the database if the file does not
    /// have the entity.
    pub fn check_warm(&self, warm: &WarmTier, rowid: u64) -> (r: EntityStep)
        ensures
            r == if warm.index@.contains_key(rowid) {
                EntityStep::ReadWarm(warm.index@[rowid])
            } else {
                EntityStep::ReadCold
            },
    {
        match warm.get(rowid) {
            Some(entry) => EntityStep::ReadWarm(entry),
            None => EntityStep::ReadCold,
        }
    }

    /// Goes on with what was read from the cache file; with the database if the
    /// read failed.
    pub fn warm_read(
        &self,
        entities: &mut EntityStore,
        rowid: u64,
        meta: Option<EntityMeta>,
    ) -> (r: EntityStep)
        requires
            self.serves(*old(entities)),
            meta is Some ==> self.can_promote(*old(entities), rowid),
        ensures
            self.serves(*final(entities)),
            match meta {
                Some(m) => {
                    &&& r == EntityStep::Done(Some(m))
                    &&& self.promoted(*old(entities), *final(entities), rowid, m.position)
                },
                None => r == EntityStep::ReadCold && *final(entities) == *old(entities),
            },
    {
        match meta {
            Some(m) => {
                self.promote(entities, rowid, m.position);
                EntityStep::Done(Some(m))
            },
            None => EntityStep::ReadCold,
        }
    }

    /// Ends the lookup with the position that the database has, if any.
    pub fn cold_read(
        &self,
        entities: &mut EntityStore,
        rowid: u64,
        position: Option<(Float32, Float32)>,
    ) -> (r: Option<EntityMeta>)
        requires
            self.serves(*old(entities)),
            position is Some ==> self.can_promote(*old(entities), rowid),
        ensures
            self.serves(*final(entities)),
            match position {
                Some(p) => {
                    &&& self.promoted(*old(entities), *final(entities), rowid, Some(p))
                    &&& r == match self.index.edge_csr.number_of(rowid) {
                        Some(_) => Some(
                            EntityMeta {
                                position: Some(p),
                                last_access: old(entities).access_clock,
                            },
                        ),
                        None => None,
                    }
                },
                None => r is None && *final(entities) == *old(entities),
            },
    {
        match position {
            Some(p) => {
                self.promote(entities, rowid, Some(p));
                match entities.get_entity_readonly(rowid, &self.index) {
                    Some(meta) => Some(*meta),
                    None => None,
                }
            },
            None => None,
        }
    }

    /// Whether `after` is `before` with an entity loaded anew.
    pub open spec fn promoted(
        self,
        before: EntityStore,
        after: EntityStore,
        rowid: u64,
        position: Option<(Float32, Float32)>,
    ) -> bool {
        match self.index.edge_csr.number_of(rowid) {
            Some(i) => {
                &&& after.roster.metas() == before.roster.metas().update(
                    i as int,
                    Some(EntityMeta { position, last_access: before.access_clock }),
                )
                &&& before.roster.reloads(i as int, after.roster)
                &&& after.memory_used == before.memory_used + EntityMeta::BYTES
                &&& after.memory_threshold == before.memory_threshold
                &&& after.access_clock == before.access_clock
            },
            None => after == before,
        }
    }

    /// Loads an entity anew.
    fn promote(
        &self,
        entities: &mut EntityStore,
        rowid: u64,
        position: Option<(Float32, Float32)>,
    )
        requires
            self.serves(*old(entities)),
            self.can_promote(*old(entities), rowid),
        ensures
            self.serves(*final(entities)),
            self.promoted(*old(entities), *final(entities), rowid, position),
    {
        entities.reload_entity(rowid, position, &self.index);
    }

    /// Unloads a batch of entities if more memory is in use than allowed, and
    /// returns what goes to the cache file.
    pub fn maybe_evict(&self, entities: &mut EntityStore) -> (r: Vec<(u64, EntityMeta)>)
        requires
            self.serves(*old(entities)),
            old(entities).memory_used > old(entities).memory_threshold ==> old(
                entities,
            ).roster.epochs_left(),
        ensures
            self.serves(*final(entities)),
            if old(entities).memory_used > old(entities).memory_threshold {
                &&& final(entities).roster.epochs_left()
                &&& final(entities).memory_threshold == old(entities).memory_threshold
                &&& final(entities).access_clock == old(entities).access_clock
                &&& final(entities).memory_used == memory_without(
                    old(entities).memory_used as int,
                    r@.len() as int,
                )
                &&& exists|list: Seq<(u32, u64)>, gone: Seq<(u32, EntityMeta)>|
                    {
                        &&& #[trigger] oldest_first(list, old(entities).roster.metas())
                        &&& old(entities).roster.unloads(
                            evictions(list, self.config.evict_batch_size as int),
                            final(entities).roster,
                        )
                        &&& final(entities).roster.metas() == without(
                            old(entities).roster.metas(),
                            evictions(list, self.config.evict_batch_size as int),
                        )
                        &&& held_of(
                            gone,
                            old(entities).roster.metas(),
                            evictions(list, self.config.evict_batch_size as int),
                        )
                        &&& #[trigger] evicted_rows(
                            r@,
                            gone,
                            self.index.edge_csr.entity_rowids@,
                        )
                    }
            } else {
                r@.len() == 0 && *final(entities) == *old(entities)
            },
    {
        if !entities.over_threshold() {
            return Vec::new();
        }
        entities.evict_lru(self.config.evict_batch_size, &self.index)
    }

    /// Edges of an entity; none if it is unknown.
    pub fn get_edges(
        &self,
        entity_id: u64,
        direction: Direction,
        label_filter: &[u32],
        limit: u32,
    ) -> (r: Vec<EdgeData>)
        requires
            self.wf(),
        ensures
            says(
                r@,
                edges_of(
                    self.index.edge_csr,
                    self.index.edge_csr.number_of(entity_id),
                    direction,
                    label_filter@,
                    limit as int,
                ),
            ),
    {
        let mut result: Vec<EdgeData> = Vec::new();
        let entity_idx: u32 = match self.index.find_entity_index(entity_id) {
            Some(i) => i,
            None => {
                return result;
            },
        };
        let limit: usize = limit as usize;
        let csr: &EdgeCsr = &self.index.edge_csr;
        let ghost i = entity_idx as int;
        let ghost filter = label_filter@;
        if direction != Direction::Incoming {
            let edges: OutgoingEdges<'_> = csr.outgoing(entity_idx);
            let n: usize = if edges.targets.len() < limit {
                edges.targets.len()
            } else {
                limit
            };
            let ghost from = csr.offsets@[i] as int;
            let mut k: usize = 0;
            while k < n
                invariant
                    csr.wf(),
                    filter == label_filter@,
                    i == entity_idx < csr.entity_rowids@.len(),
                    from == csr.offsets@[i],
                    k <= n <= edges.targets@.len(),
                    edges.targets@ == csr.targets@.subrange(from, csr.offsets@[i + 1] as int),
                    edges.labels@ == csr.labels@.subrange(from, csr.offsets@[i + 1] as int),
                    edges.rowids@ == csr.rowids@.subrange(from, csr.offsets@[i + 1] as int),
                    csr.offsets@[i] <= csr.offsets@[i + 1] <= csr.targets@.len(),
                    says(result@, edges_out(*csr, entity_idx, filter, from, from + k)),
                decreases n - k,
            {
                let label: u32 = edges.labels[k] as u32;
                let ghost before = result@;
                if passes(label_filter, label) {
                    let source: u64 = csr.entity_rowid(entity_idx);
                    let target: u64 = csr.entity_rowid(edges.targets[k]);
                    result.push(
                        EdgeData {
                            id: edges.rowids[k],
                            source,
                            target,
                            label,
                            properties: Vec::new(),
                        },
                    );
                }
                k = k + 1;
                proof {
                    assert forall|j: int| 0 <= j < before.len() implies result@[j] == before[j] by {}
                }
            }
            assert(n == least(csr.offsets@[i + 1] - from, limit as int));
        }
        let ghost out = if direction is Incoming {
            Seq::empty()
        } else {
            first_out(*csr, entity_idx, filter, limit as int)
        };
        assert(says(result@, out));
        if direction != Direction::Outgoing && result.len() < limit {
            let edges: IncomingEdges<'_> = csr.incoming(entity_idx);
            let room: usize = limit - result.len();
            let n: usize = if edges.sources.len() < room {
                edges.sources.len()
            } else {
                room
            };
            let ghost from = csr.in_offsets@[i] as int;
            let mut k: usize = 0;
            assert(out + edges_in(*csr, entity_idx, filter, from, from) =~= out);
            while k < n
                invariant
                    csr.wf(),
                    filter == label_filter@,
                    i == entity_idx < csr.entity_rowids@.len(),
                    from == csr.in_offsets@[i],
                    k <= n <= edges.sources@.len(),
                    edges.sources@ == csr.sources@.subrange(from, csr.in_offsets@[i + 1] as int),
                    edges.labels@ == csr.in_labels@.subrange(from, csr.in_offsets@[i + 1] as int),
                    edges.rowids@ == csr.in_rowids@.subrange(from, csr.in_offsets@[i + 1] as int),
                    csr.in_offsets@[i] <= csr.in_offsets@[i + 1] <= csr.sources@.len(),
                    says(result@, out + edges_in(*csr, entity_idx, filter, from, from + k)),
                decreases n - k,
            {
                let label: u32 = edges.labels[k] as u32;
                let ghost before = result@;
                if passes(label_filter, label) {
                    let source: u64 = csr.entity_rowid(edges.sources[k]);
                    let target: u64 = csr.entity_rowid(entity_idx);
                    result.push(
                        EdgeData {
                            id: edges.rowids[k],
                            source,
                            target,
                            label,
                            properties: Vec::new(),
                        },
                    );
                }
                k = k + 1;
                proof {
                    assert forall|j: int| 0 <= j < before.len() implies result@[j] == before[j] by {}
                }
            }
            assert(n == least(csr.in_offsets@[i + 1] - from, limit - out.len()));
        }
        result
    }

    /// Rowids within `max_depth` steps of the start, nearest first, at most
    /// `limit` of them.
    pub fn traverse_bfs(
        &self,
        ctx: &mut QueryContext,
        start_rowid: u64,
        max_depth: u32,
        edge_labels: &[u32],
        limit: u32,
    ) -> (r: Vec<u64>)
        requires
            self.wf(),
        ensures
            final(ctx).seen_set == old(ctx).seen_set,
            final(ctx).seen_gen == old(ctx).seen_gen,
            final(ctx).bfs_gen == next_generation(old(ctx).bfs_gen),
            final(ctx).bfs_visited@ == visited_after(
                self.index,
                old(ctx).bfs_visited@,
                next_generation(old(ctx).bfs_gen),
                start_rowid,
                max_depth,
                edge_labels@,
            ),
            marks_below(old(ctx).bfs_visited@, old(ctx).bfs_gen) && final(ctx).bfs_gen < u32::MAX
                ==> marks_below(final(ctx).bfs_visited@, final(ctx).bfs_gen),
            r@ == at_most(
                self.reached(
                    grown(
                        old(ctx).bfs_visited@,
                        self.index.edge_csr.entity_rowids@.len() as int,
                    ),
                    next_generation(old(ctx).bfs_gen),
                    start_rowid,
                    max_depth,
                    edge_labels@,
                ),
                limit as int,
            ),
    {
        let mut visited: Vec<u64> = self.index.traverse_bfs(
            ctx,
            start_rowid,
            max_depth,
            edge_labels,
        );
        proof {
            let n = self.index.edge_csr.entity_rowids@.len() as int;
            if marks_below(old(ctx).bfs_visited@, old(ctx).bfs_gen) {
                if let Some(start) = self.index.edge_csr.number_of(start_rowid) {
                    let order = bfs_order(
                        csr_next(self.index.edge_csr, edge_labels@),
                        start as int,
                        marked(grown(old(ctx).bfs_visited@, n), ctx.bfs_gen),
                        max_depth as nat,
                    );
                    law_generation_clears_marks(
                        old(ctx).bfs_visited@,
                        old(ctx).bfs_gen,
                        n,
                        order,
                    );
                } else {
                    law_generation_clears_marks(
                        old(ctx).bfs_visited@,
                        old(ctx).bfs_gen,
                        n,
                        Seq::empty(),
                    );
                    assert(mark_all(grown(old(ctx).bfs_visited@, n), Seq::empty(), ctx.bfs_gen)
                        =~= ctx.bfs_visited@);
                }
            }
        }
        let ghost all = visited@;
        if (limit as usize) < visited.len() {
            visited.truncate(limit as usize);
        }
        assert(visited@ =~= at_most(all, limit as int));
        visited
    }

    /// Rowids within `max_depth` steps of the start, nearest first, without
    /// those marked before.
    pub open spec fn reached(
        self,
        marks: Seq<u32>,
        generation: u32,
        start_rowid: u64,
        max_depth: u32,
        labels: Seq<u32>,
    ) -> Seq<u64> {
        match self.index.edge_csr.number_of(start_rowid) {
            Some(start) => rowids_of(
                self.index.edge_csr.entity_rowids@,
                bfs_order(
                    csr_next(self.index.edge_csr, labels),
                    start as int,
                    marked(marks, generation),
                    max_depth as nat,
                ),
            ),
            None => Seq::empty(),
        }
    }

    /// Rowids of the loaded entities inside the bounds, each once, at most
    /// `limit` of them.
    pub fn search_spatial(
        &self,
        ctx: &mut QueryContext,
        entities: &EntityStore,
        min_x: Float32,
        min_y: Float32,
        max_x: Float32,
        max_y: Float32,
        lod: u16,
        limit: u32,
    ) -> (r: Vec<u64>)
        requires
            self.serves(*entities),
            lod < 32,
        ensures
            final(ctx).bfs_visited == old(ctx).bfs_visited,
            final(ctx).bfs_gen == old(ctx).bfs_gen,
            (final(ctx).seen_set@, final(ctx).seen_gen) == seen_after(
                self.index,
                old(ctx).seen_set@,
                old(ctx).seen_gen,
                min_x,
                min_y,
                max_x,
                max_y,
                lod,
            ),
            marks_below(old(ctx).seen_set@, old(ctx).seen_gen) && final(ctx).seen_gen < u32::MAX
                ==> marks_below(final(ctx).seen_set@, final(ctx).seen_gen),
            r@ == at_most(
                inside_only(
                    self.index.edge_csr,
                    entities.roster.metas(),
                    collected(
                        self.index,
                        old(ctx).seen_set@,
                        old(ctx).seen_gen,
                        live_flags(entities.roster.entity_ptrs@),
                        min_x,
                        min_y,
                        max_x,
                        max_y,
                        lod,
                    ),
                    min_x,
                    min_y,
                    max_x,
                    max_y,
                ),
                limit as int,
            ),
    {
        let mut found: Vec<u64> = Vec::new();
        self.index.query_spatial_into(
            ctx,
            min_x,
            min_y,
            max_x,
            max_y,
            lod,
            entities.roster.entity_ptrs.as_slice(),
            &mut found,
        );
        proof {
            let n = self.index.edge_csr.entity_rowids@.len() as int;
            if marks_below(old(ctx).seen_set@, old(ctx).seen_gen) && ctx.seen_gen != old(
                ctx,
            ).seen_gen {
                let marks = grown(old(ctx).seen_set@, n);
                law_generation_clears_marks(
                    old(ctx).seen_set@,
                    old(ctx).seen_gen,
                    n,
                    discover(below(ctx.spatial_buf@, n), marked(marks, ctx.seen_gen)),
                );
            }
        }
        let ghost csr = self.index.edge_csr;
        let ghost metas = entities.roster.metas();
        let mut out: Vec<u64> = Vec::new();
        let mut k: usize = 0;
        assert(found@.take(0) =~= Seq::<u64>::empty());
        while k < found.len()
            invariant
                self.serves(*entities),
                csr == self.index.edge_csr,
                metas == entities.roster.metas(),
                k <= found@.len(),
                out@ == inside_only(
                    csr,
                    metas,
                    found@.take(k as int),
                    min_x,
                    min_y,
                    max_x,
                    max_y,
                ),
            decreases found@.len() - k,
        {
            let rowid: u64 = found[k];
            assert(found@.take(k + 1).drop_last() =~= found@.take(k as int));
            if let Some((x, y)) = entities.position_of(rowid, &self.index) {
                if x.within(min_x, max_x) && y.within(min_y, max_y) {
                    out.push(rowid);
                }
            }
            k = k + 1;
        }
        assert(found@.take(k as int) =~= found@);
        let ghost all = out@;
        if (limit as usize) < out.len() {
            out.truncate(limit as usize);
        }
        assert(out@ =~= at_most(all, limit as int));
        out
    }

    /// Number of the entity with the given rowid.
    pub fn find_entity_index(&self, rowid: u64) -> (r: Option<u32>)
        ensures
            r == self.index.edge_csr.number_of(rowid),
    {
        self.index.find_entity_index(rowid)
    }

    /// Level of detail that matches the grid; 4 without one.
    pub fn spatial_lod(&self) -> (r: u16)
        ensures
            r == match self.index.spatial_index {
                Some(grid) => grid.bits,
                None => 4,
            },
    {
        self.index.spatial_lod()
    }

    /// Tests whether an entity can be loaded anew.
    pub fn may_promote(&self, entities: &EntityStore, rowid: u64) -> (r: bool)
        ensures
            r == self.can_promote(*entities, rowid),
    {
        match self.index.find_entity_index(rowid) {
            Some(i) => entities.memory_used <= usize::MAX - EntityMeta::BYTES
                && entities.roster.may_unload(i as usize),
            None => true,
        }
    }
}

} // verus!
