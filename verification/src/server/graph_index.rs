//! Topology and spatial index of a loaded graph.

use vstd::arithmetic::power2::{lemma2_to64, pow2};
use vstd::prelude::*;

use super::edge_csr::EdgeCsr;
use super::query_ctx::{grow_marks, grown, marks_below, next_generation, QueryContext};
use super::rows::EdgeRow;
use super::spatial_index::{live_flags, Placed, SpatialIndex};
use super::traversal::{
    bfs_impl, bfs_order, csr_next, discover, lemma_push_contains, mark_all, marked, rowids_of,
};
use crate::ecs::pointer::Pointer;
use crate::float::Float32;

verus! {

/// Rowid of an entity and its coordinates.
pub type PositionRow = (u64, Float32, Float32);

/// Read-only part of a loaded graph.
pub struct GraphIndex {
    pub edge_csr: EdgeCsr,
    pub spatial_index: Option<SpatialIndex>,
}

/// Positions of known entities, by their numbers.
pub open spec fn placed_rows(positions: Seq<PositionRow>, numbers: Map<u64, u32>) -> Seq<Placed>
    decreases positions.len(),
{
    if positions.len() == 0 {
        Seq::empty()
    } else {
        let head = placed_rows(positions.drop_last(), numbers);
        let last = positions.last();
        if numbers.contains_key(last.0) {
            head.push((numbers[last.0], last.1, last.2))
        } else {
            head
        }
    }
}

/// Bytes that the edge arrays of both directions take.
pub open spec fn edge_bytes(csr: EdgeCsr) -> int {
    14 * csr.targets.len() + 4 * csr.offsets.len() + 14 * csr.sources.len() + 4
        * csr.in_offsets.len()
}

/// Numbers below `n`, in their order.
pub open spec fn below(numbers: Seq<u32>, n: int) -> Seq<int>
    decreases numbers.len(),
{
    if numbers.len() == 0 {
        Seq::empty()
    } else {
        let head = below(numbers.drop_last(), n);
        if numbers.last() < n {
            head.push(numbers.last() as int)
        } else {
            head
        }
    }
}

/// The nodes that are loaded, in their order.
pub open spec fn loaded(nodes: Seq<int>, live: Seq<bool>) -> Seq<int>
    decreases nodes.len(),
{
    if nodes.len() == 0 {
        Seq::empty()
    } else {
        let head = loaded(nodes.drop_last(), live);
        if live[nodes.last()] {
            head.push(nodes.last())
        } else {
            head
        }
    }
}

/// Rowids that a spatial query collects: the loaded entities in the cells that
/// it looks at, each at its first place, without those marked before.
pub open spec fn collected(
    index: GraphIndex,
    seen_set: Seq<u32>,
    seen_gen: u32,
    live: Seq<bool>,
    min_x: Float32,
    min_y: Float32,
    max_x: Float32,
    max_y: Float32,
    lod: u16,
) -> Seq<u64> {
    match index.spatial_index {
        None => Seq::empty(),
        Some(grid) => {
            let n = index.edge_csr.entity_rowids@.len() as int;
            let found = grid.numbers_in(grid.window(min_x, min_y, max_x, max_y, lod).cells());
            let fresh = discover(
                below(found, n),
                marked(grown(seen_set, n), next_generation(seen_gen)),
            );
            rowids_of(index.edge_csr.entity_rowids@, loaded(fresh, live))
        },
    }
}

/// The marks and the generation after a spatial query.
pub open spec fn seen_after(
    index: GraphIndex,
    seen_set: Seq<u32>,
    seen_gen: u32,
    min_x: Float32,
    min_y: Float32,
    max_x: Float32,
    max_y: Float32,
    lod: u16,
) -> (Seq<u32>, u32) {
    match index.spatial_index {
        None => (seen_set, seen_gen),
        Some(grid) => {
            let n = index.edge_csr.entity_rowids@.len() as int;
            let found = grid.numbers_in(grid.window(min_x, min_y, max_x, max_y, lod).cells());
            let marks = grown(seen_set, n);
            let generation = next_generation(seen_gen);
            if found.len() == 0 || n == 0 {
                (seen_set, seen_gen)
            } else {
                (
                    mark_all(
                        marks,
                        discover(below(found, n), marked(marks, generation)),
                        generation,
                    ),
                    generation,
                )
            }
        },
    }
}

/// The marks after a traversal in a new generation.
pub open spec fn visited_after(
    index: GraphIndex,
    visited: Seq<u32>,
    generation: u32,
    start_rowid: u64,
    max_depth: u32,
    labels: Seq<u32>,
) -> Seq<u32> {
    let marks = grown(visited, index.edge_csr.entity_rowids@.len() as int);
    match index.edge_csr.number_of(start_rowid) {
        Some(start) => mark_all(
            marks,
            bfs_order(
                csr_next(index.edge_csr, labels),
                start as int,
                marked(marks, generation),
                max_depth as nat,
            ),
            generation,
        ),
        None => marks,
    }
}

/// Grid resolution for a graph: half the binary logarithm of the number of
/// nodes, rounded to nearest, and at least 4 and at most 8.
pub fn spatial_bits_for_count(node_count: usize) -> (r: u16)
    ensures
        4 <= r <= 8,
        r > 4 ==> pow2((2 * r - 1) as nat) <= node_count,
        r < 8 ==> node_count < pow2((2 * r + 1) as nat),
{
    proof {
        lemma2_to64();
    }
    if node_count >= 0x8000 {
        8
    } else if node_count >= 0x2000 {
        7
    } else if node_count >= 0x800 {
        6
    } else if node_count >= 0x200 {
        5
    } else {
        4
    }
}

/// Gives positions the numbers of their entities; those of unknown entities
/// are left out.
pub fn place_rows(csr: &EdgeCsr, positions: &[PositionRow]) -> (r: Vec<Placed>)
    ensures
        r@ == placed_rows(positions@, csr.entity_by_rowid@),
        r.len() <= positions.len(),
{
    let mut placed: Vec<Placed> = Vec::with_capacity(positions.len());
    let mut i: usize = 0;
    while i < positions.len()
        invariant
            i <= positions.len(),
            placed@ == placed_rows(positions@.take(i as int), csr.entity_by_rowid@),
            placed.len() <= i,
        decreases positions.len() - i,
    {
        let p: PositionRow = positions[i];
        assert(positions@.take(i + 1).drop_last() =~= positions@.take(i as int));
        if let Some(idx) = csr.find_entity_index(p.0) {
            placed.push((idx, p.1, p.2));
        }
        i = i + 1;
    }
    assert(positions@.take(i as int) =~= positions@);
    placed
}

/// Bytes that the edge arrays take.
pub fn edge_memory_of(csr: &EdgeCsr) -> (r: usize)
    requires
        csr.wf(),
        edge_bytes(*csr) <= usize::MAX,
    ensures
        r == edge_bytes(*csr),
{
    let mut total: usize = 0;
    total = total + csr.targets.len() * 4;
    total = total + csr.labels.len() * 2;
    total = total + csr.rowids.len() * 8;
    total = total + csr.offsets.len() * 4;
    total = total + csr.sources.len() * 4;
    total = total + csr.in_labels.len() * 2;
    total = total + csr.in_rowids.len() * 8;
    total = total + csr.in_offsets.len() * 4;
    total
}

/// Appends the rowids of the loaded entities among those found, leaving out
/// entities that carry the mark of the generation. Every entity that comes up
/// gets it.
pub fn collect_loaded<T>(
    entity_rowids: &Vec<u64>,
    found: &Vec<u32>,
    entity_ptrs: &[Option<Pointer<T>>],
    seen_set: &mut Vec<u32>,
    generation: u32,
    out: &mut Vec<u64>,
)
    requires
        entity_ptrs@.len() >= entity_rowids@.len(),
        old(seen_set)@.len() >= entity_rowids@.len(),
    ensures
        ({
            let fresh = discover(
                below(found@, entity_rowids@.len() as int),
                marked(old(seen_set)@, generation),
            );
            &&& final(seen_set)@ == mark_all(old(seen_set)@, fresh, generation)
            &&& final(out)@ == old(out)@ + rowids_of(
                entity_rowids@,
                loaded(fresh, live_flags(entity_ptrs@)),
            )
        }),
{
    let ghost marks = seen_set@;
    let ghost seen0 = marked(marks, generation);
    let ghost live = live_flags(entity_ptrs@);
    let ghost rowids = entity_rowids@;
    let ghost n = rowids.len() as int;
    let entity_count: usize = entity_rowids.len();
    let mut k: usize = 0;
    assert(found@.take(0) =~= Seq::<u32>::empty());
    assert(mark_all(marks, Seq::empty(), generation) =~= marks);
    assert(out@ =~= out@ + rowids_of(rowids, loaded(Seq::empty(), live)));
    while k < found.len()
        invariant
            entity_count == entity_rowids@.len() == n,
            entity_ptrs@.len() >= entity_count,
            rowids == entity_rowids@,
            live == live_flags(entity_ptrs@),
            seen0 == marked(marks, generation),
            marks.len() >= n,
            k <= found@.len(),
            seen_set@ == mark_all(
                marks,
                discover(below(found@.take(k as int), n), seen0),
                generation,
            ),
            out@ == old(out)@ + rowids_of(
                rowids,
                loaded(discover(below(found@.take(k as int), n), seen0), live),
            ),
        decreases found@.len() - k,
    {
        let ghost head = below(found@.take(k as int), n);
        let ghost fresh = discover(head, seen0);
        assert(found@.take(k + 1).drop_last() =~= found@.take(k as int));
        let i: usize = found[k] as usize;
        k = k + 1;
        if i >= entity_count {
            continue ;
        }
        proof {
            assert(below(found@.take(k as int), n) == head.push(i as int));
            assert(head.push(i as int).drop_last() =~= head);
            assert(seen_set@[i as int] == generation <==> seen0.contains(i as int)
                || fresh.contains(i as int));
        }
        if seen_set[i] == generation {
            continue ;
        }
        seen_set.set(i, generation);
        proof {
            let more = fresh.push(i as int);
            assert(more.drop_last() =~= fresh);
            assert(seen_set@ =~= mark_all(marks, more, generation)) by {
                assert forall|j: int| 0 <= j < marks.len() implies seen_set@[j] == mark_all(
                    marks,
                    more,
                    generation,
                )[j] by {
                    lemma_push_contains(fresh, i as int, j);
                }
            }
        }
        if entity_ptrs[i].is_some() {
            out.push(entity_rowids[i]);
            proof {
                let before = loaded(fresh, live);
                assert(out@ =~= old(out)@ + rowids_of(rowids, before.push(i as int)));
            }
        }
    }
    assert(found@.take(k as int) =~= found@);
}

impl GraphIndex {
    /// Whether both indexes are sound.
    pub open spec fn wf(self) -> bool {
        &&& self.edge_csr.wf()
        &&& self.spatial_index is Some ==> self.spatial_index->0.wf()
    }

    /// Whether there is a grid exactly if there are positions, and it holds
    /// those of known entities at the resolution for the number of entities.
    pub open spec fn holds_positions(self, positions: Seq<PositionRow>) -> bool {
        &&& self.spatial_index is Some <==> positions.len() > 0
        &&& match self.spatial_index {
            Some(grid) => {
                let n = self.edge_csr.entity_rowids@.len();
                &&& grid.holds(placed_rows(positions, self.edge_csr.entity_by_rowid@))
                &&& 4 <= grid.bits <= 8
                &&& grid.bits > 4 ==> pow2((2 * grid.bits - 1) as nat) <= n
                &&& grid.bits < 8 ==> n < pow2((2 * grid.bits + 1) as nat)
            },
            None => true,
        }
    }

    /// Builds the index from the entity rowids, the edge rows and the position
    /// rows. Also gives the placed entities, the number of entities and the
    /// bytes that the edge arrays take.
    pub fn load(rowids: &[u64], rows: &[EdgeRow], positions: &[PositionRow]) -> (r: (
        Self,
        Vec<Placed>,
        usize,
        usize,
    ))
        requires
            rowids.len() <= u32::MAX,
            rows.len() <= u32::MAX,
            positions.len() <= u32::MAX,
            28 * rows.len() + 8 * (rowids.len() + 1) <= usize::MAX,
        ensures
            r.0.wf(),
            r.0.edge_csr.entity_rowids@ == rowids@,
            r.0.edge_csr.holds_rows(rows@),
            r.0.holds_positions(positions@),
            r.1@ == placed_rows(positions@, r.0.edge_csr.entity_by_rowid@),
            r.2 == rowids.len(),
            r.3 == edge_bytes(r.0.edge_csr),
    {
        let edge_csr = EdgeCsr::load(rowids, rows);
        proof {
            edge_csr.lemma_edge_count(rows@);
        }
        let edge_memory: usize = edge_memory_of(&edge_csr);
        if positions.len() > 0 {
            let placed: Vec<Placed> = place_rows(&edge_csr, positions);
            let bits: u16 = spatial_bits_for_count(rowids.len());
            let index = SpatialIndex::build(placed.as_slice(), bits);
            (
                GraphIndex { edge_csr, spatial_index: Some(index) },
                placed,
                rowids.len(),
                edge_memory,
            )
        } else {
            assert(positions@ =~= Seq::<PositionRow>::empty());
            (
                GraphIndex { edge_csr, spatial_index: None },
                Vec::new(),
                rowids.len(),
                edge_memory,
            )
        }
    }

    /// Number of the entity with the given rowid.
    pub fn find_entity_index(&self, rowid: u64) -> (r: Option<u32>)
        ensures
            r == self.edge_csr.number_of(rowid),
    {
        self.edge_csr.find_entity_index(rowid)
    }

    /// Rowids of the entities within `max_depth` steps of the start, along
    /// edges whose labels pass, nearest first. None if the start is unknown.
    pub fn traverse_bfs(
        &self,
        ctx: &mut QueryContext,
        start_rowid: u64,
        max_depth: u32,
        edge_labels: &[u32],
    ) -> (r: Vec<u64>)
        requires
            self.wf(),
        ensures
            final(ctx).seen_set == old(ctx).seen_set,
            final(ctx).seen_gen == old(ctx).seen_gen,
            final(ctx).spatial_buf == old(ctx).spatial_buf,
            final(ctx).bfs_gen == next_generation(old(ctx).bfs_gen),
            final(ctx).queue_buf@.len() == 0,
            ({
                let marks = grown(
                    old(ctx).bfs_visited@,
                    self.edge_csr.entity_rowids.len() as int,
                );
                match self.edge_csr.number_of(start_rowid) {
                    None => {
                        &&& r@ == Seq::<u64>::empty()
                        &&& final(ctx).bfs_visited@ == marks
                    },
                    Some(start) => {
                        let order = bfs_order(
                            csr_next(self.edge_csr, edge_labels@),
                            start as int,
                            marked(marks, final(ctx).bfs_gen),
                            max_depth as nat,
                        );
                        &&& r@ == rowids_of(self.edge_csr.entity_rowids@, order)
                        &&& final(ctx).bfs_visited@ == mark_all(
                            marks,
                            order,
                            final(ctx).bfs_gen,
                        )
                    },
                }
            }),
    {
        let mut result: Vec<u64> = Vec::new();
        let entity_count: usize = self.edge_csr.entity_count();
        grow_marks(&mut ctx.bfs_visited, entity_count);
        ctx.bfs_gen = if ctx.bfs_gen == u32::MAX {
            0
        } else {
            ctx.bfs_gen + 1
        };
        let generation: u32 = ctx.bfs_gen;
        ctx.queue_buf.clear();
        bfs_impl(
            &self.edge_csr,
            start_rowid,
            max_depth,
            edge_labels,
            &mut ctx.bfs_visited,
            generation,
            &mut ctx.queue_buf,
            &mut result,
        );
        proof {
            if let Some(start) = self.edge_csr.number_of(start_rowid) {
                let order = bfs_order(
                    csr_next(self.edge_csr, edge_labels@),
                    start as int,
                    marked(
                        grown(
                            old(ctx).bfs_visited@,
                            self.edge_csr.entity_rowids.len() as int,
                        ),
                        generation,
                    ),
                    max_depth as nat,
                );
                assert(result@ =~= rowids_of(self.edge_csr.entity_rowids@, order));
            }
        }
        result
    }

    /// Collects the rowids of the loaded entities in the cells that a query
    /// looks at, each once.
    pub fn query_spatial_into<T>(
        &self,
        ctx: &mut QueryContext,
        min_x: Float32,
        min_y: Float32,
        max_x: Float32,
        max_y: Float32,
        lod: u16,
        entity_ptrs: &[Option<Pointer<T>>],
        out: &mut Vec<u64>,
    )
        requires
            self.wf(),
            lod < 32,
            entity_ptrs.len() >= self.edge_csr.entity_rowids.len(),
        ensures
            final(ctx).bfs_visited == old(ctx).bfs_visited,
            final(ctx).bfs_gen == old(ctx).bfs_gen,
            final(ctx).queue_buf == old(ctx).queue_buf,
            final(out)@ == collected(
                *self,
                old(ctx).seen_set@,
                old(ctx).seen_gen,
                live_flags(entity_ptrs@),
                min_x,
                min_y,
                max_x,
                max_y,
                lod,
            ),
            match self.spatial_index {
                None => {
                    &&& final(out)@ == Seq::<u64>::empty()
                    &&& *final(ctx) == *old(ctx)
                },
                Some(index) => {
                    let n = self.edge_csr.entity_rowids.len() as int;
                    let found = index.numbers_in(
                        index.window(min_x, min_y, max_x, max_y, lod).cells(),
                    );
                    &&& final(ctx).spatial_buf@ == found
                    &&& if found.len() == 0 || n == 0 {
                        &&& final(out)@ == Seq::<u64>::empty()
                        &&& final(ctx).seen_set == old(ctx).seen_set
                        &&& final(ctx).seen_gen == old(ctx).seen_gen
                    } else {
                        let marks = grown(old(ctx).seen_set@, n);
                        let generation = next_generation(old(ctx).seen_gen);
                        let fresh = discover(below(found, n), marked(marks, generation));
                        &&& final(ctx).seen_gen == generation
                        &&& final(ctx).seen_set@ == mark_all(marks, fresh, generation)
                        &&& final(out)@ == rowids_of(
                            self.edge_csr.entity_rowids@,
                            loaded(fresh, live_flags(entity_ptrs@)),
                        )
                    }
                },
            },
    {
        out.clear();
        if let Some(index) = &self.spatial_index {
            index.query_bounds_into(min_x, min_y, max_x, max_y, lod, &mut ctx.spatial_buf);
            let entity_count: usize = self.edge_csr.entity_rowids.len();
            if ctx.spatial_buf.len() == 0 || entity_count == 0 {
                proof {
                    lemma_nothing_below(ctx.spatial_buf@, entity_count as int);
                }
                return ;
            }
            ctx.seen_gen = if ctx.seen_gen == u32::MAX {
                0
            } else {
                ctx.seen_gen + 1
            };
            let generation: u32 = ctx.seen_gen;
            grow_marks(&mut ctx.seen_set, entity_count);
            collect_loaded(
                &self.edge_csr.entity_rowids,
                &ctx.spatial_buf,
                entity_ptrs,
                &mut ctx.seen_set,
                generation,
                out,
            );
            assert(Seq::<u64>::empty() + rowids_of(
                self.edge_csr.entity_rowids@,
                loaded(
                    discover(
                        below(ctx.spatial_buf@, entity_count as int),
                        marked(grown(old(ctx).seen_set@, entity_count as int), generation),
                    ),
                    live_flags(entity_ptrs@),
                ),
            ) =~= out@);
        }
    }

    /// Level of detail that matches the grid; 4 without one.
    pub fn spatial_lod(&self) -> (r: u16)
        ensures
            r == match self.spatial_index {
                Some(index) => index.bits,
                None => 4,
            },
    {
        match &self.spatial_index {
            Some(index) => index.bits(),
            None => 4,
        }
    }
}

/// With marks that are not newer than their generation, the next generation
/// starts from a clean slate, and marking in it keeps that so.
pub proof fn law_generation_clears_marks(
    marks: Seq<u32>,
    generation: u32,
    n: int,
    nodes: Seq<int>,
)
    requires
        marks_below(marks, generation),
        0 <= n,
    ensures
        marked(grown(marks, n), next_generation(generation)) == Set::<int>::empty(),
        next_generation(generation) < u32::MAX ==> marks_below(
            mark_all(grown(marks, n), nodes, next_generation(generation)),
            next_generation(generation),
        ),
{
    let all = grown(marks, n);
    let g = next_generation(generation);
    assert forall|j: int| 0 <= j < all.len() implies #[trigger] all[j] <= generation by {
        if j < marks.len() {
            assert(all[j] == marks[j]);
        }
    }
    assert(marked(all, g) =~= Set::<int>::empty());
}

proof fn lemma_nothing_below(numbers: Seq<u32>, n: int)
    requires
        numbers.len() == 0 || n == 0,
    ensures
        below(numbers, n) == Seq::<int>::empty(),
    decreases numbers.len(),
{
    if numbers.len() > 0 {
        lemma_nothing_below(numbers.drop_last(), n);
    }
}

} // verus!
