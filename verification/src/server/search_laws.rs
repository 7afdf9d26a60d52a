//! What spatial searches of the graphs in memory say of the position rows.

use vstd::arithmetic::power2::pow2;
use vstd::prelude::*;

use super::graph_index::{
    below, collected, law_generation_clears_marks, loaded, placed_rows, GraphIndex, PositionRow,
};
use super::graph_store::{numbers_of, slot_hit, GraphStore};
use super::hot_tier::{hit, HotTier};
use super::place_laws::lemma_collected;
use super::query_ctx::{grown, marks_below, next_generation};
use super::rows::EdgeRow;
use super::sorted::ascending;
use super::spatial_index::SpatialIndex;
use super::spatial_laws::law_query_looks_at_tiles;
use super::tile_math::tile_of;
use super::traversal::{discover, lemma_push_contains, marked};
use super::traversal_laws::lemma_discover;
use crate::float::Float32;

verus! {

/// Number of tiles along each side at which a query looks at a grid.
pub open spec fn looked_at(bits: u16, lod: u16) -> u32 {
    (if lod < bits {
        pow2(lod as nat)
    } else {
        pow2(bits as nat)
    }) as u32
}

/// Whether a row gives an entity a position in one of the tiles from that of the
/// lower to that of the upper bound, along both axes.
pub open spec fn placed_in_tiles(
    row: PositionRow,
    rowid: u64,
    count: u32,
    min_x: Float32,
    min_y: Float32,
    max_x: Float32,
    max_y: Float32,
) -> bool {
    &&& row.0 == rowid
    &&& tile_of(min_x, count) <= tile_of(row.1, count)
    &&& tile_of(row.1, count) <= tile_of(max_x, count)
    &&& tile_of(min_y, count) <= tile_of(row.2, count)
    &&& tile_of(row.2, count) <= tile_of(max_y, count)
}

/// A place is found exactly if a row puts its entity in one of the tiles.
proof fn lemma_found(
    grid: SpatialIndex,
    positions: Seq<PositionRow>,
    numbers: Map<u64, u32>,
    ids: Seq<u64>,
    min_x: Float32,
    min_y: Float32,
    max_x: Float32,
    max_y: Float32,
    lod: u16,
    i: int,
)
    requires
        grid.wf(),
        grid.holds(placed_rows(positions, numbers)),
        ids.no_duplicates(),
        ids.len() <= u32::MAX,
        0 <= i < ids.len(),
        forall|r: u64| #[trigger] numbers.contains_key(r) <==> ids.contains(r),
        forall|r: u64| #[trigger]
            numbers.contains_key(r) ==> numbers[r] < ids.len() && ids[numbers[r] as int] == r,
    ensures
        grid.numbers_in(grid.window(min_x, min_y, max_x, max_y, lod).cells()).contains(i as u32)
            <==> exists|k: int|
            0 <= k < positions.len() && #[trigger] placed_in_tiles(
                positions[k],
                ids[i],
                looked_at(grid.bits, lod),
                min_x,
                min_y,
                max_x,
                max_y,
            ),
{
    let placed = placed_rows(positions, numbers);
    let count = looked_at(grid.bits, lod);
    law_query_looks_at_tiles(grid, placed, i as u32, min_x, min_y, max_x, max_y, lod);
    if grid.numbers_in(grid.window(min_x, min_y, max_x, max_y, lod).cells()).contains(i as u32) {
        let a = choose|a: int|
            0 <= a < placed.len() && (#[trigger] placed[a]).0 == i as u32 && tile_of(min_x, count)
                <= tile_of(placed[a].1, count) && tile_of(placed[a].1, count) <= tile_of(
                max_x,
                count,
            ) && tile_of(min_y, count) <= tile_of(placed[a].2, count) && tile_of(
                placed[a].2,
                count,
            ) <= tile_of(max_y, count);
        lemma_placed_source(positions, numbers, ids, a);
        let k = choose|k: int|
            0 <= k < positions.len() && (#[trigger] positions[k]).0 == ids[placed[a].0 as int]
                && positions[k].1 == placed[a].1 && positions[k].2 == placed[a].2;
        assert(placed_in_tiles(positions[k], ids[i], count, min_x, min_y, max_x, max_y));
    }
    if exists|k: int|
        0 <= k < positions.len() && #[trigger] placed_in_tiles(
            positions[k],
            ids[i],
            count,
            min_x,
            min_y,
            max_x,
            max_y,
        ) {
        let k = choose|k: int|
            0 <= k < positions.len() && #[trigger] placed_in_tiles(
                positions[k],
                ids[i],
                count,
                min_x,
                min_y,
                max_x,
                max_y,
            );
        assert(ids.contains(ids[i]));
        assert(numbers.contains_key(ids[i]));
        assert(ids[numbers[ids[i]] as int] == ids[i]);
        lemma_row_is_placed(positions, numbers, k);
        let p = (i as u32, positions[k].1, positions[k].2);
        let a = choose|a: int| 0 <= a < placed.len() && placed[a] == p;
        assert(placed[a].0 == i as u32);
    }
}

proof fn lemma_row_is_placed(positions: Seq<PositionRow>, numbers: Map<u64, u32>, k: int)
    requires
        0 <= k < positions.len(),
        numbers.contains_key(positions[k].0),
    ensures
        placed_rows(positions, numbers).contains(
            (numbers[positions[k].0], positions[k].1, positions[k].2),
        ),
    decreases positions.len(),
{
    let rest = positions.drop_last();
    let placed = placed_rows(positions, numbers);
    let p = (numbers[positions[k].0], positions[k].1, positions[k].2);
    if k < rest.len() {
        assert(rest[k] == positions[k]);
        lemma_row_is_placed(rest, numbers, k);
        let head = placed_rows(rest, numbers);
        let a = choose|a: int| 0 <= a < head.len() && head[a] == p;
        assert(placed[a] == p);
    } else {
        assert(placed[placed.len() - 1] == p);
    }
}

proof fn lemma_placed_source(
    positions: Seq<PositionRow>,
    numbers: Map<u64, u32>,
    ids: Seq<u64>,
    a: int,
)
    requires
        0 <= a < placed_rows(positions, numbers).len(),
        forall|r: u64| #[trigger]
            numbers.contains_key(r) ==> numbers[r] < ids.len() && ids[numbers[r] as int] == r,
    ensures
        ({
            let p = placed_rows(positions, numbers)[a];
            &&& p.0 < ids.len()
            &&& exists|k: int|
                0 <= k < positions.len() && (#[trigger] positions[k]).0 == ids[p.0 as int]
                    && positions[k].1 == p.1 && positions[k].2 == p.2
        }),
    decreases positions.len(),
{
    let rest = positions.drop_last();
    let head = placed_rows(rest, numbers);
    let p = placed_rows(positions, numbers)[a];
    if a < head.len() {
        lemma_placed_source(rest, numbers, ids, a);
        let k = choose|k: int|
            0 <= k < rest.len() && (#[trigger] rest[k]).0 == ids[p.0 as int] && rest[k].1 == p.1
                && rest[k].2 == p.2;
        assert(positions[k] == rest[k]);
    } else {
        let row = positions.last();
        assert(positions[positions.len() - 1] == row);
        assert(numbers.contains_key(row.0));
    }
}

/// A spatial query of the graph in memory reports, in ascending order and each
/// once, exactly the entities in memory with a row in the tiles that it looks
/// at.
pub proof fn law_hot_query_looks_at_rows(
    tier: HotTier,
    positions: Seq<PositionRow>,
    min_x: Float32,
    min_y: Float32,
    max_x: Float32,
    max_y: Float32,
    lod: u16,
    r: Seq<u64>,
    i: int,
)
    requires
        tier.wf(),
        tier.edge_csr.entity_rowids@.no_duplicates(),
        tier.spatial_index is Some,
        tier.spatial_index->0.holds(placed_rows(positions, tier.edge_csr.entity_by_rowid@)),
        ascending(r),
        forall|rowid: u64| #[trigger]
            r.contains(rowid) <==> hit(
                tier.edge_csr.entity_rowids@,
                tier.roster.metas(),
                tier.spatial_index->0.numbers_in(
                    tier.spatial_index->0.window(min_x, min_y, max_x, max_y, lod).cells(),
                ),
                rowid,
            ),
        0 <= i < tier.edge_csr.entity_rowids@.len(),
    ensures
        forall|a: int, b: int| 0 <= a < b < r.len() ==> #[trigger] r[a] < #[trigger] r[b],
        forall|k: int|
            0 <= k < r.len() ==> tier.edge_csr.entity_rowids@.contains(#[trigger] r[k]),
        r.contains(tier.edge_csr.entity_rowids@[i]) <==> tier.roster.metas()[i] is Some && exists|
            k: int,
        |
            0 <= k < positions.len() && #[trigger] placed_in_tiles(
                positions[k],
                tier.edge_csr.entity_rowids@[i],
                looked_at(tier.spatial_index->0.bits, lod),
                min_x,
                min_y,
                max_x,
                max_y,
            ),
{
    let ids = tier.edge_csr.entity_rowids@;
    let metas = tier.roster.metas();
    let grid = tier.spatial_index->0;
    let found = grid.numbers_in(grid.window(min_x, min_y, max_x, max_y, lod).cells());
    lemma_found(
        grid,
        positions,
        tier.edge_csr.entity_by_rowid@,
        ids,
        min_x,
        min_y,
        max_x,
        max_y,
        lod,
        i,
    );
    assert forall|k: int| 0 <= k < r.len() implies ids.contains(#[trigger] r[k]) by {
        assert(r.contains(r[k]));
        let a = choose|a: int|
            0 <= a < found.len() && (#[trigger] found[a]) < metas.len() && metas[found[a] as int]
                is Some && ids[found[a] as int] == r[k];
        assert(ids.contains(ids[found[a] as int]));
    }
    if r.contains(ids[i]) {
        let a = choose|a: int|
            0 <= a < found.len() && (#[trigger] found[a]) < metas.len() && metas[found[a] as int]
                is Some && ids[found[a] as int] == ids[i];
        assert(found[a] == i);
        assert(found.contains(i as u32));
    }
    if found.contains(i as u32) && metas[i] is Some {
        let a = choose|a: int| 0 <= a < found.len() && found[a] == i as u32;
        assert(found[a] == i);
        assert(hit(ids, metas, found, ids[i]));
    }
}

/// A spatial query of the graph of slots reports, in ascending order and each
/// once, exactly the entities with a row in the tiles that it looks at; rowid 0
/// is never reported.
pub proof fn law_store_query_looks_at_rows(
    graph: GraphStore,
    rowids: Seq<u64>,
    rows: Seq<EdgeRow>,
    positions: Seq<PositionRow>,
    min_x: Float32,
    min_y: Float32,
    max_x: Float32,
    max_y: Float32,
    lod: u16,
    r: Seq<u64>,
    i: int,
)
    requires
        graph.wf(),
        graph.holds(rowids, rows, positions),
        rowids.no_duplicates(),
        graph.spatial_index is Some,
        ascending(r),
        forall|rowid: u64| #[trigger]
            r.contains(rowid) <==> slot_hit(
                graph.rowid_by_index@,
                graph.spatial_index->0.numbers_in(
                    graph.spatial_index->0.window(min_x, min_y, max_x, max_y, lod).cells(),
                ),
                rowid,
            ),
        0 <= i < rowids.len(),
    ensures
        forall|a: int, b: int| 0 <= a < b < r.len() ==> #[trigger] r[a] < #[trigger] r[b],
        forall|k: int| 0 <= k < r.len() ==> rowids.contains(#[trigger] r[k]),
        r.contains(rowids[i]) <==> rowids[i] != 0 && exists|k: int|
            0 <= k < positions.len() && #[trigger] placed_in_tiles(
                positions[k],
                rowids[i],
                looked_at(graph.spatial_index->0.bits, lod),
                min_x,
                min_y,
                max_x,
                max_y,
            ),
{
    let grid = graph.spatial_index->0;
    let found = grid.numbers_in(grid.window(min_x, min_y, max_x, max_y, lod).cells());
    lemma_found(
        grid,
        positions,
        numbers_of(graph.entity_by_rowid@),
        rowids,
        min_x,
        min_y,
        max_x,
        max_y,
        lod,
        i,
    );
    assert forall|k: int| 0 <= k < r.len() implies rowids.contains(#[trigger] r[k]) by {
        assert(r.contains(r[k]));
        let a = choose|a: int|
            0 <= a < found.len() && (#[trigger] found[a]) < rowids.len() && rowids[found[a] as int]
                == r[k];
        assert(rowids.contains(rowids[found[a] as int]));
    }
    if r.contains(rowids[i]) {
        let a = choose|a: int|
            0 <= a < found.len() && (#[trigger] found[a]) < rowids.len() && rowids[found[a] as int]
                == rowids[i];
        assert(found[a] == i);
        assert(found.contains(i as u32));
    }
    if found.contains(i as u32) && rowids[i] != 0 {
        let a = choose|a: int| 0 <= a < found.len() && found[a] == i as u32;
        assert(found[a] == i);
        assert(slot_hit(rowids, found, rowids[i]));
    }
}

/// From clean marks, a spatial query with kept buffers reports each entity at
/// most once, and exactly the loaded ones with a row in the tiles that it looks
/// at.
pub proof fn law_collected_look_at_rows(
    index: GraphIndex,
    positions: Seq<PositionRow>,
    seen_set: Seq<u32>,
    seen_gen: u32,
    live: Seq<bool>,
    min_x: Float32,
    min_y: Float32,
    max_x: Float32,
    max_y: Float32,
    lod: u16,
    r: Seq<u64>,
    i: int,
)
    requires
        index.wf(),
        index.edge_csr.entity_rowids@.no_duplicates(),
        index.spatial_index is Some,
        index.spatial_index->0.holds(placed_rows(positions, index.edge_csr.entity_by_rowid@)),
        live.len() == index.edge_csr.entity_rowids@.len(),
        marks_below(seen_set, seen_gen),
        r == collected(index, seen_set, seen_gen, live, min_x, min_y, max_x, max_y, lod),
        0 <= i < index.edge_csr.entity_rowids@.len(),
    ensures
        r.no_duplicates(),
        forall|k: int|
            0 <= k < r.len() ==> index.edge_csr.entity_rowids@.contains(#[trigger] r[k]),
        r.contains(index.edge_csr.entity_rowids@[i]) <==> live[i] && exists|k: int|
            0 <= k < positions.len() && #[trigger] placed_in_tiles(
                positions[k],
                index.edge_csr.entity_rowids@[i],
                looked_at(index.spatial_index->0.bits, lod),
                min_x,
                min_y,
                max_x,
                max_y,
            ),
{
    let ids = index.edge_csr.entity_rowids@;
    let n = ids.len() as int;
    let grid = index.spatial_index->0;
    let found = grid.numbers_in(grid.window(min_x, min_y, max_x, max_y, lod).cells());
    let nodes = below(found, n);
    let seen = marked(grown(seen_set, n), next_generation(seen_gen));
    let fresh = discover(nodes, seen);
    let hits = loaded(fresh, live);
    lemma_collected(index, seen_set, seen_gen, live, min_x, min_y, max_x, max_y, lod);
    lemma_found(
        grid,
        positions,
        index.edge_csr.entity_by_rowid@,
        ids,
        min_x,
        min_y,
        max_x,
        max_y,
        lod,
        i,
    );
    law_generation_clears_marks(seen_set, seen_gen, n, Seq::empty());
    lemma_discover(nodes, seen);
    lemma_below_iff(found, n, i);
    lemma_loaded_iff(fresh, live, i);
    lemma_discovered_below(found, n, fresh, seen);
    assert(fresh.contains(i) <==> found.contains(i as u32));
    if hits.contains(i) {
        let k = choose|k: int| 0 <= k < hits.len() && hits[k] == i;
        assert(r[k] == ids[i]);
    }
    if r.contains(ids[i]) {
        let k = choose|k: int| 0 <= k < r.len() && r[k] == ids[i];
        assert(ids[hits[k]] == ids[i]);
        lemma_loaded_iff(fresh, live, hits[k]);
        assert(hits.contains(hits[k]));
        assert(fresh.contains(hits[k]));
        assert(0 <= hits[k] < n);
        assert(hits[k] == i);
    }
}

proof fn lemma_discovered_below(found: Seq<u32>, n: int, fresh: Seq<int>, seen: Set<int>)
    requires
        fresh == discover(below(found, n), seen),
    ensures
        forall|x: int| #[trigger] fresh.contains(x) ==> 0 <= x < n,
{
    lemma_discover(below(found, n), seen);
    assert forall|x: int| #[trigger] fresh.contains(x) implies 0 <= x < n by {
        lemma_below_iff(found, n, x);
    }
}

proof fn lemma_below_iff(found: Seq<u32>, n: int, x: int)
    ensures
        below(found, n).contains(x) <==> 0 <= x < n && x <= u32::MAX && found.contains(x as u32),
    decreases found.len(),
{
    if found.len() > 0 {
        let rest = found.drop_last();
        let last = found.last();
        lemma_below_iff(rest, n, x);
        lemma_push_contains(below(rest, n), last as int, x);
        assert(found =~= rest.push(last));
        if rest.contains(x as u32) {
            let k = choose|k: int| 0 <= k < rest.len() && rest[k] == x as u32;
            assert(found[k] == x as u32);
        }
        assert(found[found.len() - 1] == last);
        if found.contains(x as u32) && last != x as u32 {
            let k = choose|k: int| 0 <= k < found.len() && found[k] == x as u32;
            assert(rest[k] == x as u32);
        }
    }
}

proof fn lemma_loaded_iff(nodes: Seq<int>, live: Seq<bool>, x: int)
    ensures
        loaded(nodes, live).contains(x) <==> nodes.contains(x) && live[x],
    decreases nodes.len(),
{
    if nodes.len() > 0 {
        let rest = nodes.drop_last();
        let last = nodes.last();
        lemma_loaded_iff(rest, live, x);
        lemma_push_contains(loaded(rest, live), last, x);
        lemma_push_contains(rest, last, x);
        assert(nodes =~= rest.push(last));
    }
}

} // verus!
