//! What entities in memory and spatial searches say of the position rows that
//! were loaded.

use vstd::prelude::*;

use super::edge_csr::EdgeCsr;
use super::entity_store::meta_of;
use super::graph_index::{below, collected, loaded, placed_rows, GraphIndex, PositionRow};
use super::pipeline::{at_most, inside_only, lies_inside};
use super::pipeline_laws::law_search_finds_all_inside;
use super::query_ctx::{grown, marks_below, next_generation};
use super::roster::{blanks, positioned, EntityMeta, Roster};
use super::spatial_index::{live_flags, Placed};
use super::traversal::{discover, marked, rowids_of};
use super::traversal_laws::lemma_discover;
use crate::float::Float32;

verus! {

/// Right after a load every entity is in memory and not accessed yet. It has
/// the position of the last row with its rowid, and none if there is no such
/// row. The grid is built from the same rows.
pub proof fn law_load_places_entities(
    csr: EdgeCsr,
    positions: Seq<PositionRow>,
    metas: Seq<Option<EntityMeta>>,
    i: int,
    k: int,
)
    requires
        csr.wf(),
        csr.entity_rowids@.no_duplicates(),
        metas == positioned(
            blanks(csr.entity_rowids@.len()),
            placed_rows(positions, csr.entity_by_rowid@),
        ),
        0 <= i < csr.entity_rowids@.len(),
        i <= u32::MAX,
    ensures
        metas.len() == csr.entity_rowids@.len(),
        metas[i] is Some,
        metas[i]->0.last_access == 0,
        (forall|j: int|
            0 <= j < positions.len() ==> (#[trigger] positions[j]).0 != csr.entity_rowids@[i])
            ==> metas[i]->0.position is None,
        0 <= k < positions.len() && positions[k].0 == csr.entity_rowids@[i] && (forall|j: int|
            k < j < positions.len() ==> (#[trigger] positions[j]).0 != csr.entity_rowids@[i])
            ==> metas[i]->0.position == Some((positions[k].1, positions[k].2)),
        0 <= k < positions.len() && positions[k].0 == csr.entity_rowids@[i] ==> placed_rows(
            positions,
            csr.entity_by_rowid@,
        ).contains((i as u32, positions[k].1, positions[k].2)),
    decreases positions.len(),
{
    let ids = csr.entity_rowids@;
    let m = csr.entity_by_rowid@;
    let placed = placed_rows(positions, m);
    if positions.len() > 0 {
        let rest = positions.drop_last();
        let row = positions.last();
        let last = positions.len() - 1;
        let before = positioned(blanks(ids.len()), placed_rows(rest, m));
        law_load_places_entities(csr, rest, before, i, k);
        assert forall|j: int| 0 <= j < rest.len() implies #[trigger] rest[j] == positions[j] by {}
        assert(positions[last] == row);
        if m.contains_key(row.0) {
            assert(placed.drop_last() =~= placed_rows(rest, m));
            let n = m[row.0];
            assert(ids[n as int] == row.0);
            assert(ids.contains(ids[i]));
            assert(m.contains_key(ids[i]));
            assert(ids[m[ids[i]] as int] == ids[i]);
            assert(m[ids[i]] == i);
            lemma_all_loaded(ids.len(), placed_rows(rest, m), n as int);
            let e = (i as u32, positions[k].1, positions[k].2);
            if placed_rows(rest, m).contains(e) {
                let a = choose|a: int|
                    0 <= a < placed_rows(rest, m).len() && placed_rows(rest, m)[a] == e;
                assert(placed[a] == e);
            }
            if k == last && row.0 == ids[i] {
                assert(placed.last() == e);
                assert(placed[placed.len() - 1] == e);
            }
        } else {
            assert(ids.contains(ids[i]));
            assert(m.contains_key(ids[i]));
        }
    }
}

/// Whatever the rows are, every entity is in memory after a load.
proof fn lemma_all_loaded(count: nat, placed: Seq<Placed>, i: int)
    requires
        0 <= i < count,
    ensures
        positioned(blanks(count), placed).len() == count,
        positioned(blanks(count), placed)[i] is Some,
    decreases placed.len(),
{
    if placed.len() > 0 {
        lemma_all_loaded(count, placed.drop_last(), i);
    }
}

/// The grid holds positions of rows only: each placed entity is a row with a
/// known rowid.
pub proof fn law_placed_are_rows(csr: EdgeCsr, positions: Seq<PositionRow>, p: Placed)
    requires
        csr.wf(),
        placed_rows(positions, csr.entity_by_rowid@).contains(p),
    ensures
        p.0 < csr.entity_rowids@.len(),
        exists|k: int|
            0 <= k < positions.len() && (#[trigger] positions[k]).0
                == csr.entity_rowids@[p.0 as int] && positions[k].1 == p.1 && positions[k].2 == p.2,
    decreases positions.len(),
{
    let m = csr.entity_by_rowid@;
    let placed = placed_rows(positions, m);
    if positions.len() > 0 {
        let rest = positions.drop_last();
        let row = positions.last();
        let head = placed_rows(rest, m);
        let a = choose|a: int| 0 <= a < placed.len() && placed[a] == p;
        if a < head.len() {
            assert(head[a] == p);
            law_placed_are_rows(csr, rest, p);
            let k = choose|k: int|
                0 <= k < rest.len() && (#[trigger] rest[k]).0 == csr.entity_rowids@[p.0 as int]
                    && rest[k].1 == p.1 && rest[k].2 == p.2;
            assert(positions[k] == rest[k]);
        } else {
            assert(positions[positions.len() - 1] == row);
            assert(m.contains_key(row.0));
            assert(csr.entity_rowids@[m[row.0] as int] == row.0);
        }
    }
}

/// A spatial search reports each entity at most once, no more than the limit,
/// and only loaded ones with both coordinates between the bounds. As long as the
/// limit is not reached it reports every loaded entity there whose position is
/// that of a loaded row.
pub proof fn law_search_compares_positions(
    index: GraphIndex,
    positions: Seq<PositionRow>,
    metas: Seq<Option<EntityMeta>>,
    seen_set: Seq<u32>,
    seen_gen: u32,
    live: Seq<bool>,
    min_x: Float32,
    min_y: Float32,
    max_x: Float32,
    max_y: Float32,
    lod: u16,
    limit: u32,
    r: Seq<u64>,
    i: int,
)
    requires
        index.wf(),
        index.holds_positions(positions),
        index.edge_csr.entity_rowids@.no_duplicates(),
        index.edge_csr.entity_rowids@.len() <= u32::MAX,
        metas.len() == index.edge_csr.entity_rowids@.len(),
        live.len() == metas.len(),
        forall|j: int| 0 <= j < metas.len() ==> #[trigger] live[j] == metas[j] is Some,
        marks_below(seen_set, seen_gen),
        r == at_most(
            inside_only(
                index.edge_csr,
                metas,
                collected(
                    index,
                    seen_set,
                    seen_gen,
                    live,
                    min_x,
                    min_y,
                    max_x,
                    max_y,
                    lod,
                ),
                min_x,
                min_y,
                max_x,
                max_y,
            ),
            limit as int,
        ),
        0 <= i < metas.len(),
    ensures
        r.len() <= limit,
        r.no_duplicates(),
        forall|k: int|
            0 <= k < r.len() ==> index.edge_csr.entity_rowids@.contains(#[trigger] r[k]),
        r.contains(index.edge_csr.entity_rowids@[i]) ==> (metas[i] matches Some(meta)
            && meta.position matches Some((x, y)) && !x.is_nan() && !y.is_nan() && !min_x.is_nan()
            && !min_y.is_nan() && !max_x.is_nan() && !max_y.is_nan() && min_x.rank() <= x.rank()
            && x.rank() <= max_x.rank() && min_y.rank() <= y.rank() && y.rank() <= max_y.rank()),
        r.len() < limit ==> (metas[i] matches Some(meta) ==> meta.position matches Some((x, y))
            ==> (!x.is_nan() && !y.is_nan() && !min_x.is_nan() && !min_y.is_nan()
            && !max_x.is_nan() && !max_y.is_nan() && min_x.rank() <= x.rank() && x.rank()
            <= max_x.rank() && min_y.rank() <= y.rank() && y.rank() <= max_y.rank() && (exists|
            k: int,
        |
            0 <= k < positions.len() && (#[trigger] positions[k]).0
                == index.edge_csr.entity_rowids@[i] && positions[k].1 == x && positions[k].2 == y)
            ==> r.contains(index.edge_csr.entity_rowids@[i]))),
{
    let csr = index.edge_csr;
    let ids = csr.entity_rowids@;
    let m = csr.entity_by_rowid@;
    let n = ids.len() as int;
    let all = collected(index, seen_set, seen_gen, live, min_x, min_y, max_x, max_y, lod);
    let kept = inside_only(csr, metas, all, min_x, min_y, max_x, max_y);
    assert(ids.contains(ids[i]));
    assert(m.contains_key(ids[i]));
    assert(ids[m[ids[i]] as int] == ids[i]);
    assert(m[ids[i]] == i);
    lemma_collected(index, seen_set, seen_gen, live, min_x, min_y, max_x, max_y, lod);
    lemma_inside_only(csr, metas, all, min_x, min_y, max_x, max_y);
    assert forall|k: int| 0 <= k < r.len() implies ids.contains(#[trigger] r[k]) by {
        assert(kept[k] == r[k]);
        assert(all.contains(kept[k]));
    }
    assert forall|a: int, b: int| 0 <= a < r.len() && 0 <= b < r.len() && a != b implies r[a]
        != r[b] by {
        assert(kept[a] == r[a] && kept[b] == r[b]);
    }
    if r.contains(ids[i]) {
        let k = choose|k: int| 0 <= k < r.len() && r[k] == ids[i];
        assert(kept[k] == ids[i]);
        assert(lies_inside(metas[i], min_x, min_y, max_x, max_y));
    }
    if r.len() < limit && metas[i] is Some && metas[i]->0.position is Some {
        let (x, y) = metas[i]->0.position->0;
        if lies_inside(metas[i], min_x, min_y, max_x, max_y) && exists|k: int|
            0 <= k < positions.len() && (#[trigger] positions[k]).0 == ids[i] && positions[k].1
                == x && positions[k].2 == y {
            let k = choose|k: int|
                0 <= k < positions.len() && (#[trigger] positions[k]).0 == ids[i]
                    && positions[k].1 == x && positions[k].2 == y;
            law_load_places_entities(
                csr,
                positions,
                positioned(blanks(ids.len()), placed_rows(positions, m)),
                i,
                k,
            );
            let placed = placed_rows(positions, m);
            assert(placed.contains((i as u32, x, y)));
            law_search_finds_all_inside(
                index,
                metas,
                placed,
                seen_set,
                seen_gen,
                live,
                i as u32,
                min_x,
                min_y,
                max_x,
                max_y,
                lod,
            );
            assert(kept.contains(ids[i]));
            assert(r == kept);
        }
    }
}

/// A spatial query takes exactly the entities that are in memory for loaded.
pub proof fn law_live_are_loaded(roster: Roster, j: int)
    ensures
        live_flags(roster.entity_ptrs@).len() == roster.metas().len(),
        0 <= j < roster.metas().len() ==> live_flags(roster.entity_ptrs@)[j]
            == roster.metas()[j] is Some,
{
}

/// Of two searches that differ in their limits, the one with the smaller limit
/// reports the first of what the other reports.
pub proof fn law_smaller_limit_is_prefix(
    found: Seq<u64>,
    less: u32,
    more: u32,
    few: Seq<u64>,
    many: Seq<u64>,
)
    requires
        less <= more,
        few == at_most(found, less as int),
        many == at_most(found, more as int),
    ensures
        few.len() <= less,
        many.len() <= more,
        few.len() <= many.len(),
        few.len() < less ==> few == many,
        forall|k: int| 0 <= k < few.len() ==> #[trigger] few[k] == many[k],
        many.len() < more ==> many == found,
{
}

/// What a search reports comes in the order in which the grid is looked through:
/// of what was collected, nothing is moved.
pub proof fn law_search_keeps_order(
    csr: EdgeCsr,
    metas: Seq<Option<EntityMeta>>,
    found: Seq<u64>,
    min_x: Float32,
    min_y: Float32,
    max_x: Float32,
    max_y: Float32,
    limit: u32,
    r: Seq<u64>,
    a: int,
    b: int,
)
    requires
        r == at_most(inside_only(csr, metas, found, min_x, min_y, max_x, max_y), limit as int),
        0 <= a < b < r.len(),
    ensures
        exists|i: int, j: int|
            0 <= i < j < found.len() && #[trigger] found[i] == r[a] && #[trigger] found[j] == r[b],
{
    let kept = inside_only(csr, metas, found, min_x, min_y, max_x, max_y);
    assert(kept[a] == r[a] && kept[b] == r[b]);
    lemma_inside_in_order(csr, metas, found, min_x, min_y, max_x, max_y, a, b);
}

proof fn lemma_inside_in_order(
    csr: EdgeCsr,
    metas: Seq<Option<EntityMeta>>,
    found: Seq<u64>,
    min_x: Float32,
    min_y: Float32,
    max_x: Float32,
    max_y: Float32,
    a: int,
    b: int,
)
    requires
        0 <= a < b < inside_only(csr, metas, found, min_x, min_y, max_x, max_y).len(),
    ensures
        exists|i: int, j: int|
            0 <= i < j < found.len() && #[trigger] found[i] == inside_only(
                csr,
                metas,
                found,
                min_x,
                min_y,
                max_x,
                max_y,
            )[a] && #[trigger] found[j] == inside_only(
                csr,
                metas,
                found,
                min_x,
                min_y,
                max_x,
                max_y,
            )[b],
    decreases found.len(),
{
    let rest = found.drop_last();
    let last = found.len() - 1;
    let head = inside_only(csr, metas, rest, min_x, min_y, max_x, max_y);
    let kept = inside_only(csr, metas, found, min_x, min_y, max_x, max_y);
    if b < head.len() {
        lemma_inside_in_order(csr, metas, rest, min_x, min_y, max_x, max_y, a, b);
        let (i, j) = choose|i: int, j: int|
            0 <= i < j < rest.len() && #[trigger] rest[i] == head[a] && #[trigger] rest[j]
                == head[b];
        assert(found[i] == kept[a] && found[j] == kept[b]);
    } else {
        lemma_inside_only(csr, metas, rest, min_x, min_y, max_x, max_y);
        assert(rest.contains(head[a]));
        let i = choose|i: int| 0 <= i < rest.len() && rest[i] == head[a];
        assert(found[i] == kept[a]);
        assert(found[last] == kept[b]);
    }
}

proof fn lemma_loaded_nodes(nodes: Seq<int>, live: Seq<bool>)
    ensures
        nodes.no_duplicates() ==> loaded(nodes, live).no_duplicates(),
        forall|k: int|
            0 <= k < loaded(nodes, live).len() ==> nodes.contains(#[trigger] loaded(nodes, live)[k]),
    decreases nodes.len(),
{
    if nodes.len() > 0 {
        let rest = nodes.drop_last();
        lemma_loaded_nodes(rest, live);
        let head = loaded(rest, live);
        let all = loaded(nodes, live);
        let x = nodes.last();
        assert(nodes[nodes.len() - 1] == x);
        assert forall|k: int| 0 <= k < head.len() implies nodes.contains(#[trigger] head[k])
            && (nodes.no_duplicates() ==> head[k] != x) by {
            let a = choose|a: int| 0 <= a < rest.len() && rest[a] == head[k];
            assert(nodes[a] == head[k]);
        }
        if nodes.no_duplicates() {
            assert(rest.no_duplicates());
            assert forall|a: int, b: int| 0 <= a < all.len() && 0 <= b < all.len() && a
                != b implies all[a] != all[b] by {
                if a < head.len() {
                    assert(head[a] == all[a]);
                }
                if b < head.len() {
                    assert(head[b] == all[b]);
                }
            }
        }
        assert forall|k: int| 0 <= k < all.len() implies nodes.contains(#[trigger] all[k]) by {
            if k < head.len() {
                assert(head[k] == all[k]);
            }
        }
    }
}

proof fn lemma_below_range(numbers: Seq<u32>, n: int)
    ensures
        forall|k: int|
            0 <= k < below(numbers, n).len() ==> 0 <= #[trigger] below(numbers, n)[k] < n,
    decreases numbers.len(),
{
    if numbers.len() > 0 {
        lemma_below_range(numbers.drop_last(), n);
        let head = below(numbers.drop_last(), n);
        let all = below(numbers, n);
        assert forall|k: int| 0 <= k < all.len() implies 0 <= #[trigger] all[k] < n by {
            if k < head.len() {
                assert(head[k] == all[k]);
            }
        }
    }
}

/// What a spatial query collects is known, and nothing twice.
pub proof fn lemma_collected(
    index: GraphIndex,
    seen_set: Seq<u32>,
    seen_gen: u32,
    live: Seq<bool>,
    min_x: Float32,
    min_y: Float32,
    max_x: Float32,
    max_y: Float32,
    lod: u16,
)
    requires
        index.edge_csr.entity_rowids@.no_duplicates(),
    ensures
        ({
            let all = collected(
                index,
                seen_set,
                seen_gen,
                live,
                min_x,
                min_y,
                max_x,
                max_y,
                lod,
            );
            &&& all.no_duplicates()
            &&& forall|k: int|
                0 <= k < all.len() ==> index.edge_csr.entity_rowids@.contains(#[trigger] all[k])
        }),
{
    if let Some(grid) = index.spatial_index {
        let ids = index.edge_csr.entity_rowids@;
        let n = ids.len() as int;
        let found = grid.numbers_in(grid.window(min_x, min_y, max_x, max_y, lod).cells());
        let nodes = below(found, n);
        let seen = marked(grown(seen_set, n), next_generation(seen_gen));
        let fresh = discover(nodes, seen);
        lemma_below_range(found, n);
        lemma_discover(nodes, seen);
        lemma_loaded_nodes(fresh, live);
        let hits = loaded(fresh, live);
        let all = rowids_of(ids, hits);
        assert forall|k: int| 0 <= k < hits.len() implies 0 <= #[trigger] hits[k] < n by {
            assert(fresh.contains(hits[k]));
            assert(nodes.contains(hits[k]));
        }
        assert forall|k: int| 0 <= k < all.len() implies ids.contains(#[trigger] all[k]) by {
            assert(0 <= hits[k] < n);
            assert(all[k] == ids[hits[k]]);
        }
        assert forall|a: int, b: int| 0 <= a < all.len() && 0 <= b < all.len() && a != b implies all[a]
            != all[b] by {
            assert(hits[a] != hits[b]);
            assert(0 <= hits[a] < n && 0 <= hits[b] < n);
            assert(ids[hits[a]] != ids[hits[b]]);
        }
    }
}

/// Of the rowids, exactly those inside the bounds are kept, and nothing twice.
proof fn lemma_inside_only(
    csr: EdgeCsr,
    metas: Seq<Option<EntityMeta>>,
    rowids: Seq<u64>,
    min_x: Float32,
    min_y: Float32,
    max_x: Float32,
    max_y: Float32,
)
    ensures
        ({
            let kept = inside_only(csr, metas, rowids, min_x, min_y, max_x, max_y);
            &&& rowids.no_duplicates() ==> kept.no_duplicates()
            &&& forall|k: int|
                0 <= k < kept.len() ==> rowids.contains(#[trigger] kept[k]) && lies_inside(
                    meta_of(metas, csr.number_of(kept[k])),
                    min_x,
                    min_y,
                    max_x,
                    max_y,
                )
        }),
    decreases rowids.len(),
{
    if rowids.len() > 0 {
        let rest = rowids.drop_last();
        lemma_inside_only(csr, metas, rest, min_x, min_y, max_x, max_y);
        let head = inside_only(csr, metas, rest, min_x, min_y, max_x, max_y);
        let kept = inside_only(csr, metas, rowids, min_x, min_y, max_x, max_y);
        let x = rowids.last();
        assert(rowids[rowids.len() - 1] == x);
        assert forall|k: int| 0 <= k < head.len() implies rowids.contains(#[trigger] head[k]) && (
        rowids.no_duplicates() ==> head[k] != x) by {
            let a = choose|a: int| 0 <= a < rest.len() && rest[a] == head[k];
            assert(rowids[a] == head[k]);
        }
        if rowids.no_duplicates() {
            assert(rest.no_duplicates());
            assert forall|a: int, b: int| 0 <= a < kept.len() && 0 <= b < kept.len() && a
                != b implies kept[a] != kept[b] by {
                if a < head.len() {
                    assert(head[a] == kept[a]);
                }
                if b < head.len() {
                    assert(head[b] == kept[b]);
                }
            }
        }
        assert forall|k: int| 0 <= k < kept.len() implies rowids.contains(#[trigger] kept[k])
            && lies_inside(
            meta_of(metas, csr.number_of(kept[k])),
            min_x,
            min_y,
            max_x,
            max_y,
        ) by {
            if k < head.len() {
                assert(head[k] == kept[k]);
            }
        }
    }
}

} // verus!
