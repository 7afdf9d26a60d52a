//! What accesses, evictions and reloads do to the entities in memory.

use vstd::arithmetic::power2::{lemma_pow2_unfold, pow2};
use vstd::prelude::*;

use super::edge_csr::{
    arranges, known_rows, lists, source_edges, target_edges, EdgeCsr, HalfEdge,
};
use super::entity_store::{evicted_rows, memory_without, EntityStore};
use super::graph_index::{edge_bytes, GraphIndex, PositionRow};
use super::hot_tier::{touch, touch_all};
use super::pipeline::Pipeline;
use super::roster::{
    candidates_of, evictions, held_of, lemma_oldest_first, oldest_first, picked, without,
    EntityMeta,
};
use super::rows::EdgeRow;
use crate::float::Float32;

verus! {

/// Number of the entities that are in memory.
pub open spec fn in_memory(metas: Seq<Option<EntityMeta>>) -> nat
    decreases metas.len(),
{
    if metas.len() == 0 {
        0
    } else {
        in_memory(metas.drop_last()) + if metas.last() is Some {
            1nat
        } else {
            0nat
        }
    }
}

/// An access to an entity in memory makes it the one accessed last and advances
/// the clock by one. It keeps its position, and no other entity changes. An
/// access to any other rowid changes nothing.
pub proof fn law_access_makes_newest(
    csr: EdgeCsr,
    metas: Seq<Option<EntityMeta>>,
    clock: u64,
    rowid: u64,
    after: Seq<Option<EntityMeta>>,
    later: u64,
    j: int,
)
    requires
        csr.wf(),
        csr.entity_rowids@.no_duplicates(),
        metas.len() == csr.entity_rowids@.len(),
        clock < u64::MAX,
        (after, later as int) == touch(metas, clock as int, csr.number_of(rowid)),
        0 <= j < metas.len(),
    ensures
        after.len() == metas.len(),
        csr.entity_rowids@[j] != rowid ==> after[j] == metas[j],
        csr.entity_rowids@[j] == rowid ==> match metas[j] {
            Some(meta) => {
                &&& later == clock + 1
                &&& after[j] is Some
                &&& after[j]->0.position == meta.position
                &&& after[j]->0.last_access == later
            },
            None => later == clock && after[j] is None,
        },
        !csr.entity_rowids@.contains(rowid) ==> later == clock,
{
    let ids = csr.entity_rowids@;
    let m = csr.entity_by_rowid@;
    assert(ids.contains(ids[j]));
    assert(m.contains_key(ids[j]));
    assert(ids[m[ids[j]] as int] == ids[j]);
    if m.contains_key(rowid) {
        assert(ids[m[rowid] as int] == rowid);
    }
}

/// Accesses keep what is in memory and where it lies. Entities that are not
/// listed keep their last access. Those that are listed and in memory were
/// accessed after all that is past, and the later one was listed last, the later
/// it was accessed.
pub proof fn law_accesses_follow_list(
    csr: EdgeCsr,
    metas: Seq<Option<EntityMeta>>,
    clock: u64,
    rowids: Seq<u64>,
    after: Seq<Option<EntityMeta>>,
    later: u64,
    i: int,
    j: int,
    p: int,
    q: int,
)
    requires
        csr.wf(),
        csr.entity_rowids@.no_duplicates(),
        metas.len() == csr.entity_rowids@.len(),
        clock + rowids.len() <= u64::MAX,
        (after, later as int) == touch_all(csr, metas, clock as int, rowids),
        0 <= i < metas.len(),
        0 <= j < metas.len(),
    ensures
        after.len() == metas.len(),
        clock <= later <= clock + rowids.len(),
        after[i] is Some <==> metas[i] is Some,
        metas[i] is Some ==> after[i]->0.position == metas[i]->0.position,
        !rowids.contains(csr.entity_rowids@[i]) ==> after[i] == metas[i],
        metas[i] is Some && rowids.contains(csr.entity_rowids@[i]) ==> clock
            < after[i]->0.last_access <= later,
        metas[i] is Some && metas[j] is Some && 0 <= p < q < rowids.len() && rowids[p]
            == csr.entity_rowids@[i] && (forall|l: int|
            p < l < rowids.len() ==> #[trigger] rowids[l] != csr.entity_rowids@[i]) && rowids[q]
            == csr.entity_rowids@[j] ==> after[i]->0.last_access < after[j]->0.last_access,
    decreases rowids.len(),
{
    let ids = csr.entity_rowids@;
    let m = csr.entity_by_rowid@;
    lemma_own_number(csr, i);
    lemma_own_number(csr, j);
    if rowids.len() > 0 {
        let rest = rowids.drop_last();
        let x = rowids.last();
        let last = rowids.len() - 1;
        assert(rowids[last] == x);
        lemma_clock(csr, metas, clock as int, rest);
        let before = touch_all(csr, metas, clock as int, rest);
        law_accesses_follow_list(csr, metas, clock, rest, before.0, before.1 as u64, i, j, p, q);
        law_accesses_follow_list(csr, metas, clock, rest, before.0, before.1 as u64, j, i, p, q);
        assert forall|l: int| 0 <= l < rest.len() implies #[trigger] rest[l] == rowids[l] by {}
        if rest.contains(ids[i]) {
            let l = choose|l: int| 0 <= l < rest.len() && rest[l] == ids[i];
            assert(rowids[l] == ids[i]);
        }
        if rowids.contains(ids[i]) && x != ids[i] {
            let l = choose|l: int| 0 <= l < rowids.len() && rowids[l] == ids[i];
            assert(rest[l] == ids[i]);
        }
        if m.contains_key(x) {
            assert(ids[m[x] as int] == x);
        }
        if metas[i] is Some && metas[j] is Some && 0 <= p < q < rowids.len() && rowids[p] == ids[i]
            && (forall|l: int| p < l < rowids.len() ==> #[trigger] rowids[l] != ids[i])
            && rowids[q] == ids[j] {
            assert(rowids[last] != ids[i]);
            if q == last {
                assert(rest[p] == ids[i]);
                assert(rest.contains(ids[i]));
                assert(after[j]->0.last_access == before.1 + 1);
            } else if x == ids[j] {
                assert(rest[p] == ids[i]);
                assert(rest.contains(ids[i]));
                assert(after[j]->0.last_access == before.1 + 1);
            } else {
                assert forall|l: int| p < l < rest.len() implies #[trigger] rest[l] != ids[i] by {
                    assert(rowids[l] != ids[i]);
                }
                assert(before.0[i]->0.last_access < before.0[j]->0.last_access);
            }
        }
    }
}

proof fn lemma_own_number(csr: EdgeCsr, i: int)
    requires
        csr.wf(),
        csr.entity_rowids@.no_duplicates(),
        0 <= i < csr.entity_rowids@.len(),
    ensures
        csr.number_of(csr.entity_rowids@[i]) == Some(i as u32),
        csr.entity_by_rowid@.contains_key(csr.entity_rowids@[i]),
        csr.entity_by_rowid@[csr.entity_rowids@[i]] == i,
{
    let ids = csr.entity_rowids@;
    assert(ids.contains(ids[i]));
    assert(csr.entity_by_rowid@.contains_key(ids[i]));
    assert(ids[csr.entity_by_rowid@[ids[i]] as int] == ids[i]);
}

proof fn lemma_clock(csr: EdgeCsr, metas: Seq<Option<EntityMeta>>, clock: int, rowids: Seq<u64>)
    ensures
        clock <= touch_all(csr, metas, clock, rowids).1 <= clock + rowids.len(),
    decreases rowids.len(),
{
    if rowids.len() > 0 {
        lemma_clock(csr, metas, clock, rowids.drop_last());
    }
}

/// An eviction takes as many entities as asked for, or all that are in memory.
/// What it returns are their rowids and what was held of them, the longest
/// unused first. They are no longer in memory, and all others are as before and
/// were used no earlier.
pub proof fn law_eviction_takes_longest_unused(
    ids: Seq<u64>,
    metas: Seq<Option<EntityMeta>>,
    count: usize,
    list: Seq<(u32, u64)>,
    gone: Seq<(u32, EntityMeta)>,
    r: Seq<(u64, EntityMeta)>,
    after: Seq<Option<EntityMeta>>,
    i: int,
    k: int,
)
    requires
        ids.len() == metas.len(),
        metas.len() <= u32::MAX,
        ids.no_duplicates(),
        oldest_first(list, metas),
        after == without(metas, evictions(list, count as int)),
        held_of(gone, metas, evictions(list, count as int)),
        evicted_rows(r, gone, ids),
        0 <= i < metas.len(),
    ensures
        r.len() == if count < in_memory(metas) {
            count as int
        } else {
            in_memory(metas) as int
        },
        after.len() == metas.len(),
        after[i] is Some ==> after[i] == metas[i],
        after[i] is None && metas[i] is Some <==> exists|l: int|
            0 <= l < r.len() && (#[trigger] r[l]).0 == ids[i],
        0 <= k < r.len() && r[k].0 == ids[i] ==> metas[i] == Some(r[k].1),
        0 <= k < r.len() ==> ids.contains(r[k].0),
        0 <= k < r.len() && after[i] is Some ==> r[k].1.last_access <= metas[i]->0.last_access,
        forall|a: int, b: int|
            0 <= a < b < r.len() ==> (#[trigger] r[a]).0 != (#[trigger] r[b]).0
                && r[a].1.last_access <= r[b].1.last_access,
{
    lemma_oldest_first(list, metas);
    lemma_candidate_count(metas);
    let picks = evictions(list, count as int);
    assert forall|l: int| 0 <= l < r.len() implies (#[trigger] r[l]).0 == ids[picks[l].0 as int]
        && metas[picks[l].0 as int] == Some(r[l].1) && picks[l] == list[l] && picks[l].0
        < ids.len() by {
        assert(gone[l].0 == picks[l].0);
        assert(list[l].0 < metas.len());
    }
    if picked(picks, i) {
        let l = choose|l: int| 0 <= l < picks.len() && (#[trigger] picks[l]).0 == i;
        assert(r[l].0 == ids[i]);
    }
    if exists|l: int| 0 <= l < r.len() && (#[trigger] r[l]).0 == ids[i] {
        let l = choose|l: int| 0 <= l < r.len() && (#[trigger] r[l]).0 == ids[i];
        assert(ids[picks[l].0 as int] == ids[i]);
        assert(picks[l].0 == i);
        assert(picked(picks, i));
    }
    if 0 <= k < r.len() {
        assert(r[k].0 == ids[picks[k].0 as int]);
        if r[k].0 == ids[i] {
            assert(picks[k].0 == i);
        }
        if after[i] is Some {
            assert(picked(list, i));
            let b = choose|b: int| 0 <= b < list.len() && (#[trigger] list[b]).0 == i;
            if b < picks.len() {
                assert(picks[b].0 == i);
            }
            assert(list[k].1 <= list[b].1);
        }
    }
    assert forall|a: int, b: int| 0 <= a < b < r.len() implies (#[trigger] r[a]).0 != (
    #[trigger] r[b]).0 && r[a].1.last_access <= r[b].1.last_access by {
        assert(list[a].0 != list[b].0);
        assert(list[a].1 <= list[b].1);
        assert(ids[picks[a].0 as int] != ids[picks[b].0 as int]);
    }
}

proof fn lemma_candidate_count(metas: Seq<Option<EntityMeta>>)
    ensures
        candidates_of(metas).len() == in_memory(metas),
    decreases metas.len(),
{
    if metas.len() > 0 {
        lemma_candidate_count(metas.drop_last());
    }
}

/// Loading a known entity anew gives it the position and the time of the clock,
/// and counts 24 bytes. Nothing else changes, and nothing at all if the entity
/// is unknown.
pub proof fn law_promotion_changes_one(
    pipeline: Pipeline,
    before: EntityStore,
    after: EntityStore,
    rowid: u64,
    position: Option<(Float32, Float32)>,
    j: int,
)
    requires
        pipeline.serves(before),
        pipeline.promoted(before, after, rowid, position),
        pipeline.index.edge_csr.entity_rowids@.no_duplicates(),
        0 <= j < before.roster.metas().len(),
    ensures
        ({
            let ids = pipeline.index.edge_csr.entity_rowids@;
            &&& after.roster.metas().len() == before.roster.metas().len()
            &&& ids[j] != rowid ==> after.roster.metas()[j] == before.roster.metas()[j]
            &&& ids[j] == rowid ==> {
                &&& after.roster.metas()[j] is Some
                &&& after.roster.metas()[j]->0.position == position
                &&& after.roster.metas()[j]->0.last_access == before.access_clock
                &&& after.memory_used == before.memory_used + 24
            }
            &&& !ids.contains(rowid) ==> after == before
            &&& after.memory_threshold == before.memory_threshold
            &&& after.access_clock == before.access_clock
        }),
{
    let csr = pipeline.index.edge_csr;
    let ids = csr.entity_rowids@;
    lemma_own_number(csr, j);
    assert(csr.entity_by_rowid@.contains_key(rowid) <==> ids.contains(rowid));
    if csr.entity_by_rowid@.contains_key(rowid) {
        assert(ids[csr.entity_by_rowid@[rowid] as int] == rowid);
    }
}

/// Each unloaded entity counts for 24 bytes, as far as so many were in use.
pub proof fn law_unloaded_bytes_are_counted(memory: int, count: int)
    requires
        memory >= 0,
        count >= 0,
    ensures
        0 <= memory_without(memory, count) <= memory,
        memory >= 24 * count ==> memory_without(memory, count) + 24 * count == memory,
        memory <= 24 * count ==> memory_without(memory, count) == 0,
        memory_without(memory, count + 1) <= memory_without(memory, count),
{
}

/// Number of rows with two listed ends.
pub open spec fn linked_rows(rows: Seq<EdgeRow>, ids: Seq<u64>) -> nat
    decreases rows.len(),
{
    if rows.len() == 0 {
        0
    } else {
        linked_rows(rows.drop_last(), ids) + if ids.contains(rows.last().source_entity)
            && ids.contains(rows.last().target_entity) {
            1nat
        } else {
            0nat
        }
    }
}

/// The edges of a loaded graph take 28 bytes for each row between listed
/// entities, and 8 for each entity and once more.
pub proof fn law_edges_take_their_bytes(csr: EdgeCsr, rows: Seq<EdgeRow>)
    requires
        csr.wf(),
        csr.holds_rows(rows),
    ensures
        edge_bytes(csr) == 28 * linked_rows(rows, csr.entity_rowids@) + 8 * (
        csr.entity_rowids@.len() + 1),
        csr.targets@.len() == linked_rows(rows, csr.entity_rowids@),
        csr.sources@.len() == linked_rows(rows, csr.entity_rowids@),
{
    broadcast use vstd::seq_lib::group_to_multiset_ensures;

    let n = csr.entity_rowids@.len() as int;
    let m = csr.entity_by_rowid@;
    lemma_linked_rows(rows, m, csr.entity_rowids@);
    let out = choose|out: Seq<HalfEdge>| #[trigger]
        arranges(out, source_edges(rows, m)) && lists(
            csr.offsets@,
            csr.targets@,
            csr.labels@,
            csr.rowids@,
            out,
            n,
        );
    let back = choose|back: Seq<HalfEdge>| #[trigger]
        arranges(back, target_edges(rows, m)) && lists(
            csr.in_offsets@,
            csr.sources@,
            csr.in_labels@,
            csr.in_rowids@,
            back,
            n,
        );
    assert(out.len() == out.to_multiset().len());
    assert(back.len() == back.to_multiset().len());
    assert(source_edges(rows, m).len() == source_edges(rows, m).to_multiset().len());
    assert(target_edges(rows, m).len() == target_edges(rows, m).to_multiset().len());
    assert(csr.targets@.len() == out.len());
    assert(csr.sources@.len() == back.len());
}

proof fn lemma_linked_rows(rows: Seq<EdgeRow>, m: Map<u64, u32>, ids: Seq<u64>)
    requires
        forall|r: u64| #[trigger] m.contains_key(r) <==> ids.contains(r),
    ensures
        known_rows(rows, m).len() == linked_rows(rows, ids),
    decreases rows.len(),
{
    if rows.len() > 0 {
        lemma_linked_rows(rows.drop_last(), m, ids);
        let row = rows.last();
        assert(m.contains_key(row.source_entity) <==> ids.contains(row.source_entity));
        assert(m.contains_key(row.target_entity) <==> ids.contains(row.target_entity));
    }
}

/// A grid is there exactly if there are positions. It has between 16 and 256
/// cells along each side, and in all at most twice and at least half as many
/// cells as there are entities, as far as that allows.
pub proof fn law_grid_fits_entities(index: GraphIndex, positions: Seq<PositionRow>)
    requires
        index.holds_positions(positions),
    ensures
        index.spatial_index is None <==> positions.len() == 0,
        index.spatial_index matches Some(grid) ==> {
            let n = index.edge_csr.entity_rowids@.len();
            &&& 4 <= grid.bits <= 8
            &&& grid.bits != 4 ==> pow2(2 * grid.bits as nat) <= 2 * n
            &&& grid.bits != 8 ==> n < 2 * pow2(2 * grid.bits as nat)
        },
{
    if let Some(grid) = index.spatial_index {
        lemma_pow2_unfold((2 * grid.bits) as nat);
        lemma_pow2_unfold((2 * grid.bits + 1) as nat);
    }
}

} // verus!
