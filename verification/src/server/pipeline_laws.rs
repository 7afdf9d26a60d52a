//! What the queries of the pipeline promise.

use vstd::prelude::*;

use super::edge_csr::{
    arrives_at, known, law_edge_is_listed, law_listed_is_edge, leaves_at, EdgeCsr,
};
use super::entity_store::{meta_of, EntityStore};
use super::graph_index::{below, collected, law_generation_clears_marks, loaded, GraphIndex};
use super::pipeline::{
    edges_in, edges_of, edges_out, first_in, first_out, inside_only, least, lies_inside, rowid_at,
    EdgeView, Pipeline,
};
use super::query_ctx::{grown, marks_below, next_generation};
use super::roster::{picked, without, EntityMeta};
use super::rows::EdgeRow;
use super::spatial_index::Placed;
use super::spatial_laws::law_query_finds_all_inside;
use super::traversal::{
    bfs_order, csr_next, discover, label_passes, lemma_push_contains, marked, rowids_of, targets_between,
};
use super::traversal_laws::{law_bfs_holds_reachable, lemma_discover, reach, reachable};
use crate::float::Float32;
use crate::proto::types::Direction;

verus! {

/// A spatial search reports only entities that are loaded and lie inside the
/// bounds.
pub proof fn law_search_reports_only_inside(
    csr: EdgeCsr,
    metas: Seq<Option<EntityMeta>>,
    rowids: Seq<u64>,
    min_x: Float32,
    min_y: Float32,
    max_x: Float32,
    max_y: Float32,
    rowid: u64,
)
    ensures
        inside_only(csr, metas, rowids, min_x, min_y, max_x, max_y).contains(rowid)
            <==> rowids.contains(rowid) && lies_inside(
            meta_of(metas, csr.number_of(rowid)),
            min_x,
            min_y,
            max_x,
            max_y,
        ),
    decreases rowids.len(),
{
    if rowids.len() > 0 {
        let head = rowids.drop_last();
        let last = rowids.last();
        law_search_reports_only_inside(
            csr,
            metas,
            head,
            min_x,
            min_y,
            max_x,
            max_y,
            rowid,
        );
        let kept = inside_only(csr, metas, head, min_x, min_y, max_x, max_y);
        lemma_push_keeps(head, last, rowid);
        lemma_push_keeps(kept, last, rowid);
        assert(rowids =~= head.push(last));
    }
}

/// A spatial search that is not finer than the grid finds every loaded entity
/// inside the bounds, if its position is the one that the grid was built with.
pub proof fn law_search_finds_all_inside(
    index: GraphIndex,
    metas: Seq<Option<EntityMeta>>,
    placed: Seq<Placed>,
    seen_set: Seq<u32>,
    seen_gen: u32,
    live: Seq<bool>,
    i: u32,
    min_x: Float32,
    min_y: Float32,
    max_x: Float32,
    max_y: Float32,
    lod: u16,
)
    requires
        index.wf(),
        index.spatial_index is Some,
        index.spatial_index->0.holds(placed),
        index.edge_csr.entity_rowids@.no_duplicates(),
        metas.len() == index.edge_csr.entity_rowids@.len(),
        live.len() == metas.len(),
        forall|j: int| 0 <= j < metas.len() ==> #[trigger] live[j] == metas[j] is Some,
        marks_below(seen_set, seen_gen),
        i < metas.len(),
        lies_inside(metas[i as int], min_x, min_y, max_x, max_y),
        ({
            let p = metas[i as int]->0.position->0;
            placed.contains((i, p.0, p.1))
        }),
    ensures
        inside_only(
            index.edge_csr,
            metas,
            collected(
                index,
                seen_set,
                seen_gen,
                live,
                min_x,
                min_y,
                max_x,
                max_y,
                lod,
            ),
            min_x,
            min_y,
            max_x,
            max_y,
        ).contains(index.edge_csr.entity_rowids@[i as int]),
{
    let grid = index.spatial_index->0;
    let rowids = index.edge_csr.entity_rowids@;
    let n = rowids.len() as int;
    let rowid = rowids[i as int];
    let p = metas[i as int]->0.position->0;
    law_query_finds_all_inside(grid, placed, (i, p.0, p.1), min_x, min_y, max_x, max_y, lod);
    let found = grid.numbers_in(grid.window(min_x, min_y, max_x, max_y, lod).cells());
    lemma_below(found, n, i);
    let marks = grown(seen_set, n);
    law_generation_clears_marks(seen_set, seen_gen, n, Seq::empty());
    let nodes = below(found, n);
    let fresh = discover(nodes, marked(marks, next_generation(seen_gen)));
    lemma_discover(nodes, marked(marks, next_generation(seen_gen)));
    assert(fresh.contains(i as int));
    lemma_loaded(fresh, live, i as int);
    let hits = loaded(fresh, live);
    let k = choose|k: int| 0 <= k < hits.len() && hits[k] == i as int;
    let all = rowids_of(rowids, hits);
    assert(all[k] == rowid);
    assert(all.contains(rowid));
    assert(rowids.contains(rowid));
    assert(index.edge_csr.entity_by_rowid@.contains_key(rowid));
    let number = index.edge_csr.entity_by_rowid@[rowid];
    assert(rowids[number as int] == rowid);
    assert(number == i);
    law_search_reports_only_inside(
        index.edge_csr,
        metas,
        all,
        min_x,
        min_y,
        max_x,
        max_y,
        rowid,
    );
}

/// From clean marks, a traversal reports exactly the entities within reach.
pub proof fn law_traversal_reports_reachable(
    pipeline: Pipeline,
    marks: Seq<u32>,
    generation: u32,
    start: u32,
    start_rowid: u64,
    max_depth: u32,
    labels: Seq<u32>,
    node: int,
)
    requires
        pipeline.wf(),
        marks_below(marks, generation),
        pipeline.index.edge_csr.number_of(start_rowid) == Some(start),
        0 <= node < pipeline.index.edge_csr.entity_rowids@.len(),
        pipeline.index.edge_csr.entity_rowids@.no_duplicates(),
    ensures
        pipeline.reached(
            grown(marks, pipeline.index.edge_csr.entity_rowids@.len() as int),
            next_generation(generation),
            start_rowid,
            max_depth,
            labels,
        ).contains(pipeline.index.edge_csr.entity_rowids@[node]) <==> reachable(
            csr_next(pipeline.index.edge_csr, labels),
            start as int,
            max_depth as nat,
            node,
        ),
{
    let csr = pipeline.index.edge_csr;
    let n = csr.entity_rowids@.len() as int;
    let next = csr_next(csr, labels);
    law_generation_clears_marks(marks, generation, n, Seq::empty());
    law_bfs_holds_reachable(next, start as int, max_depth as nat, node);
    let order = bfs_order(next, start as int, Set::empty(), max_depth as nat);
    let rows = rowids_of(csr.entity_rowids@, order);
    let rowid = csr.entity_rowids@[node];
    if order.contains(node) {
        let k = choose|k: int| 0 <= k < order.len() && order[k] == node;
        assert(rows[k] == rowid);
    }
    if rows.contains(rowid) {
        let k = choose|k: int| 0 <= k < rows.len() && rows[k] == rowid;
        assert(order.contains(order[k]));
        law_bfs_holds_reachable(next, start as int, max_depth as nat, order[k]);
        lemma_reach_in_range(csr, labels, start as int, max_depth as nat, order[k]);
        assert(csr.entity_rowids@[order[k]] == csr.entity_rowids@[node]);
        assert(order[k] == node);
    }
}

proof fn lemma_targets_in_range(
    csr: EdgeCsr,
    labels: Seq<u32>,
    from: int,
    to: int,
    node: int,
)
    requires
        csr.wf(),
        0 <= from,
        to <= csr.targets@.len(),
        targets_between(csr.targets@, csr.labels@, labels, from, to).contains(node),
    ensures
        0 <= node < csr.entity_rowids@.len(),
    decreases to - from,
{
    let all = targets_between(csr.targets@, csr.labels@, labels, from, to);
    if from < to {
        let head = targets_between(csr.targets@, csr.labels@, labels, from, to - 1);
        assert(csr.targets@[to - 1] < csr.entity_rowids@.len());
        lemma_push_contains(head, csr.targets@[to - 1] as int, node);
        if head.contains(node) {
            lemma_targets_in_range(csr, labels, from, to - 1, node);
        }
    }
}

/// A traversal never leaves the graph.
pub proof fn lemma_reach_in_range(
    csr: EdgeCsr,
    labels: Seq<u32>,
    start: int,
    steps: nat,
    node: int,
)
    requires
        csr.wf(),
        0 <= start < csr.entity_rowids@.len(),
        reachable(csr_next(csr, labels), start, steps, node),
    ensures
        0 <= node < csr.entity_rowids@.len(),
    decreases steps,
{
    let next = csr_next(csr, labels);
    if steps > 0 {
        let nearer = reach(next, start, (steps - 1) as nat);
        if nearer.contains(node) {
            lemma_reach_in_range(csr, labels, start, (steps - 1) as nat, node);
        } else {
            let via = choose|via: int| #[trigger] nearer.contains(via) && next(via).contains(node);
            lemma_reach_in_range(csr, labels, start, (steps - 1) as nat, via);
            let n = csr.entity_rowids@.len() as int;
            assert(csr.offsets@[via + 1] <= csr.offsets@[n]);
            lemma_targets_in_range(
                csr,
                labels,
                csr.offsets@[via] as int,
                csr.offsets@[via + 1] as int,
                node,
            );
        }
    }
}

/// What was loaded anew is found in memory from then on.
pub proof fn law_promoted_is_found(
    pipeline: Pipeline,
    before: EntityStore,
    after: EntityStore,
    rowid: u64,
    position: Option<(Float32, Float32)>,
)
    requires
        pipeline.serves(before),
        pipeline.promoted(before, after, rowid, position),
        pipeline.index.edge_csr.number_of(rowid) is Some,
    ensures
        meta_of(after.roster.metas(), pipeline.index.edge_csr.number_of(rowid)) == Some(
            EntityMeta { position, last_access: before.access_clock },
        ),
{
}

/// What was unloaded is not found in memory, and everything else is as before.
pub proof fn law_unloaded_is_gone(
    metas: Seq<Option<EntityMeta>>,
    picks: Seq<(u32, u64)>,
    i: u32,
)
    requires
        i < metas.len(),
    ensures
        meta_of(without(metas, picks), Some(i)) == if picked(picks, i as int) {
            None
        } else {
            metas[i as int]
        },
{
}

/// An edge of the database as a list of edges reports it; labels keep their
/// low 16 bits.
pub open spec fn row_view(row: EdgeRow) -> EdgeView {
    EdgeView {
        id: row.id,
        source: row.source_entity,
        target: row.target_entity,
        label: (row.label % 65536) as u32,
    }
}

/// An edge between known entities is reported at both of its ends, as long as
/// the limit takes all edges there and its label passes.
pub proof fn law_edges_report_rows(
    csr: EdgeCsr,
    rows: Seq<EdgeRow>,
    row: EdgeRow,
    filter: Seq<u32>,
    limit: int,
)
    requires
        csr.wf(),
        csr.holds_rows(rows),
        rows.contains(row),
        known(row, csr.entity_by_rowid@),
        label_passes(filter, (row.label % 65536) as u32),
        limit >= csr.targets@.len(),
        limit >= csr.sources@.len(),
    ensures
        edges_of(csr, csr.number_of(row.source_entity), Direction::Outgoing, filter, limit).contains(
            row_view(row),
        ),
        edges_of(csr, csr.number_of(row.target_entity), Direction::Incoming, filter, limit).contains(
            row_view(row),
        ),
{
    let n = csr.entity_rowids@.len() as int;
    let m = csr.entity_by_rowid@;
    law_edge_is_listed(csr, rows, row);
    let k = choose|k: int| #[trigger] leaves_at(csr, row, k);
    let i = m[row.source_entity];
    let from = csr.offsets@[i as int] as int;
    let to = csr.offsets@[i + 1] as int;
    assert(csr.offsets@[i + 1] <= csr.offsets@[n]);
    lemma_edges_out_hold(csr, i, filter, from, to, k);
    let j = choose|j: int| #[trigger] arrives_at(csr, row, j);
    let t = m[row.target_entity];
    let back = csr.in_offsets@[t as int] as int;
    let end = csr.in_offsets@[t + 1] as int;
    assert(csr.in_offsets@[t + 1] <= csr.in_offsets@[n]);
    lemma_edges_in_hold(csr, t, filter, back, end, j);
    let none = Seq::<EdgeView>::empty();
    assert(none + first_in(csr, t, filter, limit) =~= first_in(csr, t, filter, limit));
}

proof fn lemma_edges_out_hold(
    csr: EdgeCsr,
    own: u32,
    filter: Seq<u32>,
    from: int,
    to: int,
    k: int,
)
    requires
        from <= k < to,
        label_passes(filter, csr.labels@[k] as u32),
    ensures
        edges_out(csr, own, filter, from, to).contains(
            EdgeView {
                id: csr.rowids@[k],
                source: rowid_at(csr, own),
                target: rowid_at(csr, csr.targets@[k]),
                label: csr.labels@[k] as u32,
            },
        ),
    decreases to - from,
{
    let head = edges_out(csr, own, filter, from, to - 1);
    let all = edges_out(csr, own, filter, from, to);
    if k == to - 1 {
        assert(all[head.len() as int] == all.last());
    } else {
        lemma_edges_out_hold(csr, own, filter, from, to - 1, k);
        let e = EdgeView {
            id: csr.rowids@[k],
            source: rowid_at(csr, own),
            target: rowid_at(csr, csr.targets@[k]),
            label: csr.labels@[k] as u32,
        };
        let p = choose|p: int| 0 <= p < head.len() && head[p] == e;
        assert(all[p] == e);
    }
}

proof fn lemma_edges_in_hold(
    csr: EdgeCsr,
    own: u32,
    filter: Seq<u32>,
    from: int,
    to: int,
    k: int,
)
    requires
        from <= k < to,
        label_passes(filter, csr.in_labels@[k] as u32),
    ensures
        edges_in(csr, own, filter, from, to).contains(
            EdgeView {
                id: csr.in_rowids@[k],
                source: rowid_at(csr, csr.sources@[k]),
                target: rowid_at(csr, own),
                label: csr.in_labels@[k] as u32,
            },
        ),
    decreases to - from,
{
    let head = edges_in(csr, own, filter, from, to - 1);
    let all = edges_in(csr, own, filter, from, to);
    if k == to - 1 {
        assert(all[head.len() as int] == all.last());
    } else {
        lemma_edges_in_hold(csr, own, filter, from, to - 1, k);
        let e = EdgeView {
            id: csr.in_rowids@[k],
            source: rowid_at(csr, csr.sources@[k]),
            target: rowid_at(csr, own),
            label: csr.in_labels@[k] as u32,
        };
        let p = choose|p: int| 0 <= p < head.len() && head[p] == e;
        assert(all[p] == e);
    }
}

/// Every edge that is reported is one of the database, at the entity that was
/// asked for, and its label passes.
pub proof fn law_edges_report_only_rows(
    csr: EdgeCsr,
    rows: Seq<EdgeRow>,
    rowid: u64,
    direction: Direction,
    filter: Seq<u32>,
    limit: int,
    e: EdgeView,
)
    requires
        csr.wf(),
        csr.holds_rows(rows),
        edges_of(csr, csr.number_of(rowid), direction, filter, limit).contains(e),
    ensures
        exists|row: EdgeRow| #[trigger]
            row_view(row) == e && rows.contains(row) && (row.source_entity == rowid
                || row.target_entity == rowid) && label_passes(filter, e.label),
{
    let n = csr.entity_rowids@.len() as int;
    let i = csr.number_of(rowid)->0;
    let out = if direction is Incoming {
        Seq::empty()
    } else {
        first_out(csr, i, filter, limit)
    };
    let from = csr.offsets@[i as int] as int;
    let to = csr.offsets@[i + 1] as int;
    let back = csr.in_offsets@[i as int] as int;
    let end = csr.in_offsets@[i + 1] as int;
    if out.contains(e) {
        let k = lemma_edges_out_listed(csr, i, filter, from, from + least(to - from, limit), e);
        law_listed_is_edge(csr, rows, i as int, k);
        let row = choose|row: EdgeRow|
            rows.contains(row) && known(row, csr.entity_by_rowid@)
                && csr.entity_by_rowid@[row.source_entity] == i && #[trigger] leaves_at(
                csr,
                row,
                k,
            );
        assert(row_view(row) == e);
    } else {
        let rest = first_in(csr, i, filter, limit - out.len());
        let all = out + rest;
        let p = choose|p: int| 0 <= p < all.len() && all[p] == e;
        if p < out.len() {
            assert(out[p] == e);
        }
        assert(rest[p - out.len()] == e);
        let k = lemma_edges_in_listed(
            csr,
            i,
            filter,
            back,
            back + least(end - back, limit - out.len()),
            e,
        );
        law_listed_is_edge(csr, rows, i as int, k);
        let row = choose|row: EdgeRow|
            rows.contains(row) && known(row, csr.entity_by_rowid@)
                && csr.entity_by_rowid@[row.target_entity] == i && #[trigger] arrives_at(
                csr,
                row,
                k,
            );
        assert(row_view(row) == e);
    }
}

proof fn lemma_edges_out_listed(
    csr: EdgeCsr,
    own: u32,
    filter: Seq<u32>,
    from: int,
    to: int,
    e: EdgeView,
) -> (k: int)
    requires
        edges_out(csr, own, filter, from, to).contains(e),
    ensures
        from <= k < to,
        label_passes(filter, csr.labels@[k] as u32),
        e == (EdgeView {
            id: csr.rowids@[k],
            source: rowid_at(csr, own),
            target: rowid_at(csr, csr.targets@[k]),
            label: csr.labels@[k] as u32,
        }),
    decreases to - from,
{
    let head = edges_out(csr, own, filter, from, to - 1);
    let all = edges_out(csr, own, filter, from, to);
    let p = choose|p: int| 0 <= p < all.len() && all[p] == e;
    if p < head.len() {
        assert(head[p] == e);
        lemma_edges_out_listed(csr, own, filter, from, to - 1, e)
    } else {
        to - 1
    }
}

proof fn lemma_edges_in_listed(
    csr: EdgeCsr,
    own: u32,
    filter: Seq<u32>,
    from: int,
    to: int,
    e: EdgeView,
) -> (k: int)
    requires
        edges_in(csr, own, filter, from, to).contains(e),
    ensures
        from <= k < to,
        label_passes(filter, csr.in_labels@[k] as u32),
        e == (EdgeView {
            id: csr.in_rowids@[k],
            source: rowid_at(csr, csr.sources@[k]),
            target: rowid_at(csr, own),
            label: csr.in_labels@[k] as u32,
        }),
    decreases to - from,
{
    let head = edges_in(csr, own, filter, from, to - 1);
    let all = edges_in(csr, own, filter, from, to);
    let p = choose|p: int| 0 <= p < all.len() && all[p] == e;
    if p < head.len() {
        assert(head[p] == e);
        lemma_edges_in_listed(csr, own, filter, from, to - 1, e)
    } else {
        to - 1
    }
}

proof fn lemma_push_keeps(s: Seq<u64>, x: u64, y: u64)
    ensures
        s.push(x).contains(y) <==> s.contains(y) || y == x,
{
    let t = s.push(x);
    if s.contains(y) {
        let k = choose|k: int| 0 <= k < s.len() && s[k] == y;
        assert(t[k] == y);
    }
    assert(t[s.len() as int] == x);
    if t.contains(y) && y != x {
        let k = choose|k: int| 0 <= k < t.len() && t[k] == y;
        assert(s[k] == y);
    }
}

proof fn lemma_below(numbers: Seq<u32>, n: int, i: u32)
    requires
        numbers.contains(i),
        i < n,
    ensures
        below(numbers, n).contains(i as int),
    decreases numbers.len(),
{
    let k = choose|k: int| 0 <= k < numbers.len() && numbers[k] == i;
    let head = numbers.drop_last();
    let rest = below(head, n);
    if k < head.len() {
        assert(head[k] == i);
        lemma_below(head, n, i);
    }
    lemma_push_contains(rest, numbers.last() as int, i as int);
}

proof fn lemma_loaded(nodes: Seq<int>, live: Seq<bool>, i: int)
    requires
        nodes.contains(i),
        live[i],
    ensures
        loaded(nodes, live).contains(i),
    decreases nodes.len(),
{
    let k = choose|k: int| 0 <= k < nodes.len() && nodes[k] == i;
    let head = nodes.drop_last();
    let rest = loaded(head, live);
    if k < head.len() {
        assert(head[k] == i);
        lemma_loaded(head, live, i);
    }
    lemma_push_contains(rest, nodes.last(), i);
}

} // verus!
