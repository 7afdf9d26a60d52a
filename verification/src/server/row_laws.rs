//! What traversals and lists of edges say of the rows that were loaded.

use vstd::prelude::*;

use super::edge_csr::{
    arranges, known, law_edge_is_listed, law_listed_is_edge, leaves_at, lists, source_edges,
    EdgeCsr, HalfEdge,
};
use super::edge_laws::lemma_others_ascend;
use super::graph_index::law_generation_clears_marks;
use super::hot_tier::HotTier;
use super::pipeline::{at_most, Pipeline};
use super::query_ctx::{grown, marks_below, next_generation};
use super::rows::EdgeRow;
use super::traversal::{
    bfs_order, csr_next, label_passes, lemma_push_contains, rowids_of, targets_between,
};
use super::traversal_laws::{
    law_bfs_holds_reachable, law_bfs_nearest_first, law_bfs_visits_once, reach, reachable,
};

verus! {

/// Whether a stored edge leads from one entity to another, and its label is
/// among those asked for or none is asked for. Labels are told apart by their
/// remainder.
pub open spec fn row_leads(
    row: EdgeRow,
    from: u64,
    to: u64,
    filter: Seq<u32>,
    labels: int,
) -> bool {
    &&& row.source_entity == from
    &&& row.target_entity == to
    &&& filter.len() > 0 ==> exists|f: int|
        0 <= f < filter.len() && #[trigger] filter[f] == row.label as int % labels
}

/// Whether one entity can be reached from another over at most `steps` stored
/// edges between the given entities.
pub open spec fn within(
    rows: Seq<EdgeRow>,
    ids: Seq<u64>,
    start: u64,
    filter: Seq<u32>,
    labels: int,
    steps: nat,
    rowid: u64,
) -> bool
    decreases steps,
{
    if steps == 0 {
        rowid == start
    } else {
        ||| within(rows, ids, start, filter, labels, (steps - 1) as nat, rowid)
        ||| ids.contains(rowid) && exists|k: int, via: u64|
            0 <= k < rows.len() && within(
                rows,
                ids,
                start,
                filter,
                labels,
                (steps - 1) as nat,
                via,
            ) && #[trigger] row_leads(rows[k], via, rowid, filter, labels)
    }
}

proof fn lemma_targets_between(
    targets: Seq<u32>,
    labels: Seq<u16>,
    filter: Seq<u32>,
    from: int,
    to: int,
    node: int,
)
    ensures
        targets_between(targets, labels, filter, from, to).contains(node) <==> exists|k: int|
            from <= k < to && #[trigger] targets[k] == node && label_passes(
                filter,
                labels[k] as u32,
            ),
    decreases to - from,
{
    let all = targets_between(targets, labels, filter, from, to);
    if from < to {
        let head = targets_between(targets, labels, filter, from, to - 1);
        lemma_targets_between(targets, labels, filter, from, to - 1, node);
        lemma_push_contains(head, targets[to - 1] as int, node);
        if head.contains(node) {
            let k = choose|k: int|
                from <= k < to - 1 && #[trigger] targets[k] == node && label_passes(
                    filter,
                    labels[k] as u32,
                );
            assert(targets[k] == node);
        }
        if label_passes(filter, labels[to - 1] as u32) && targets[to - 1] == node {
            assert(targets[to - 1] == node);
        }
    }
}

/// In a list without duplicates every rowid has its place as its number.
proof fn lemma_number(csr: EdgeCsr, i: int)
    requires
        csr.wf(),
        csr.entity_rowids@.no_duplicates(),
        0 <= i < csr.entity_rowids@.len(),
    ensures
        csr.entity_by_rowid@.contains_key(csr.entity_rowids@[i]),
        csr.entity_by_rowid@[csr.entity_rowids@[i]] == i,
        csr.number_of(csr.entity_rowids@[i]) == Some(i as u32),
{
    let ids = csr.entity_rowids@;
    assert(ids.contains(ids[i]));
    let j = csr.entity_by_rowid@[ids[i]] as int;
    assert(ids[j] == ids[i]);
}

/// One step from an entity leads to exactly the targets of the rows that leave
/// it and whose labels are asked for.
pub proof fn law_step_follows_rows(
    csr: EdgeCsr,
    rows: Seq<EdgeRow>,
    filter: Seq<u32>,
    i: int,
    j: int,
)
    requires
        csr.wf(),
        csr.holds_rows(rows),
        csr.entity_rowids@.no_duplicates(),
        0 <= i < csr.entity_rowids@.len(),
        0 <= j < csr.entity_rowids@.len(),
    ensures
        csr_next(csr, filter)(i).contains(j) <==> exists|k: int|
            0 <= k < rows.len() && #[trigger] row_leads(
                rows[k],
                csr.entity_rowids@[i],
                csr.entity_rowids@[j],
                filter,
                65536,
            ),
{
    let ids = csr.entity_rowids@;
    let m = csr.entity_by_rowid@;
    let from = csr.offsets@[i] as int;
    let to = csr.offsets@[i + 1] as int;
    lemma_number(csr, i);
    lemma_number(csr, j);
    lemma_targets_between(csr.targets@, csr.labels@, filter, from, to, j);
    if csr_next(csr, filter)(i).contains(j) {
        let p = choose|p: int|
            from <= p < to && #[trigger] csr.targets@[p] == j && label_passes(
                filter,
                csr.labels@[p] as u32,
            );
        law_listed_is_edge(csr, rows, i, p);
        let row = choose|row: EdgeRow|
            rows.contains(row) && known(row, m) && m[row.source_entity] == i
                && #[trigger] leaves_at(csr, row, p);
        let k = choose|k: int| 0 <= k < rows.len() && rows[k] == row;
        assert(ids[m[row.source_entity] as int] == row.source_entity);
        assert(ids[m[row.target_entity] as int] == row.target_entity);
        if filter.len() > 0 {
            let f = choose|f: int| 0 <= f < filter.len() && filter[f] == csr.labels@[p] as u32;
            assert(filter[f] == row.label as int % 65536);
        }
        assert(row_leads(rows[k], ids[i], ids[j], filter, 65536));
    }
    if exists|k: int|
        0 <= k < rows.len() && #[trigger] row_leads(rows[k], ids[i], ids[j], filter, 65536) {
        let k = choose|k: int|
            0 <= k < rows.len() && #[trigger] row_leads(rows[k], ids[i], ids[j], filter, 65536);
        let row = rows[k];
        assert(rows.contains(row));
        law_edge_is_listed(csr, rows, row);
        let p = choose|p: int| #[trigger] leaves_at(csr, row, p);
        assert(csr.targets@[p] == j);
        if filter.len() > 0 {
            let f = choose|f: int|
                0 <= f < filter.len() && #[trigger] filter[f] == row.label as int % 65536;
            assert(filter[f] == csr.labels@[p] as u32);
            assert(filter.contains(csr.labels@[p] as u32));
        }
    }
}

/// Whether the neighbours of each place are those that the rows lead to.
pub open spec fn follows(
    next: spec_fn(int) -> Seq<int>,
    rows: Seq<EdgeRow>,
    ids: Seq<u64>,
    filter: Seq<u32>,
    labels: int,
) -> bool {
    &&& forall|i: int, j: int|
        0 <= i < ids.len() && 0 <= j < ids.len() ==> (#[trigger] next(i).contains(j) <==> exists|
            k: int,
        |
            0 <= k < rows.len() && #[trigger] row_leads(rows[k], ids[i], ids[j], filter, labels))
    &&& forall|i: int, j: int|
        0 <= i < ids.len() && #[trigger] next(i).contains(j) ==> 0 <= j < ids.len()
}

/// What can be reached is in range, and can be reached over the rows.
pub proof fn lemma_reach_follows_rows(
    next: spec_fn(int) -> Seq<int>,
    rows: Seq<EdgeRow>,
    ids: Seq<u64>,
    filter: Seq<u32>,
    labels: int,
    start: int,
    steps: nat,
    node: int,
)
    requires
        follows(next, rows, ids, filter, labels),
        ids.no_duplicates(),
        0 <= start < ids.len(),
    ensures
        reachable(next, start, steps, node) ==> 0 <= node < ids.len(),
        0 <= node < ids.len() ==> (reachable(next, start, steps, node) <==> within(
            rows,
            ids,
            ids[start],
            filter,
            labels,
            steps,
            ids[node],
        )),
    decreases steps,
{
    if steps > 0 {
        let less = (steps - 1) as nat;
        let nearer = reach(next, start, less);
        lemma_reach_follows_rows(next, rows, ids, filter, labels, start, less, node);
        if reachable(next, start, steps, node) && !nearer.contains(node) {
            let via = choose|via: int| #[trigger] nearer.contains(via) && next(via).contains(node);
            assert(reachable(next, start, less, via));
            lemma_reach_follows_rows(next, rows, ids, filter, labels, start, less, via);
            assert(ids.contains(ids[node]));
            let k = choose|k: int|
                0 <= k < rows.len() && #[trigger] row_leads(
                    rows[k],
                    ids[via],
                    ids[node],
                    filter,
                    labels,
                );
            assert(within(rows, ids, ids[start], filter, labels, less, ids[via]));
        }
        if 0 <= node < ids.len() && within(
            rows,
            ids,
            ids[start],
            filter,
            labels,
            steps,
            ids[node],
        ) && !within(rows, ids, ids[start], filter, labels, less, ids[node]) {
            let (k, via) = choose|k: int, via: u64|
                0 <= k < rows.len() && within(rows, ids, ids[start], filter, labels, less, via)
                    && #[trigger] row_leads(rows[k], via, ids[node], filter, labels);
            assert(ids.contains(ids[start]));
            lemma_within_known(rows, ids, ids[start], filter, labels, less, via);
            let v = choose|v: int| 0 <= v < ids.len() && ids[v] == via;
            lemma_reach_follows_rows(next, rows, ids, filter, labels, start, less, v);
            assert(nearer.contains(v));
            assert(next(v).contains(node));
        }
    }
}

/// The order of a traversal holds what can be reached over the rows, each once,
/// the start first and nearer ones before farther ones.
pub proof fn lemma_order_follows_rows(
    next: spec_fn(int) -> Seq<int>,
    rows: Seq<EdgeRow>,
    ids: Seq<u64>,
    filter: Seq<u32>,
    labels: int,
    start: int,
    depth: nat,
    steps: nat,
)
    requires
        follows(next, rows, ids, filter, labels),
        ids.no_duplicates(),
        0 <= start < ids.len(),
    ensures
        ({
            let order = bfs_order(next, start, Set::empty(), depth);
            let all = rowids_of(ids, order);
            &&& forall|k: int| 0 <= k < order.len() ==> 0 <= #[trigger] order[k] < ids.len()
            &&& all.len() > 0
            &&& all[0] == ids[start]
            &&& all.no_duplicates()
            &&& forall|x: u64| #[trigger]
                all.contains(x) <==> within(rows, ids, ids[start], filter, labels, depth, x)
            &&& forall|a: int, b: int|
                0 <= a <= b < all.len() && within(
                    rows,
                    ids,
                    ids[start],
                    filter,
                    labels,
                    steps,
                    #[trigger] all[b],
                ) ==> within(rows, ids, ids[start], filter, labels, steps, #[trigger] all[a])
        }),
{
    let order = bfs_order(next, start, Set::empty(), depth);
    let all = rowids_of(ids, order);
    law_bfs_visits_once(next, start, depth);
    assert forall|k: int| 0 <= k < order.len() implies 0 <= #[trigger] order[k] < ids.len() by {
        assert(order.contains(order[k]));
        law_bfs_holds_reachable(next, start, depth, order[k]);
        lemma_reach_follows_rows(next, rows, ids, filter, labels, start, depth, order[k]);
    }
    assert(all.no_duplicates()) by {
        assert forall|a: int, b: int| 0 <= a < b < all.len() implies all[a] != all[b] by {
            assert(order[a] != order[b]);
        }
    }
    assert(all[0] == ids[start]);
    assert forall|x: u64| #[trigger]
        all.contains(x) <==> within(rows, ids, ids[start], filter, labels, depth, x) by {
        if all.contains(x) {
            let k = choose|k: int| 0 <= k < all.len() && all[k] == x;
            assert(order.contains(order[k]));
            law_bfs_holds_reachable(next, start, depth, order[k]);
            lemma_reach_follows_rows(next, rows, ids, filter, labels, start, depth, order[k]);
        }
        if within(rows, ids, ids[start], filter, labels, depth, x) {
            assert(ids.contains(ids[start]));
            lemma_within_known(rows, ids, ids[start], filter, labels, depth, x);
            let v = choose|v: int| 0 <= v < ids.len() && ids[v] == x;
            lemma_reach_follows_rows(next, rows, ids, filter, labels, start, depth, v);
            law_bfs_holds_reachable(next, start, depth, v);
            let k = choose|k: int| 0 <= k < order.len() && order[k] == v;
            assert(all[k] == x);
        }
    }
    assert forall|a: int, b: int|
        0 <= a <= b < all.len() && within(
            rows,
            ids,
            ids[start],
            filter,
            labels,
            steps,
            #[trigger] all[b],
        ) implies within(rows, ids, ids[start], filter, labels, steps, #[trigger] all[a]) by {
        lemma_reach_follows_rows(next, rows, ids, filter, labels, start, steps, order[b]);
        law_bfs_nearest_first(next, start, depth, a, b, steps);
        lemma_reach_follows_rows(next, rows, ids, filter, labels, start, steps, order[a]);
    }
}

/// The arrays of a loaded graph follow the rows.
pub proof fn lemma_csr_follows_rows(csr: EdgeCsr, rows: Seq<EdgeRow>, filter: Seq<u32>)
    requires
        csr.wf(),
        csr.holds_rows(rows),
        csr.entity_rowids@.no_duplicates(),
    ensures
        follows(csr_next(csr, filter), rows, csr.entity_rowids@, filter, 65536),
{
    let ids = csr.entity_rowids@;
    let next = csr_next(csr, filter);
    assert forall|i: int, j: int| 0 <= i < ids.len() && 0 <= j < ids.len() implies (#[trigger] next(
        i,
    ).contains(j) <==> exists|k: int|
        0 <= k < rows.len() && #[trigger] row_leads(rows[k], ids[i], ids[j], filter, 65536)) by {
        law_step_follows_rows(csr, rows, filter, i, j);
    }
    assert forall|i: int, j: int| 0 <= i < ids.len() && #[trigger] next(i).contains(j) implies 0
        <= j < ids.len() by {
        let from = csr.offsets@[i] as int;
        let to = csr.offsets@[i + 1] as int;
        let n = ids.len() as int;
        assert(csr.offsets@[i + 1] <= csr.offsets@[n]);
        lemma_targets_between(csr.targets@, csr.labels@, filter, from, to, j);
    }
}

/// What can be reached from a known entity is known.
pub proof fn lemma_within_known(
    rows: Seq<EdgeRow>,
    ids: Seq<u64>,
    start: u64,
    filter: Seq<u32>,
    labels: int,
    steps: nat,
    rowid: u64,
)
    requires
        ids.contains(start),
        within(rows, ids, start, filter, labels, steps, rowid),
    ensures
        ids.contains(rowid),
    decreases steps,
{
    if steps > 0 && within(rows, ids, start, filter, labels, (steps - 1) as nat, rowid) {
        lemma_within_known(rows, ids, start, filter, labels, (steps - 1) as nat, rowid);
    }
}

/// A traversal of a loaded graph reports the entities that can be reached from
/// the start over stored edges whose labels are asked for: only such, each
/// once, the start first and nearer ones before farther ones, and all of them
/// unless the limit is reached. An unknown start reaches nothing.
pub proof fn law_traversal_follows_rows(
    pipeline: Pipeline,
    rows: Seq<EdgeRow>,
    marks: Seq<u32>,
    generation: u32,
    start: u64,
    depth: u32,
    filter: Seq<u32>,
    limit: u32,
    r: Seq<u64>,
    steps: nat,
    rowid: u64,
)
    requires
        pipeline.wf(),
        pipeline.index.edge_csr.holds_rows(rows),
        pipeline.index.edge_csr.entity_rowids@.no_duplicates(),
        marks_below(marks, generation),
        r == at_most(
            pipeline.reached(
                grown(marks, pipeline.index.edge_csr.entity_rowids@.len() as int),
                next_generation(generation),
                start,
                depth,
                filter,
            ),
            limit as int,
        ),
    ensures
        ({
            let ids = pipeline.index.edge_csr.entity_rowids@;
            &&& r.len() <= limit
            &&& r.no_duplicates()
            &&& !ids.contains(start) ==> r.len() == 0
            &&& ids.contains(start) && limit > 0 ==> r.len() > 0 && r[0] == start
            &&& ids.contains(start) ==> {
                &&& r.contains(rowid) ==> within(
                    rows,
                    ids,
                    start,
                    filter,
                    65536,
                    depth as nat,
                    rowid,
                )
                &&& within(rows, ids, start, filter, 65536, depth as nat, rowid) && r.len() < limit
                    ==> r.contains(rowid)
                &&& steps <= depth && within(rows, ids, start, filter, 65536, steps, rowid)
                    && !r.contains(rowid) ==> forall|b: int|
                    0 <= b < r.len() ==> within(
                        rows,
                        ids,
                        start,
                        filter,
                        65536,
                        steps,
                        #[trigger] r[b],
                    )
                &&& forall|a: int, b: int|
                    0 <= a < b < r.len() && within(
                        rows,
                        ids,
                        start,
                        filter,
                        65536,
                        steps,
                        #[trigger] r[b],
                    ) ==> within(rows, ids, start, filter, 65536, steps, #[trigger] r[a])
            }
        }),
{
    let csr = pipeline.index.edge_csr;
    let ids = csr.entity_rowids@;
    let n = ids.len() as int;
    if !ids.contains(start) {
        assert(csr.number_of(start) is None);
        assert(r =~= Seq::<u64>::empty());
    } else {
        let s = csr.entity_by_rowid@[start] as int;
        assert(csr.entity_by_rowid@.contains_key(start));
        assert(ids[s] == start);
        let next = csr_next(csr, filter);
        law_generation_clears_marks(marks, generation, n, Seq::empty());
        lemma_csr_follows_rows(csr, rows, filter);
        lemma_order_follows_rows(next, rows, ids, filter, 65536, s, depth as nat, steps);
        let all = rowids_of(ids, bfs_order(next, s, Set::empty(), depth as nat));
        assert forall|k: int| 0 <= k < r.len() implies #[trigger] r[k] == all[k] by {}
        if r.contains(rowid) {
            let k = choose|k: int| 0 <= k < r.len() && r[k] == rowid;
            assert(all[k] == rowid);
            assert(all.contains(rowid));
        }
        if steps <= depth && within(rows, ids, start, filter, 65536, steps, rowid) {
            lemma_within_longer(rows, ids, start, filter, 65536, steps, depth as nat, rowid);
            assert(all.contains(rowid));
            let k = choose|k: int| 0 <= k < all.len() && all[k] == rowid;
            if k < r.len() {
                assert(r[k] == rowid);
            } else {
                assert forall|b: int| 0 <= b < r.len() implies within(
                    rows,
                    ids,
                    start,
                    filter,
                    65536,
                    steps,
                    #[trigger] r[b],
                ) by {
                    assert(within(rows, ids, start, filter, 65536, steps, all[k]));
                    assert(r[b] == all[b]);
                }
            }
        }
        if within(rows, ids, start, filter, 65536, depth as nat, rowid) && r.len() < limit {
            assert(all.contains(rowid));
            assert(r == all);
        }
        assert forall|a: int, b: int|
            0 <= a < b < r.len() && within(
                rows,
                ids,
                start,
                filter,
                65536,
                steps,
                #[trigger] r[b],
            ) implies within(rows, ids, start, filter, 65536, steps, #[trigger] r[a]) by {
            assert(r[a] == all[a] && r[b] == all[b]);
        }
    }
}

/// A traversal of the graph in memory reports exactly the entities that can be
/// reached from the start over stored edges whose labels are asked for, each
/// once, the start first and nearer ones before farther ones. An unknown start
/// reaches nothing.
pub proof fn law_hot_traversal_follows_rows(
    tier: HotTier,
    rows: Seq<EdgeRow>,
    start: u64,
    depth: u32,
    filter: Seq<u32>,
    r: Seq<u64>,
    steps: nat,
    rowid: u64,
)
    requires
        tier.wf(),
        tier.edge_csr.holds_rows(rows),
        tier.edge_csr.entity_rowids@.no_duplicates(),
        r == tier.reached(start, depth, filter),
    ensures
        ({
            let ids = tier.edge_csr.entity_rowids@;
            &&& r.no_duplicates()
            &&& !ids.contains(start) ==> r.len() == 0
            &&& ids.contains(start) ==> {
                &&& r.len() > 0 && r[0] == start
                &&& r.contains(rowid) <==> within(
                    rows,
                    ids,
                    start,
                    filter,
                    65536,
                    depth as nat,
                    rowid,
                )
                &&& forall|a: int, b: int|
                    0 <= a <= b < r.len() && within(
                        rows,
                        ids,
                        start,
                        filter,
                        65536,
                        steps,
                        #[trigger] r[b],
                    ) ==> within(rows, ids, start, filter, 65536, steps, #[trigger] r[a])
            }
        }),
{
    let csr = tier.edge_csr;
    let ids = csr.entity_rowids@;
    if !ids.contains(start) {
        assert(csr.number_of(start) is None);
    } else {
        assert(csr.entity_by_rowid@.contains_key(start));
        let s = csr.entity_by_rowid@[start] as int;
        assert(ids[s] == start);
        lemma_csr_follows_rows(csr, rows, filter);
        lemma_order_follows_rows(
            csr_next(csr, filter),
            rows,
            ids,
            filter,
            65536,
            s,
            depth as nat,
            steps,
        );
    }
}

/// More steps reach no less.
pub proof fn lemma_within_longer(
    rows: Seq<EdgeRow>,
    ids: Seq<u64>,
    start: u64,
    filter: Seq<u32>,
    labels: int,
    few: nat,
    many: nat,
    rowid: u64,
)
    requires
        few <= many,
        within(rows, ids, start, filter, labels, few, rowid),
    ensures
        within(rows, ids, start, filter, labels, many, rowid),
    decreases many,
{
    if few < many {
        lemma_within_longer(rows, ids, start, filter, labels, few, (many - 1) as nat, rowid);
    }
}

/// The neighbours of an entity come in the order in which the entities were
/// listed.
pub proof fn law_neighbours_ascend(
    csr: EdgeCsr,
    rows: Seq<EdgeRow>,
    filter: Seq<u32>,
    i: int,
    p: int,
    q: int,
)
    requires
        csr.wf(),
        csr.holds_rows(rows),
        0 <= i < csr.entity_rowids@.len(),
        0 <= p <= q < csr_next(csr, filter)(i).len(),
    ensures
        csr_next(csr, filter)(i)[p] <= csr_next(csr, filter)(i)[q],
{
    let n = csr.entity_rowids@.len() as int;
    let m = csr.entity_by_rowid@;
    let out = choose|out: Seq<HalfEdge>| #[trigger]
        arranges(out, source_edges(rows, m)) && lists(
            csr.offsets@,
            csr.targets@,
            csr.labels@,
            csr.rowids@,
            out,
            n,
        );
    lemma_others_ascend(csr.offsets@, csr.targets@, csr.labels@, csr.rowids@, out, n, i);
    lemma_targets_ascend(
        csr.targets@,
        csr.labels@,
        filter,
        csr.offsets@[i] as int,
        csr.offsets@[i + 1] as int,
        p,
        q,
    );
}

proof fn lemma_targets_ascend(
    targets: Seq<u32>,
    labels: Seq<u16>,
    filter: Seq<u32>,
    from: int,
    to: int,
    p: int,
    q: int,
)
    requires
        forall|k: int, l: int| from <= k <= l < to ==> #[trigger] targets[k] <= #[trigger] targets[l],
        0 <= p <= q < targets_between(targets, labels, filter, from, to).len(),
    ensures
        targets_between(targets, labels, filter, from, to)[p] <= targets_between(
            targets,
            labels,
            filter,
            from,
            to,
        )[q],
        exists|k: int|
            from <= k < to && #[trigger] targets[k] == targets_between(
                targets,
                labels,
                filter,
                from,
                to,
            )[q],
    decreases to - from,
{
    if from < to {
        let head = targets_between(targets, labels, filter, from, to - 1);
        if q < head.len() {
            lemma_targets_ascend(targets, labels, filter, from, to - 1, p, q);
        } else {
            assert(targets[to - 1] == targets_between(targets, labels, filter, from, to)[q]);
            if p < head.len() {
                lemma_targets_ascend(targets, labels, filter, from, to - 1, p, p);
                let k = choose|k: int| from <= k < to - 1 && #[trigger] targets[k] == head[p];
                assert(targets[k] <= targets[to - 1]);
            }
        }
    }
}

} // verus!
