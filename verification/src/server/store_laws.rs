//! What a graph of slots says of the rows that were loaded.

use vstd::prelude::*;

use super::edge_csr::{known, known_rows, lemma_known_rows};
use super::graph_index::{placed_rows, PositionRow};
use super::graph_store::{arriving, last_position, leaving, numbers_of, GraphStore};
use super::row_laws::{follows, lemma_order_follows_rows, row_leads, within};
use super::rows::EdgeRow;
use super::traversal::{bfs_order, label_passes, lemma_push_contains, rowids_of};
use crate::ecs::pending::Index;

verus! {

/// In a list without duplicates every rowid leads to its own slot.
proof fn lemma_own_slot(
    graph: GraphStore,
    rowids: Seq<u64>,
    rows: Seq<EdgeRow>,
    positions: Seq<PositionRow>,
    i: int,
)
    requires
        graph.wf(),
        graph.holds(rowids, rows, positions),
        rowids.no_duplicates(),
        0 <= i < rowids.len(),
    ensures
        numbers_of(graph.entity_by_rowid@).contains_key(rowids[i]),
        numbers_of(graph.entity_by_rowid@)[rowids[i]] == i,
        graph.entity_by_rowid@.contains_key(rowids[i]),
        graph.entity_by_rowid@[rowids[i]].data.index == i,
        rowids[i] != 0 ==> graph.entity_slot(i) == Some(i),
{
    let numbers = numbers_of(graph.entity_by_rowid@);
    assert(rowids.contains(rowids[i]));
    assert(numbers.contains_key(rowids[i]));
    assert(rowids[numbers[rowids[i]] as int] == rowids[i]);
    assert(graph.entity_by_rowid@[rowids[i]].data.index < graph.entities.inner.data@.len());
}

proof fn lemma_leaving(rows: Seq<EdgeRow>, numbers: Map<u64, u32>, i: int, e: Index)
    requires
        rows.len() <= usize::MAX,
    ensures
        leaving(rows, numbers, i).contains(e) <==> e < rows.len()
            && numbers[rows[e as int].source_entity] == i,
        arriving(rows, numbers, i).contains(e) <==> e < rows.len()
            && numbers[rows[e as int].target_entity] == i,
    decreases rows.len(),
{
    if rows.len() > 0 {
        let rest = rows.drop_last();
        let last = (rows.len() - 1) as usize;
        lemma_leaving(rest, numbers, i, e);
        let out = leaving(rest, numbers, i);
        let back = arriving(rest, numbers, i);
        lemma_index_push(out, last, e);
        lemma_index_push(back, last, e);
        if e < last {
            assert(rest[e as int] == rows[e as int]);
        }
    }
}

proof fn lemma_index_push(s: Seq<Index>, x: Index, y: Index)
    ensures
        s.push(x).contains(y) <==> s.contains(y) || x == y,
{
    let all = s.push(x);
    if s.contains(y) {
        let k = choose|k: int| 0 <= k < s.len() && s[k] == y;
        assert(all[k] == y);
    }
    assert(all[s.len() as int] == x);
    if all.contains(y) && x != y {
        let k = choose|k: int| 0 <= k < all.len() && all[k] == y;
        assert(s[k] == y);
    }
}

proof fn lemma_targets(graph: GraphStore, edges: Seq<Index>, filter: Seq<u32>, j: int)
    ensures
        graph.targets(edges, filter).contains(j) <==> exists|p: int|
            0 <= p < edges.len() && graph.edge_slot((#[trigger] edges[p]) as int) is Some
                && graph.edges.inner.data@[graph.edge_slot(edges[p] as int)->0].target_idx == j
                && label_passes(
                filter,
                graph.edges.inner.data@[graph.edge_slot(edges[p] as int)->0].label,
            ),
    decreases edges.len(),
{
    let all = graph.targets(edges, filter);
    if edges.len() > 0 {
        let rest = edges.drop_last();
        let head = graph.targets(rest, filter);
        lemma_targets(graph, rest, filter, j);
        let last = edges.len() - 1;
        assert(edges[last] == edges.last());
        if head.contains(j) {
            let p = choose|p: int|
                0 <= p < rest.len() && graph.edge_slot((#[trigger] rest[p]) as int) is Some
                    && graph.edges.inner.data@[graph.edge_slot(rest[p] as int)->0].target_idx == j
                    && label_passes(
                    filter,
                    graph.edges.inner.data@[graph.edge_slot(rest[p] as int)->0].label,
                );
            assert(edges[p] == rest[p]);
        }
        if let Some(s) = graph.edge_slot(edges.last() as int) {
            lemma_push_contains(head, graph.edges.inner.data@[s].target_idx as int, j);
        }
        if exists|p: int|
            0 <= p < edges.len() && graph.edge_slot((#[trigger] edges[p]) as int) is Some
                && graph.edges.inner.data@[graph.edge_slot(edges[p] as int)->0].target_idx == j
                && label_passes(
                filter,
                graph.edges.inner.data@[graph.edge_slot(edges[p] as int)->0].label,
            ) {
            let p = choose|p: int|
                0 <= p < edges.len() && graph.edge_slot((#[trigger] edges[p]) as int) is Some
                    && graph.edges.inner.data@[graph.edge_slot(edges[p] as int)->0].target_idx == j
                    && label_passes(
                    filter,
                    graph.edges.inner.data@[graph.edge_slot(edges[p] as int)->0].label,
                );
            if p < last {
                assert(rest[p] == edges[p]);
            }
        }
    }
}

/// Every edge in a slot is a stored row between listed entities, with its rowid,
/// its ends and its label.
pub proof fn law_slot_edge_is_row(
    graph: GraphStore,
    rowids: Seq<u64>,
    rows: Seq<EdgeRow>,
    positions: Seq<PositionRow>,
    j: int,
)
    requires
        graph.wf(),
        graph.holds(rowids, rows, positions),
        0 <= j < graph.edges.inner.data@.len(),
    ensures
        ({
            let e = graph.edges.inner.data@[j];
            &&& e.source_idx < rowids.len()
            &&& e.target_idx < rowids.len()
            &&& exists|k: int|
                0 <= k < rows.len() && (#[trigger] rows[k]).id == e.sqlite_rowid && rows[k].label
                    == e.label && rows[k].source_entity == rowids[e.source_idx as int]
                    && rows[k].target_entity == rowids[e.target_idx as int]
        }),
{
    let numbers = numbers_of(graph.entity_by_rowid@);
    let kept = known_rows(rows, numbers);
    assert(graph.edge_matches(j, kept, numbers));
    lemma_known_rows(rows, numbers);
    let row = kept[j];
    assert(kept.contains(row));
    assert(rows.contains(row) && known(row, numbers));
    let k = choose|k: int| 0 <= k < rows.len() && rows[k] == row;
    assert(rowids[numbers[row.source_entity] as int] == row.source_entity);
    assert(rowids[numbers[row.target_entity] as int] == row.target_entity);
    assert(rows[k].id == row.id);
}

/// Every stored row between listed entities is in a slot.
pub proof fn law_row_has_slot(
    graph: GraphStore,
    rowids: Seq<u64>,
    rows: Seq<EdgeRow>,
    positions: Seq<PositionRow>,
    k: int,
)
    requires
        graph.wf(),
        graph.holds(rowids, rows, positions),
        0 <= k < rows.len(),
        rowids.contains(rows[k].source_entity),
        rowids.contains(rows[k].target_entity),
    ensures
        exists|j: int|
            0 <= j < graph.edges.inner.data@.len() && (
            #[trigger] graph.edges.inner.data@[j]).sqlite_rowid == rows[k].id
                && graph.edges.inner.data@[j].label == rows[k].label
                && rowids[graph.edges.inner.data@[j].source_idx as int] == rows[k].source_entity
                && rowids[graph.edges.inner.data@[j].target_idx as int] == rows[k].target_entity,
{
    let numbers = numbers_of(graph.entity_by_rowid@);
    let kept = known_rows(rows, numbers);
    lemma_known_rows(rows, numbers);
    let row = rows[k];
    assert(numbers.contains_key(row.source_entity));
    assert(numbers.contains_key(row.target_entity));
    assert(rows.contains(row));
    assert(known(row, numbers));
    assert(kept.contains(row));
    let j = choose|j: int| 0 <= j < kept.len() && kept[j] == row;
    assert(graph.edge_matches(j, kept, numbers));
    assert(rowids[numbers[row.source_entity] as int] == row.source_entity);
    assert(rowids[numbers[row.target_entity] as int] == row.target_entity);
    assert(graph.edges.inner.data@[j].sqlite_rowid == row.id);
}

/// An entity lists among its outgoing edges exactly the edges that start at its
/// slot, and among its incoming edges exactly those that end there.
pub proof fn law_entity_lists_its_edges(
    graph: GraphStore,
    rowids: Seq<u64>,
    rows: Seq<EdgeRow>,
    positions: Seq<PositionRow>,
    i: int,
    j: Index,
)
    requires
        graph.wf(),
        graph.holds(rowids, rows, positions),
        0 <= i < rowids.len(),
    ensures
        ({
            let e = graph.entities.inner.data@[i];
            let edges = graph.edges.inner.data@;
            &&& e.sqlite_rowid == rowids[i]
            &&& e.edges_out@.contains(j) <==> j < edges.len() && edges[j as int].source_idx == i
            &&& e.edges_in@.contains(j) <==> j < edges.len() && edges[j as int].target_idx == i
        }),
{
    let numbers = numbers_of(graph.entity_by_rowid@);
    let kept = known_rows(rows, numbers);
    assert(graph.entity_matches(i, rowids, kept, numbers));
    assert(graph.edges.inner.data@.len() == graph.edges.inner.data.len());
    lemma_leaving(kept, numbers, i, j);
    if j < kept.len() {
        assert(graph.edge_matches(j as int, kept, numbers));
    }
}

proof fn lemma_store_follows_rows(
    graph: GraphStore,
    rowids: Seq<u64>,
    rows: Seq<EdgeRow>,
    positions: Seq<PositionRow>,
    filter: Seq<u32>,
)
    requires
        graph.wf(),
        graph.holds(rowids, rows, positions),
        rowids.no_duplicates(),
        !rowids.contains(0),
    ensures
        follows(graph.next(filter), rows, rowids, filter, 0x1_0000_0000),
{
    let numbers = numbers_of(graph.entity_by_rowid@);
    let kept = known_rows(rows, numbers);
    let next = graph.next(filter);
    let full: int = 0x1_0000_0000;
    lemma_known_rows(rows, numbers);
    assert forall|i: int, j: int| 0 <= i < rowids.len() && #[trigger] next(i).contains(
        j,
    ) implies 0 <= j < rowids.len() && exists|k: int|
        0 <= k < rows.len() && #[trigger] row_leads(rows[k], rowids[i], rowids[j], filter, full) by {
        assert(rowids.contains(rowids[i]));
        lemma_own_slot(graph, rowids, rows, positions, i);
        assert(graph.entity_matches(i, rowids, kept, numbers));
        let edges = graph.entities.inner.data@[i].edges_out@;
        lemma_targets(graph, edges, filter, j);
        let p = choose|p: int|
            0 <= p < edges.len() && graph.edge_slot((#[trigger] edges[p]) as int) is Some
                && graph.edges.inner.data@[graph.edge_slot(edges[p] as int)->0].target_idx == j
                && label_passes(
                filter,
                graph.edges.inner.data@[graph.edge_slot(edges[p] as int)->0].label,
            );
        let e = edges[p];
        assert(edges.contains(e));
        assert(graph.edges.inner.data@.len() == graph.edges.inner.data.len());
        lemma_leaving(kept, numbers, i, e);
        assert(graph.edge_matches(e as int, kept, numbers));
        let row = kept[e as int];
        assert(kept.contains(row));
        assert(rows.contains(row) && known(row, numbers));
        let k = choose|k: int| 0 <= k < rows.len() && rows[k] == row;
        assert(rowids[numbers[row.source_entity] as int] == row.source_entity);
        assert(rowids[numbers[row.target_entity] as int] == row.target_entity);
        if filter.len() > 0 {
            let f = choose|f: int| 0 <= f < filter.len() && filter[f] == row.label;
            assert(filter[f] == row.label as int % full);
        }
        assert(row_leads(rows[k], rowids[i], rowids[j], filter, full));
    }
    assert forall|i: int, j: int|
        0 <= i < rowids.len() && 0 <= j < rowids.len() && (exists|k: int|
            0 <= k < rows.len() && #[trigger] row_leads(
                rows[k],
                rowids[i],
                rowids[j],
                filter,
                full,
            )) implies #[trigger] next(i).contains(j) by {
        let k = choose|k: int|
            0 <= k < rows.len() && #[trigger] row_leads(
                rows[k],
                rowids[i],
                rowids[j],
                filter,
                full,
            );
        let row = rows[k];
        lemma_own_slot(graph, rowids, rows, positions, i);
        lemma_own_slot(graph, rowids, rows, positions, j);
        assert(rowids.contains(rowids[i]) && rowids.contains(rowids[j]));
        assert(rows.contains(row));
        assert(known(row, numbers));
        assert(kept.contains(row));
        let e = choose|e: int| 0 <= e < kept.len() && kept[e] == row;
        assert(graph.edges.inner.data@.len() == graph.edges.inner.data.len());
        lemma_leaving(kept, numbers, i, e as usize);
        assert(graph.entity_matches(i, rowids, kept, numbers));
        assert(graph.edge_matches(e, kept, numbers));
        let edges = graph.entities.inner.data@[i].edges_out@;
        lemma_targets(graph, edges, filter, j);
        let p = choose|p: int| 0 <= p < edges.len() && edges[p] == e as usize;
        assert(graph.edge_slot(edges[p] as int) == Some(e));
        if filter.len() > 0 {
            let f = choose|f: int|
                0 <= f < filter.len() && #[trigger] filter[f] == row.label as int % full;
            assert(filter[f] == row.label);
            assert(filter.contains(row.label));
        }
    }
}

/// A traversal of the graph of slots reports exactly the entities that can be
/// reached from the start over stored edges whose labels are asked for, each
/// once, the start first and nearer ones before farther ones. An unknown start
/// reaches nothing. Labels are told apart in full.
pub proof fn law_store_traversal_follows_rows(
    graph: GraphStore,
    rowids: Seq<u64>,
    rows: Seq<EdgeRow>,
    positions: Seq<PositionRow>,
    start: u64,
    depth: u32,
    filter: Seq<u32>,
    r: Seq<u64>,
    steps: nat,
    rowid: u64,
)
    requires
        graph.wf(),
        graph.holds(rowids, rows, positions),
        rowids.no_duplicates(),
        !rowids.contains(0),
        if graph.entity_by_rowid@.contains_key(start) {
            let s = graph.entity_by_rowid@[start].data.index as int;
            let order = bfs_order(graph.next(filter), s, Set::empty(), depth as nat);
            r == seq![start] + graph.rowids_at(order.skip(1))
        } else {
            r == Seq::<u64>::empty()
        },
    ensures
        r.no_duplicates(),
        !rowids.contains(start) ==> r.len() == 0,
        rowids.contains(start) ==> {
            &&& r.len() > 0 && r[0] == start
            &&& r.contains(rowid) <==> within(
                rows,
                rowids,
                start,
                filter,
                0x1_0000_0000,
                depth as nat,
                rowid,
            )
            &&& forall|a: int, b: int|
                0 <= a <= b < r.len() && within(
                    rows,
                    rowids,
                    start,
                    filter,
                    0x1_0000_0000,
                    steps,
                    #[trigger] r[b],
                ) ==> within(rows, rowids, start, filter, 0x1_0000_0000, steps, #[trigger] r[a])
        },
{
    let numbers = numbers_of(graph.entity_by_rowid@);
    assert(numbers.contains_key(start) <==> rowids.contains(start));
    if rowids.contains(start) {
        let s = choose|s: int| 0 <= s < rowids.len() && rowids[s] == start;
        lemma_own_slot(graph, rowids, rows, positions, s);
        lemma_store_follows_rows(graph, rowids, rows, positions, filter);
        let next = graph.next(filter);
        let order = bfs_order(next, s, Set::empty(), depth as nat);
        lemma_order_follows_rows(
            next,
            rows,
            rowids,
            filter,
            0x1_0000_0000,
            s,
            depth as nat,
            steps,
        );
        assert forall|k: int| 0 <= k < order.skip(1).len() implies 0 <= #[trigger] order.skip(1)[k]
            < rowids.len() by {
            assert(order.skip(1)[k] == order[k + 1]);
        }
        lemma_rowids_at(graph, rowids, rows, positions, order.skip(1));
        assert(order[0] == s);
        assert(r =~= rowids_of(rowids, order));
    }
}

proof fn lemma_rowids_at(
    graph: GraphStore,
    rowids: Seq<u64>,
    rows: Seq<EdgeRow>,
    positions: Seq<PositionRow>,
    slots: Seq<int>,
)
    requires
        graph.wf(),
        graph.holds(rowids, rows, positions),
        rowids.no_duplicates(),
        !rowids.contains(0),
        forall|k: int| 0 <= k < slots.len() ==> 0 <= #[trigger] slots[k] < rowids.len(),
    ensures
        graph.rowids_at(slots) == rowids_of(rowids, slots),
    decreases slots.len(),
{
    if slots.len() > 0 {
        let rest = slots.drop_last();
        let i = slots.last();
        assert(slots[slots.len() - 1] == i);
        assert forall|k: int| 0 <= k < rest.len() implies 0 <= #[trigger] rest[k] < rowids.len() by {
            assert(rest[k] == slots[k]);
        }
        lemma_rowids_at(graph, rowids, rows, positions, rest);
        assert(rowids.contains(rowids[i]));
        lemma_own_slot(graph, rowids, rows, positions, i);
        let numbers = numbers_of(graph.entity_by_rowid@);
        assert(graph.entity_matches(i, rowids, known_rows(rows, numbers), numbers));
        assert(rowids_of(rowids, slots) =~= rowids_of(rowids, rest).push(rowids[i]));
    } else {
        assert(rowids_of(rowids, slots) =~= Seq::<u64>::empty());
    }
}

/// A slot has the position of the last row with its rowid, and none if there is
/// no such row.
pub proof fn law_slot_has_last_position(
    graph: GraphStore,
    rowids: Seq<u64>,
    rows: Seq<EdgeRow>,
    positions: Seq<PositionRow>,
    i: int,
    k: int,
)
    requires
        graph.wf(),
        graph.holds(rowids, rows, positions),
        rowids.no_duplicates(),
        0 <= i < rowids.len(),
    ensures
        graph.positions@.len() == rowids.len(),
        (forall|j: int| 0 <= j < positions.len() ==> (#[trigger] positions[j]).0 != rowids[i])
            ==> graph.positions@[i] is None,
        0 <= k < positions.len() && positions[k].0 == rowids[i] && (forall|j: int|
            k < j < positions.len() ==> (#[trigger] positions[j]).0 != rowids[i])
            ==> graph.positions@[i] == Some((positions[k].1, positions[k].2)),
{
    let numbers = numbers_of(graph.entity_by_rowid@);
    lemma_own_slot(graph, rowids, rows, positions, i);
    lemma_last_position(rowids, numbers, positions, i, k);
}

proof fn lemma_last_position(
    rowids: Seq<u64>,
    numbers: Map<u64, u32>,
    positions: Seq<PositionRow>,
    i: int,
    k: int,
)
    requires
        0 <= i < rowids.len(),
        numbers.contains_key(rowids[i]),
        numbers[rowids[i]] == i,
        forall|r: u64| #[trigger]
            numbers.contains_key(r) ==> numbers[r] < rowids.len() && rowids[numbers[r] as int] == r,
    ensures
        (forall|j: int| 0 <= j < positions.len() ==> (#[trigger] positions[j]).0 != rowids[i])
            ==> last_position(placed_rows(positions, numbers), i) is None,
        0 <= k < positions.len() && positions[k].0 == rowids[i] && (forall|j: int|
            k < j < positions.len() ==> (#[trigger] positions[j]).0 != rowids[i])
            ==> last_position(placed_rows(positions, numbers), i) == Some(
            (positions[k].1, positions[k].2),
        ),
    decreases positions.len(),
{
    if positions.len() > 0 {
        let rest = positions.drop_last();
        let row = positions.last();
        let last = positions.len() - 1;
        assert(positions[last] == row);
        lemma_last_position(rowids, numbers, rest, i, k);
        assert forall|j: int| 0 <= j < rest.len() implies #[trigger] rest[j] == positions[j] by {}
        if numbers.contains_key(row.0) {
            assert(placed_rows(positions, numbers).drop_last() =~= placed_rows(rest, numbers));
        }
    }
}

/// An entity lists its edges in the order of their slots, which is the order of
/// the rows.
pub proof fn law_entity_lists_in_order(
    graph: GraphStore,
    rowids: Seq<u64>,
    rows: Seq<EdgeRow>,
    positions: Seq<PositionRow>,
    i: int,
    p: int,
    q: int,
)
    requires
        graph.wf(),
        graph.holds(rowids, rows, positions),
        0 <= i < rowids.len(),
        0 <= p < q,
    ensures
        ({
            let e = graph.entities.inner.data@[i];
            &&& q < e.edges_out@.len() ==> e.edges_out@[p] < e.edges_out@[q]
            &&& q < e.edges_in@.len() ==> e.edges_in@[p] < e.edges_in@[q]
        }),
{
    let numbers = numbers_of(graph.entity_by_rowid@);
    let kept = known_rows(rows, numbers);
    assert(graph.entity_matches(i, rowids, kept, numbers));
    assert(graph.edges.inner.data@.len() == graph.edges.inner.data.len());
    lemma_lists_ascend(kept, numbers, i, p, q);
}

proof fn lemma_lists_ascend(rows: Seq<EdgeRow>, numbers: Map<u64, u32>, i: int, p: int, q: int)
    requires
        rows.len() <= usize::MAX,
        0 <= p < q,
    ensures
        q < leaving(rows, numbers, i).len() ==> leaving(rows, numbers, i)[p] < leaving(
            rows,
            numbers,
            i,
        )[q],
        q < arriving(rows, numbers, i).len() ==> arriving(rows, numbers, i)[p] < arriving(
            rows,
            numbers,
            i,
        )[q],
    decreases rows.len(),
{
    if rows.len() > 0 {
        let rest = rows.drop_last();
        lemma_lists_ascend(rest, numbers, i, p, q);
        let out = leaving(rest, numbers, i);
        let back = arriving(rest, numbers, i);
        if p < out.len() {
            lemma_leaving(rest, numbers, i, out[p]);
            assert(out.contains(out[p]));
        }
        if p < back.len() {
            lemma_leaving(rest, numbers, i, back[p]);
            assert(back.contains(back[p]));
        }
    }
}

/// Edges in earlier slots come from earlier rows.
pub proof fn law_slots_follow_rows(
    graph: GraphStore,
    rowids: Seq<u64>,
    rows: Seq<EdgeRow>,
    positions: Seq<PositionRow>,
    j: int,
    l: int,
)
    requires
        graph.wf(),
        graph.holds(rowids, rows, positions),
        0 <= j < l < graph.edges.inner.data@.len(),
    ensures
        exists|a: int, b: int|
            0 <= a < b < rows.len() && (#[trigger] rows[a]).id
                == graph.edges.inner.data@[j].sqlite_rowid && (#[trigger] rows[b]).id
                == graph.edges.inner.data@[l].sqlite_rowid,
{
    let numbers = numbers_of(graph.entity_by_rowid@);
    let kept = known_rows(rows, numbers);
    assert(graph.edge_matches(j, kept, numbers));
    assert(graph.edge_matches(l, kept, numbers));
    lemma_kept_in_order(rows, numbers, j, l);
    let (a, b) = choose|a: int, b: int|
        0 <= a < b < rows.len() && #[trigger] rows[a] == kept[j] && #[trigger] rows[b] == kept[l];
    assert(rows[a].id == kept[j].id && rows[b].id == kept[l].id);
}

proof fn lemma_kept_in_order(rows: Seq<EdgeRow>, numbers: Map<u64, u32>, j: int, l: int)
    requires
        0 <= j < l < known_rows(rows, numbers).len(),
    ensures
        exists|a: int, b: int|
            0 <= a < b < rows.len() && #[trigger] rows[a] == known_rows(rows, numbers)[j]
                && #[trigger] rows[b] == known_rows(rows, numbers)[l],
    decreases rows.len(),
{
    let rest = rows.drop_last();
    let head = known_rows(rest, numbers);
    let last = rows.len() - 1;
    if l < head.len() {
        lemma_kept_in_order(rest, numbers, j, l);
        let (a, b) = choose|a: int, b: int|
            0 <= a < b < rest.len() && #[trigger] rest[a] == head[j] && #[trigger] rest[b]
                == head[l];
        assert(rows[a] == head[j] && rows[b] == head[l]);
    } else {
        lemma_known_rows(rest, numbers);
        assert(head.contains(head[j]));
        assert(known(head[j], numbers));
        assert(rest.contains(head[j]));
        let a = choose|a: int| 0 <= a < rest.len() && rest[a] == head[j];
        assert(rows[a] == head[j]);
        assert(rows[last] == known_rows(rows, numbers)[l]);
    }
}

} // verus!
