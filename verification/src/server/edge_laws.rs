//! What lists of edges say of the rows that were loaded.

use vstd::prelude::*;

use super::edge_csr::{
    arranges, from_source, from_target, incoming_entries, known, lemma_listed_count, lists,
    ordered, outgoing_entries, source_edges, target_edges, EdgeCsr, HalfEdge,
};
use super::pipeline::{
    edge_view, edges_in, edges_of, edges_out, first_in, first_out, least, says, EdgeView,
};
use super::rows::EdgeRow;
use super::traversal::label_passes;
use crate::proto::types::{Direction, EdgeData};

verus! {

/// How many rows are the edge with the given rowid, ends and label; labels keep
/// their low 16 bits.
pub open spec fn row_count(
    rows: Seq<EdgeRow>,
    id: u64,
    source: u64,
    target: u64,
    label: u32,
) -> nat
    decreases rows.len(),
{
    if rows.len() == 0 {
        0
    } else {
        let row = rows.last();
        row_count(rows.drop_last(), id, source, target, label) + if row.id == id
            && row.source_entity == source && row.target_entity == target && row.label as int
            % 65536 == label {
            1nat
        } else {
            0nat
        }
    }
}

/// How often a list holds the edge with the given rowid, ends and label.
pub open spec fn edge_count(
    list: Seq<EdgeData>,
    id: u64,
    source: u64,
    target: u64,
    label: u32,
) -> nat
    decreases list.len(),
{
    if list.len() == 0 {
        0
    } else {
        let e = list.last();
        edge_count(list.drop_last(), id, source, target, label) + if e.id == id && e.source
            == source && e.target == target && e.label == label {
            1nat
        } else {
            0nat
        }
    }
}

/// Number of rows that start or end at an entity; one that does both counts
/// twice.
pub open spec fn rows_at(rows: Seq<EdgeRow>, entity: u64) -> nat
    decreases rows.len(),
{
    if rows.len() == 0 {
        0
    } else {
        let row = rows.last();
        rows_at(rows.drop_last(), entity) + (if row.source_entity == entity {
            1nat
        } else {
            0nat
        }) + (if row.target_entity == entity {
            1nat
        } else {
            0nat
        })
    }
}

/// As long as the limit takes all edges at an entity, a list of its edges holds
/// every stored edge between known entities as often as it is stored: outgoing
/// the ones that start there, incoming the ones that end there, and both
/// together in both directions, as far as their labels are asked for. It holds
/// nothing else.
pub proof fn law_edges_are_the_rows(
    csr: EdgeCsr,
    rows: Seq<EdgeRow>,
    entity: u64,
    direction: Direction,
    filter: Seq<u32>,
    limit: u32,
    r: Seq<EdgeData>,
    id: u64,
    source: u64,
    target: u64,
    label: u32,
)
    requires
        csr.wf(),
        csr.holds_rows(rows),
        csr.entity_rowids@.no_duplicates(),
        limit >= rows_at(rows, entity),
        says(r, edges_of(csr, csr.number_of(entity), direction, filter, limit as int)),
    ensures
        ({
            let ids = csr.entity_rowids@;
            let stored = if ids.contains(source) && ids.contains(target) && (filter.len() == 0
                || exists|f: int| 0 <= f < filter.len() && #[trigger] filter[f] == label) {
                row_count(rows, id, source, target, label)
            } else {
                0
            };
            let leaves = if source == entity {
                stored
            } else {
                0
            };
            let arrives = if target == entity {
                stored
            } else {
                0
            };
            edge_count(r, id, source, target, label) == match direction {
                Direction::Outgoing => leaves,
                Direction::Incoming => arrives,
                Direction::Both => leaves + arrives,
            }
        }),
{
    let ids = csr.entity_rowids@;
    let v = EdgeView { id, source, target, label };
    let expected = edges_of(csr, csr.number_of(entity), direction, filter, limit as int);
    lemma_says_count(r, expected, v);
    let asked = filter.len() == 0 || exists|f: int|
        0 <= f < filter.len() && #[trigger] filter[f] == label;
    assert(asked == label_passes(filter, label)) by {
        if filter.contains(label) {
            let f = choose|f: int| 0 <= f < filter.len() && filter[f] == label;
            assert(filter[f] == label);
        }
    }
    match csr.number_of(entity) {
        None => {
            assert(!csr.entity_by_rowid@.contains_key(entity));
            assert(!ids.contains(entity));
            assert(expected =~= Seq::<EdgeView>::empty());
        },
        Some(i) => {
            assert(ids[i as int] == entity);
            lemma_out_count(csr, rows, i, filter, v);
            lemma_in_count(csr, rows, i, filter, v);
            lemma_degrees(csr, rows, i);
            let from = csr.offsets@[i as int] as int;
            let to = csr.offsets@[i + 1] as int;
            let back = csr.in_offsets@[i as int] as int;
            let end = csr.in_offsets@[i + 1] as int;
            let n = ids.len() as int;
            assert(csr.offsets@[i as int] <= csr.offsets@[i + 1]);
            assert(csr.in_offsets@[i as int] <= csr.in_offsets@[i + 1]);
            let out = edges_out(csr, i, filter, from, to);
            let into = edges_in(csr, i, filter, back, end);
            lemma_out_len(csr, i, filter, from, to);
            lemma_in_len(csr, i, filter, back, end);
            let none = Seq::<EdgeView>::empty();
            match direction {
                Direction::Outgoing => {
                    assert(expected == out);
                },
                Direction::Incoming => {
                    if limit == 0 {
                        assert(end - back == 0);
                        assert(into =~= none);
                        assert(expected =~= none);
                    } else {
                        assert(expected =~= into);
                    }
                },
                Direction::Both => {
                    lemma_view_count_add(out, into, v);
                    if out.len() >= limit {
                        assert(end - back == 0);
                        assert(into =~= none);
                        assert(out + into =~= out);
                    } else {
                        assert(first_out(csr, i, filter, limit as int) == out);
                        assert(first_in(csr, i, filter, limit - out.len()) == into);
                    }
                    assert(expected =~= out + into);
                },
            }
        },
    }
}

/// How often a list of what edges say holds one.
spec fn view_count(list: Seq<EdgeView>, v: EdgeView) -> nat
    decreases list.len(),
{
    if list.len() == 0 {
        0
    } else {
        view_count(list.drop_last(), v) + if list.last() == v {
            1nat
        } else {
            0nat
        }
    }
}

proof fn lemma_says_count(r: Seq<EdgeData>, expected: Seq<EdgeView>, v: EdgeView)
    requires
        says(r, expected),
    ensures
        edge_count(r, v.id, v.source, v.target, v.label) == view_count(expected, v),
    decreases r.len(),
{
    if r.len() > 0 {
        let k = r.len() - 1;
        assert(edge_view(r[k]) == expected[k]);
        assert forall|j: int| 0 <= j < r.drop_last().len() implies edge_view(
            #[trigger] r.drop_last()[j],
        ) == expected.drop_last()[j] && r.drop_last()[j].properties@.len() == 0 by {
            assert(r.drop_last()[j] == r[j]);
        }
        lemma_says_count(r.drop_last(), expected.drop_last(), v);
    }
}

proof fn lemma_view_count_add(a: Seq<EdgeView>, b: Seq<EdgeView>, v: EdgeView)
    ensures
        view_count(a + b, v) == view_count(a, v) + view_count(b, v),
    decreases b.len(),
{
    if b.len() == 0 {
        assert(a + b =~= a);
    } else {
        assert((a + b).drop_last() =~= a + b.drop_last());
        lemma_view_count_add(a, b.drop_last(), v);
    }
}

/// How often some entries hold one.
spec fn entry_count(list: Seq<(u32, u16, u64)>, e: (u32, u16, u64)) -> nat
    decreases list.len(),
{
    if list.len() == 0 {
        0
    } else {
        entry_count(list.drop_last(), e) + if list.last() == e {
            1nat
        } else {
            0nat
        }
    }
}

proof fn lemma_entry_count(list: Seq<(u32, u16, u64)>, e: (u32, u16, u64))
    ensures
        entry_count(list, e) == list.to_multiset().count(e),
    decreases list.len(),
{
    broadcast use vstd::seq_lib::group_to_multiset_ensures;

    if list.len() > 0 {
        lemma_entry_count(list.drop_last(), e);
        assert(list =~= list.drop_last().push(list.last()));
    } else {
        assert(list =~= Seq::<(u32, u16, u64)>::empty());
    }
}

/// The number of rows that are an edge between known entities is the number of
/// times that it occurs among the edges as seen from their sources.
proof fn lemma_rows_as_sources(
    rows: Seq<EdgeRow>,
    m: Map<u64, u32>,
    ids: Seq<u64>,
    v: EdgeView,
)
    requires
        m.contains_key(v.source),
        m.contains_key(v.target),
        v.label < 65536,
        forall|r: u64| #[trigger] m.contains_key(r) ==> m[r] < ids.len() && ids[m[r] as int] == r,
    ensures
        row_count(rows, v.id, v.source, v.target, v.label) == source_edges(
            rows,
            m,
        ).to_multiset().count((m[v.source], m[v.target], v.label as u16, v.id)),
        row_count(rows, v.id, v.source, v.target, v.label) == target_edges(
            rows,
            m,
        ).to_multiset().count((m[v.target], m[v.source], v.label as u16, v.id)),
    decreases rows.len(),
{
    broadcast use vstd::seq_lib::group_to_multiset_ensures;

    let outs = source_edges(rows, m);
    let backs = target_edges(rows, m);
    if rows.len() == 0 {
        assert(outs =~= Seq::<HalfEdge>::empty());
        assert(backs =~= Seq::<HalfEdge>::empty());
    } else {
        let head = rows.drop_last();
        let row = rows.last();
        lemma_rows_as_sources(head, m, ids, v);
        if known(row, m) {
            assert(outs =~= source_edges(head, m).push(from_source(row, m)));
            assert(backs =~= target_edges(head, m).push(from_target(row, m)));
            assert(m.contains_key(row.source_entity) && m.contains_key(row.target_entity));
            if m[row.source_entity] == m[v.source] {
                assert(ids[m[v.source] as int] == row.source_entity);
            }
            if m[row.target_entity] == m[v.target] {
                assert(ids[m[v.target] as int] == row.target_entity);
            }
        } else {
            assert(outs =~= source_edges(head, m));
            assert(backs =~= target_edges(head, m));
        }
    }
}

proof fn lemma_out_count(csr: EdgeCsr, rows: Seq<EdgeRow>, i: u32, filter: Seq<u32>, v: EdgeView)
    requires
        csr.wf(),
        csr.holds_rows(rows),
        csr.entity_rowids@.no_duplicates(),
        i < csr.entity_rowids@.len(),
    ensures
        ({
            let ids = csr.entity_rowids@;
            view_count(
                edges_out(
                    csr,
                    i,
                    filter,
                    csr.offsets@[i as int] as int,
                    csr.offsets@[i + 1] as int,
                ),
                v,
            ) == if v.source == ids[i as int] && ids.contains(v.target) && label_passes(
                filter,
                v.label,
            ) {
                row_count(rows, v.id, v.source, v.target, v.label)
            } else {
                0
            }
        }),
{
    let ids = csr.entity_rowids@;
    let m = csr.entity_by_rowid@;
    let n = ids.len() as int;
    let from = csr.offsets@[i as int] as int;
    let to = csr.offsets@[i + 1] as int;
    assert(csr.offsets@[i as int] <= csr.offsets@[i + 1]);
    assert(csr.offsets@[i + 1] <= csr.offsets@[n]);
    assert(ids.contains(ids[i as int]));
    assert(m.contains_key(ids[i as int]));
    assert(ids[m[ids[i as int]] as int] == ids[i as int]);
    assert(m[ids[i as int]] == i);
    lemma_edges_out_count(csr, i, filter, from, to, v);
    if v.source == ids[i as int] && ids.contains(v.target) && v.label < 65536 {
        assert(m.contains_key(v.target));
        lemma_rows_as_sources(rows, m, ids, v);
        let out = choose|out: Seq<HalfEdge>| #[trigger]
            arranges(out, source_edges(rows, m)) && lists(
                csr.offsets@,
                csr.targets@,
                csr.labels@,
                csr.rowids@,
                out,
                n,
            );
        let e = (i, m[v.target], v.label as u16, v.id);
        lemma_listed_count(csr.offsets@, csr.targets@, csr.labels@, csr.rowids@, out, n, e);
        lemma_entry_count(outgoing_entries(csr, i as int), (e.1, e.2, e.3));
        assert(outgoing_entries(csr, i as int) =~= span_out(csr, from, to));
    } else if v.label >= 65536 {
        lemma_no_wide_rows(rows, v);
    }
}

proof fn lemma_no_wide_rows(rows: Seq<EdgeRow>, v: EdgeView)
    requires
        v.label >= 65536,
    ensures
        row_count(rows, v.id, v.source, v.target, v.label) == 0,
    decreases rows.len(),
{
    if rows.len() > 0 {
        lemma_no_wide_rows(rows.drop_last(), v);
    }
}

/// Entries stored at `from..to` of the outgoing arrays.
spec fn span_out(csr: EdgeCsr, from: int, to: int) -> Seq<(u32, u16, u64)> {
    Seq::new(
        (to - from) as nat,
        |k: int| (csr.targets@[from + k], csr.labels@[from + k], csr.rowids@[from + k]),
    )
}

/// Entries stored at `from..to` of the incoming arrays.
spec fn span_in(csr: EdgeCsr, from: int, to: int) -> Seq<(u32, u16, u64)> {
    Seq::new(
        (to - from) as nat,
        |k: int| (csr.sources@[from + k], csr.in_labels@[from + k], csr.in_rowids@[from + k]),
    )
}

proof fn lemma_edges_out_count(
    csr: EdgeCsr,
    i: u32,
    filter: Seq<u32>,
    from: int,
    to: int,
    v: EdgeView,
)
    requires
        csr.wf(),
        csr.entity_rowids@.no_duplicates(),
        i < csr.entity_rowids@.len(),
        0 <= from <= to <= csr.targets@.len(),
    ensures
        view_count(edges_out(csr, i, filter, from, to), v) == if v.source
            == csr.entity_rowids@[i as int] && csr.entity_rowids@.contains(v.target) && v.label
            < 65536 && label_passes(filter, v.label) {
            entry_count(
                span_out(csr, from, to),
                (csr.entity_by_rowid@[v.target], v.label as u16, v.id),
            )
        } else {
            0
        },
    decreases to - from,
{
    let ids = csr.entity_rowids@;
    let m = csr.entity_by_rowid@;
    if from < to {
        lemma_edges_out_count(csr, i, filter, from, to - 1, v);
        assert(span_out(csr, from, to).drop_last() =~= span_out(csr, from, to - 1));
        let t = csr.targets@[to - 1];
        assert(t < ids.len());
        assert(ids.contains(ids[t as int]));
        assert(m.contains_key(ids[t as int]));
        assert(ids[m[ids[t as int]] as int] == ids[t as int]);
        assert(m[ids[t as int]] == t);
        let head = edges_out(csr, i, filter, from, to - 1);
        let all = edges_out(csr, i, filter, from, to);
        if label_passes(filter, csr.labels@[to - 1] as u32) {
            assert(all.drop_last() =~= head);
        }
        if ids.contains(v.target) {
            assert(m.contains_key(v.target));
            assert(ids[m[v.target] as int] == v.target);
        }
    } else {
        assert(span_out(csr, from, to) =~= Seq::<(u32, u16, u64)>::empty());
    }
}

proof fn lemma_in_count(csr: EdgeCsr, rows: Seq<EdgeRow>, i: u32, filter: Seq<u32>, v: EdgeView)
    requires
        csr.wf(),
        csr.holds_rows(rows),
        csr.entity_rowids@.no_duplicates(),
        i < csr.entity_rowids@.len(),
    ensures
        ({
            let ids = csr.entity_rowids@;
            view_count(
                edges_in(
                    csr,
                    i,
                    filter,
                    csr.in_offsets@[i as int] as int,
                    csr.in_offsets@[i + 1] as int,
                ),
                v,
            ) == if v.target == ids[i as int] && ids.contains(v.source) && label_passes(
                filter,
                v.label,
            ) {
                row_count(rows, v.id, v.source, v.target, v.label)
            } else {
                0
            }
        }),
{
    let ids = csr.entity_rowids@;
    let m = csr.entity_by_rowid@;
    let n = ids.len() as int;
    let from = csr.in_offsets@[i as int] as int;
    let to = csr.in_offsets@[i + 1] as int;
    assert(csr.in_offsets@[i as int] <= csr.in_offsets@[i + 1]);
    assert(csr.in_offsets@[i + 1] <= csr.in_offsets@[n]);
    assert(ids.contains(ids[i as int]));
    assert(m.contains_key(ids[i as int]));
    assert(ids[m[ids[i as int]] as int] == ids[i as int]);
    assert(m[ids[i as int]] == i);
    lemma_edges_in_count(csr, i, filter, from, to, v);
    if v.target == ids[i as int] && ids.contains(v.source) && v.label < 65536 {
        assert(m.contains_key(v.source));
        lemma_rows_as_sources(rows, m, ids, v);
        let back = choose|back: Seq<HalfEdge>| #[trigger]
            arranges(back, target_edges(rows, m)) && lists(
                csr.in_offsets@,
                csr.sources@,
                csr.in_labels@,
                csr.in_rowids@,
                back,
                n,
            );
        let e = (i, m[v.source], v.label as u16, v.id);
        lemma_listed_count(
            csr.in_offsets@,
            csr.sources@,
            csr.in_labels@,
            csr.in_rowids@,
            back,
            n,
            e,
        );
        lemma_entry_count(incoming_entries(csr, i as int), (e.1, e.2, e.3));
        assert(incoming_entries(csr, i as int) =~= span_in(csr, from, to));
    } else if v.label >= 65536 {
        lemma_no_wide_rows(rows, v);
    }
}

proof fn lemma_edges_in_count(
    csr: EdgeCsr,
    i: u32,
    filter: Seq<u32>,
    from: int,
    to: int,
    v: EdgeView,
)
    requires
        csr.wf(),
        csr.entity_rowids@.no_duplicates(),
        i < csr.entity_rowids@.len(),
        0 <= from <= to <= csr.sources@.len(),
    ensures
        view_count(edges_in(csr, i, filter, from, to), v) == if v.target
            == csr.entity_rowids@[i as int] && csr.entity_rowids@.contains(v.source) && v.label
            < 65536 && label_passes(filter, v.label) {
            entry_count(
                span_in(csr, from, to),
                (csr.entity_by_rowid@[v.source], v.label as u16, v.id),
            )
        } else {
            0
        },
    decreases to - from,
{
    let ids = csr.entity_rowids@;
    let m = csr.entity_by_rowid@;
    if from < to {
        lemma_edges_in_count(csr, i, filter, from, to - 1, v);
        assert(span_in(csr, from, to).drop_last() =~= span_in(csr, from, to - 1));
        let t = csr.sources@[to - 1];
        assert(t < ids.len());
        assert(ids.contains(ids[t as int]));
        assert(m.contains_key(ids[t as int]));
        assert(ids[m[ids[t as int]] as int] == ids[t as int]);
        assert(m[ids[t as int]] == t);
        let head = edges_in(csr, i, filter, from, to - 1);
        let all = edges_in(csr, i, filter, from, to);
        if label_passes(filter, csr.in_labels@[to - 1] as u32) {
            assert(all.drop_last() =~= head);
        }
        if ids.contains(v.source) {
            assert(m.contains_key(v.source));
            assert(ids[m[v.source] as int] == v.source);
        }
    } else {
        assert(span_in(csr, from, to) =~= Seq::<(u32, u16, u64)>::empty());
    }
}

proof fn lemma_out_len(csr: EdgeCsr, i: u32, filter: Seq<u32>, from: int, to: int)
    ensures
        edges_out(csr, i, filter, from, to).len() <= if from < to {
            to - from
        } else {
            0
        },
    decreases to - from,
{
    if from < to {
        lemma_out_len(csr, i, filter, from, to - 1);
    }
}

proof fn lemma_in_len(csr: EdgeCsr, i: u32, filter: Seq<u32>, from: int, to: int)
    ensures
        edges_in(csr, i, filter, from, to).len() <= if from < to {
            to - from
        } else {
            0
        },
    decreases to - from,
{
    if from < to {
        lemma_in_len(csr, i, filter, from, to - 1);
    }
}

/// How many edges have the given own end.
spec fn own_count(edges: Seq<HalfEdge>, i: int) -> nat
    decreases edges.len(),
{
    if edges.len() == 0 {
        0
    } else {
        own_count(edges.drop_last(), i) + if edges.last().0 == i {
            1nat
        } else {
            0nat
        }
    }
}

proof fn lemma_own_count_add(a: Seq<HalfEdge>, b: Seq<HalfEdge>, i: int)
    ensures
        own_count(a + b, i) == own_count(a, i) + own_count(b, i),
    decreases b.len(),
{
    if b.len() == 0 {
        assert(a + b =~= a);
    } else {
        assert((a + b).drop_last() =~= a + b.drop_last());
        lemma_own_count_add(a, b.drop_last(), i);
    }
}

proof fn lemma_own_count_none(a: Seq<HalfEdge>, i: int)
    requires
        forall|k: int| 0 <= k < a.len() ==> (#[trigger] a[k]).0 != i,
    ensures
        own_count(a, i) == 0,
    decreases a.len(),
{
    if a.len() > 0 {
        assert(a[a.len() - 1].0 != i);
        assert forall|k: int| 0 <= k < a.drop_last().len() implies (#[trigger] a.drop_last()[k]).0
            != i by {
            assert(a.drop_last()[k] == a[k]);
        }
        lemma_own_count_none(a.drop_last(), i);
    }
}

proof fn lemma_own_count_all(a: Seq<HalfEdge>, i: int)
    requires
        forall|k: int| 0 <= k < a.len() ==> (#[trigger] a[k]).0 == i,
    ensures
        own_count(a, i) == a.len(),
    decreases a.len(),
{
    if a.len() > 0 {
        assert(a[a.len() - 1].0 == i);
        assert forall|k: int| 0 <= k < a.drop_last().len() implies (#[trigger] a.drop_last()[k]).0
            == i by {
            assert(a.drop_last()[k] == a[k]);
        }
        lemma_own_count_all(a.drop_last(), i);
    }
}

/// Sequences with the same items have the same number of items of each end.
proof fn lemma_own_count_same(a: Seq<HalfEdge>, b: Seq<HalfEdge>, i: int)
    requires
        a.to_multiset() == b.to_multiset(),
    ensures
        own_count(a, i) == own_count(b, i),
    decreases a.len(),
{
    broadcast use vstd::seq_lib::group_to_multiset_ensures;

    assert(a.len() == a.to_multiset().len());
    assert(b.len() == b.to_multiset().len());
    if a.len() > 0 {
        let x = a.last();
        assert(a[a.len() - 1] == x);
        assert(a.contains(x));
        assert(b.to_multiset().count(x) > 0);
        assert(b.contains(x));
        let k = choose|k: int| 0 <= k < b.len() && b[k] == x;
        let left = b.take(k);
        let right = b.skip(k + 1);
        let rest = left + right;
        assert(b =~= left.push(x) + right);
        assert(left.push(x) =~= left + seq![x]);
        vstd::seq_lib::lemma_multiset_commutative(left, right);
        vstd::seq_lib::lemma_multiset_commutative(left.push(x), right);
        assert(a =~= a.drop_last().push(x));
        assert(rest.to_multiset() =~= a.drop_last().to_multiset()) by {
            assert(b.to_multiset() =~= rest.to_multiset().insert(x));
            assert(a.to_multiset() =~= a.drop_last().to_multiset().insert(x));
            assert forall|y: HalfEdge| rest.to_multiset().count(y)
                == a.drop_last().to_multiset().count(y) by {
                assert(b.to_multiset().count(y) == rest.to_multiset().insert(x).count(y));
                assert(a.to_multiset().count(y) == a.drop_last().to_multiset().insert(x).count(y));
            }
        }
        lemma_own_count_same(a.drop_last(), rest, i);
        lemma_own_count_add(left, right, i);
        lemma_own_count_add(left.push(x), right, i);
        assert(left.push(x).drop_last() =~= left);
    } else {
        assert(b =~= a);
    }
}

/// The entries of an entity are its edges.
proof fn lemma_own_listed(
    offsets: Seq<u32>,
    others: Seq<u32>,
    labels: Seq<u16>,
    rowids: Seq<u64>,
    edges: Seq<HalfEdge>,
    n: int,
    i: int,
)
    requires
        lists(offsets, others, labels, rowids, edges, n),
        0 <= i < n,
        offsets[i] <= offsets[i + 1],
    ensures
        own_count(edges, i) == offsets[i + 1] - offsets[i],
{
    let from = offsets[i] as int;
    let to = offsets[i + 1] as int;
    let before = edges.subrange(0, from);
    let own = edges.subrange(from, to);
    let after = edges.subrange(to, edges.len() as int);
    assert(edges =~= before + own + after);
    assert forall|k: int| 0 <= k < before.len() implies (#[trigger] before[k]).0 != i by {
        assert(edges[k].0 < i);
    }
    assert forall|k: int| 0 <= k < own.len() implies (#[trigger] own[k]).0 == i by {
        assert(edges[from + k].0 < i + 1 && !(edges[from + k].0 < i));
    }
    assert forall|k: int| 0 <= k < after.len() implies (#[trigger] after[k]).0 != i by {
        assert(!(edges[to + k].0 < i + 1));
    }
    lemma_own_count_none(before, i);
    lemma_own_count_all(own, i);
    lemma_own_count_none(after, i);
    lemma_own_count_add(before, own, i);
    lemma_own_count_add(before + own, after, i);
}

proof fn lemma_rows_at(rows: Seq<EdgeRow>, m: Map<u64, u32>, ids: Seq<u64>, i: u32)
    requires
        i < ids.len(),
        forall|r: u64| #[trigger] m.contains_key(r) ==> m[r] < ids.len() && ids[m[r] as int] == r,
    ensures
        own_count(source_edges(rows, m), i as int) + own_count(target_edges(rows, m), i as int)
            <= rows_at(rows, ids[i as int]),
    decreases rows.len(),
{
    let outs = source_edges(rows, m);
    let backs = target_edges(rows, m);
    if rows.len() == 0 {
        assert(outs =~= Seq::<HalfEdge>::empty());
        assert(backs =~= Seq::<HalfEdge>::empty());
    } else {
        let head = rows.drop_last();
        let row = rows.last();
        lemma_rows_at(head, m, ids, i);
        if known(row, m) {
            assert(outs.drop_last() =~= source_edges(head, m));
            assert(backs.drop_last() =~= target_edges(head, m));
            assert(m.contains_key(row.source_entity) && m.contains_key(row.target_entity));
        } else {
            assert(outs =~= source_edges(head, m));
            assert(backs =~= target_edges(head, m));
        }
    }
}

/// An entity has no more entries than there are rows at it.
proof fn lemma_degrees(csr: EdgeCsr, rows: Seq<EdgeRow>, i: u32)
    requires
        csr.wf(),
        csr.holds_rows(rows),
        i < csr.entity_rowids@.len(),
    ensures
        (csr.offsets@[i + 1] - csr.offsets@[i as int]) + (csr.in_offsets@[i + 1]
            - csr.in_offsets@[i as int]) <= rows_at(rows, csr.entity_rowids@[i as int]),
{
    let n = csr.entity_rowids@.len() as int;
    let m = csr.entity_by_rowid@;
    let out = choose|out: Seq<HalfEdge>| #[trigger]
        arranges(out, source_edges(rows, m)) && lists(
            csr.offsets@,
            csr.targets@,
            csr.labels@,
            csr.rowids@,
            out,
            n,
        );
    let back = choose|back: Seq<HalfEdge>| #[trigger]
        arranges(back, target_edges(rows, m)) && lists(
            csr.in_offsets@,
            csr.sources@,
            csr.in_labels@,
            csr.in_rowids@,
            back,
            n,
        );
    assert(csr.offsets@[i as int] <= csr.offsets@[i + 1]);
    assert(csr.in_offsets@[i as int] <= csr.in_offsets@[i + 1]);
    lemma_own_listed(csr.offsets@, csr.targets@, csr.labels@, csr.rowids@, out, n, i as int);
    lemma_own_listed(
        csr.in_offsets@,
        csr.sources@,
        csr.in_labels@,
        csr.in_rowids@,
        back,
        n,
        i as int,
    );
    lemma_own_count_same(out, source_edges(rows, m), i as int);
    lemma_own_count_same(back, target_edges(rows, m), i as int);
    lemma_rows_at(rows, m, csr.entity_rowids@, i);
}

/// The edges of a list whose labels are among the given ones, in their order.
pub open spec fn labelled(list: Seq<EdgeData>, labels: Seq<u32>) -> Seq<EdgeData>
    decreases list.len(),
{
    if list.len() == 0 {
        Seq::empty()
    } else {
        let head = labelled(list.drop_last(), labels);
        if exists|f: int| 0 <= f < labels.len() && #[trigger] labels[f] == list.last().label {
            head.push(list.last())
        } else {
            head
        }
    }
}

/// Whether two edges have the same rowid, ends and label.
pub open spec fn same_edge(a: EdgeData, b: EdgeData) -> bool {
    a.id == b.id && a.source == b.source && a.target == b.target && a.label == b.label
}

/// The limit counts the edges that are looked at: a list of edges in one
/// direction with labels asked for holds those of the list without such labels,
/// at the same limit, that have one of the labels.
pub proof fn law_labels_are_asked_after_limit(
    csr: EdgeCsr,
    entity: u64,
    direction: Direction,
    labels: Seq<u32>,
    limit: u32,
    r: Seq<EdgeData>,
    all: Seq<EdgeData>,
    k: int,
)
    requires
        csr.wf(),
        labels.len() > 0,
        direction != Direction::Both,
        says(r, edges_of(csr, csr.number_of(entity), direction, labels, limit as int)),
        says(all, edges_of(csr, csr.number_of(entity), direction, Seq::empty(), limit as int)),
    ensures
        r.len() == labelled(all, labels).len(),
        0 <= k < r.len() ==> same_edge(r[k], labelled(all, labels)[k]) && r[k].properties@.len()
            == 0,
{
    let number = csr.number_of(entity);
    let none = Seq::<u32>::empty();
    let kept = edges_of(csr, number, direction, labels, limit as int);
    let every = edges_of(csr, number, direction, none, limit as int);
    lemma_labelled_views(all, every, labels);
    if let Some(i) = number {
        let n = csr.entity_rowids@.len() as int;
        let from = csr.offsets@[i as int] as int;
        let to = csr.offsets@[i + 1] as int;
        let back = csr.in_offsets@[i as int] as int;
        let end = csr.in_offsets@[i + 1] as int;
        lemma_out_labelled(csr, i, labels, from, from + least(to - from, limit as int));
        lemma_in_labelled(csr, i, labels, back, back + least(end - back, limit as int));
        if direction is Incoming {
            let empty = Seq::<EdgeView>::empty();
            assert(empty + first_in(csr, i, labels, limit as int) =~= first_in(
                csr,
                i,
                labels,
                limit as int,
            ));
            assert(empty + first_in(csr, i, none, limit as int) =~= first_in(
                csr,
                i,
                none,
                limit as int,
            ));
            lemma_views_labelled_none(labels);
        }
    } else {
        lemma_views_labelled_none(labels);
    }
    assert(kept == views_labelled(every, labels));
    if 0 <= k < r.len() {
        assert(edge_view(r[k]) == kept[k]);
        assert(edge_view(labelled(all, labels)[k]) == kept[k]);
    }
}

/// Of two lists of edges in one direction that differ in their limits, the one
/// with the smaller limit holds the first of the other. Where no labels are
/// asked for, it is as long as its limit allows.
pub proof fn law_smaller_edge_limit_is_prefix(
    csr: EdgeCsr,
    entity: u64,
    direction: Direction,
    labels: Seq<u32>,
    less: u32,
    more: u32,
    few: Seq<EdgeData>,
    many: Seq<EdgeData>,
    k: int,
)
    requires
        csr.wf(),
        direction != Direction::Both,
        less <= more,
        says(few, edges_of(csr, csr.number_of(entity), direction, labels, less as int)),
        says(many, edges_of(csr, csr.number_of(entity), direction, labels, more as int)),
    ensures
        few.len() <= less,
        few.len() <= many.len(),
        labels.len() == 0 ==> few.len() == if less < many.len() {
            less as int
        } else {
            many.len() as int
        },
        0 <= k < few.len() ==> same_edge(few[k], many[k]),
{
    if let Some(i) = csr.number_of(entity) {
        let n = csr.entity_rowids@.len() as int;
        let from = csr.offsets@[i as int] as int;
        let to = csr.offsets@[i + 1] as int;
        let back = csr.in_offsets@[i as int] as int;
        let end = csr.in_offsets@[i + 1] as int;
        assert(csr.offsets@[i as int] <= csr.offsets@[i + 1]);
        assert(csr.in_offsets@[i as int] <= csr.in_offsets@[i + 1]);
        let a = least(to - from, less as int);
        let b = least(to - from, more as int);
        let c = least(end - back, less as int);
        let d = least(end - back, more as int);
        lemma_out_prefix(csr, i, labels, from, from + a, from + b);
        lemma_in_prefix(csr, i, labels, back, back + c, back + d);
        lemma_out_len(csr, i, labels, from, from + a);
        lemma_in_len(csr, i, labels, back, back + c);
        if labels.len() == 0 {
            lemma_out_all(csr, i, labels, from, from + a);
            lemma_out_all(csr, i, labels, from, from + b);
            lemma_in_all(csr, i, labels, back, back + c);
            lemma_in_all(csr, i, labels, back, back + d);
        }
        let empty = Seq::<EdgeView>::empty();
        if direction is Incoming {
            assert(empty + first_in(csr, i, labels, less as int) =~= first_in(
                csr,
                i,
                labels,
                less as int,
            ));
            assert(empty + first_in(csr, i, labels, more as int) =~= first_in(
                csr,
                i,
                labels,
                more as int,
            ));
        }
    }
    if 0 <= k < few.len() {
        let x = few[k];
        let y = many[k];
    }
}

/// In both directions, the outgoing edges come first, and then as many incoming
/// ones are looked at as the limit leaves room for.
pub proof fn law_both_is_out_and_in(
    csr: EdgeCsr,
    entity: u64,
    labels: Seq<u32>,
    limit: u32,
    out: Seq<EdgeData>,
    into: Seq<EdgeData>,
    both: Seq<EdgeData>,
    k: int,
)
    requires
        csr.wf(),
        says(out, edges_of(csr, csr.number_of(entity), Direction::Outgoing, labels, limit as int)),
        says(
            into,
            edges_of(
                csr,
                csr.number_of(entity),
                Direction::Incoming,
                labels,
                limit - out.len(),
            ),
        ),
        says(both, edges_of(csr, csr.number_of(entity), Direction::Both, labels, limit as int)),
    ensures
        out.len() <= limit,
        both.len() == out.len() + into.len(),
        both.len() <= limit,
        0 <= k < out.len() ==> same_edge(both[k], out[k]),
        0 <= k < into.len() ==> same_edge(both[out.len() + k], into[k]),
{
    if let Some(i) = csr.number_of(entity) {
        let n = csr.entity_rowids@.len() as int;
        let from = csr.offsets@[i as int] as int;
        let to = csr.offsets@[i + 1] as int;
        let back = csr.in_offsets@[i as int] as int;
        let end = csr.in_offsets@[i + 1] as int;
        assert(csr.offsets@[i as int] <= csr.offsets@[i + 1]);
        assert(csr.in_offsets@[i as int] <= csr.in_offsets@[i + 1]);
        lemma_out_len(csr, i, labels, from, from + least(to - from, limit as int));
        lemma_in_len(csr, i, labels, back, back + least(end - back, limit - out.len()));
        let empty = Seq::<EdgeView>::empty();
        assert(empty + first_in(csr, i, labels, limit - out.len()) =~= first_in(
            csr,
            i,
            labels,
            limit - out.len(),
        ));
    }
    if 0 <= k < out.len() {
        assert(edge_view(both[k]) == edge_view(out[k]));
    }
    if 0 <= k < into.len() {
        let j = out.len() + k;
        assert(edge_view(both[j]) == edge_view(into[k]));
    }
}

/// The edges of one direction come in the order in which the entities at their
/// other ends were listed.
pub proof fn law_edges_follow_entity_order(
    csr: EdgeCsr,
    rows: Seq<EdgeRow>,
    entity: u64,
    direction: Direction,
    labels: Seq<u32>,
    limit: u32,
    r: Seq<EdgeData>,
    a: int,
    b: int,
    p: int,
    q: int,
)
    requires
        csr.wf(),
        csr.holds_rows(rows),
        csr.entity_rowids@.no_duplicates(),
        direction != Direction::Both,
        says(r, edges_of(csr, csr.number_of(entity), direction, labels, limit as int)),
        0 <= a <= b < r.len(),
        0 <= p < csr.entity_rowids@.len(),
        0 <= q < csr.entity_rowids@.len(),
        direction == Direction::Outgoing ==> csr.entity_rowids@[p] == r[a].target
            && csr.entity_rowids@[q] == r[b].target,
        direction == Direction::Incoming ==> csr.entity_rowids@[p] == r[a].source
            && csr.entity_rowids@[q] == r[b].source,
    ensures
        p <= q,
{
    let n = csr.entity_rowids@.len() as int;
    let m = csr.entity_by_rowid@;
    let list = edges_of(csr, csr.number_of(entity), direction, labels, limit as int);
    assert(edge_view(r[a]) == list[a]);
    assert(edge_view(r[b]) == list[b]);
    if let Some(i) = csr.number_of(entity) {
        let from = csr.offsets@[i as int] as int;
        let to = csr.offsets@[i + 1] as int;
        let back = csr.in_offsets@[i as int] as int;
        let end = csr.in_offsets@[i + 1] as int;
        assert(csr.offsets@[i as int] <= csr.offsets@[i + 1]);
        assert(csr.offsets@[i + 1] <= csr.offsets@[n]);
        assert(csr.in_offsets@[i as int] <= csr.in_offsets@[i + 1]);
        assert(csr.in_offsets@[i + 1] <= csr.in_offsets@[n]);
        if direction is Outgoing {
            let out = choose|out: Seq<HalfEdge>| #[trigger]
                arranges(out, source_edges(rows, m)) && lists(
                    csr.offsets@,
                    csr.targets@,
                    csr.labels@,
                    csr.rowids@,
                    out,
                    n,
                );
            let x = i as int;
            lemma_others_ascend(csr.offsets@, csr.targets@, csr.labels@, csr.rowids@, out, n, x);
            let end = from + least(to - from, limit as int);
            lemma_out_ascends(csr, i, labels, from, end, a, b, p, q);
        } else {
            let out = choose|out: Seq<HalfEdge>| #[trigger]
                arranges(out, target_edges(rows, m)) && lists(
                    csr.in_offsets@,
                    csr.sources@,
                    csr.in_labels@,
                    csr.in_rowids@,
                    out,
                    n,
                );
            lemma_others_ascend(
                csr.in_offsets@,
                csr.sources@,
                csr.in_labels@,
                csr.in_rowids@,
                out,
                n,
                i as int,
            );
            let empty = Seq::<EdgeView>::empty();
            assert(empty + first_in(csr, i, labels, limit as int) =~= first_in(
                csr,
                i,
                labels,
                limit as int,
            ));
            let stop = back + least(end - back, limit as int);
            lemma_in_ascends(csr, i, labels, back, stop, a, b, p, q);
        }
    }
}

/// A rowid is known exactly if it was listed; it has the place where it was
/// listed last.
pub proof fn law_number_is_last_place(csr: EdgeCsr, rowid: u64, j: int)
    requires
        csr.wf(),
    ensures
        csr.number_of(rowid) is Some <==> csr.entity_rowids@.contains(rowid),
        csr.number_of(rowid) matches Some(i) ==> i < csr.entity_rowids@.len()
            && csr.entity_rowids@[i as int] == rowid,
        csr.number_of(rowid) matches Some(i) ==> 0 <= j < csr.entity_rowids@.len()
            && csr.entity_rowids@[j] == rowid ==> j <= i,
{
    assert(csr.entity_by_rowid@.contains_key(rowid) <==> csr.entity_rowids@.contains(rowid));
}

/// The entries of an entity are ordered by their other ends.
pub proof fn lemma_others_ascend(
    offsets: Seq<u32>,
    others: Seq<u32>,
    labels: Seq<u16>,
    rowids: Seq<u64>,
    edges: Seq<HalfEdge>,
    n: int,
    i: int,
)
    requires
        lists(offsets, others, labels, rowids, edges, n),
        ordered(edges),
        0 <= i < n,
    ensures
        forall|k: int, l: int|
            offsets[i] <= k <= l < offsets[i + 1] ==> #[trigger] others[k] <= #[trigger] others[l],
{
    assert forall|k: int, l: int| offsets[i] <= k <= l < offsets[i + 1] implies #[trigger] others[k]
        <= #[trigger] others[l] by {
        assert(edges[k].0 < i + 1 && !(edges[k].0 < i));
        assert(edges[l].0 < i + 1 && !(edges[l].0 < i));
        assert(others[k] == edges[k].1 && others[l] == edges[l].1);
    }
}

proof fn lemma_out_ascends(
    csr: EdgeCsr,
    i: u32,
    labels: Seq<u32>,
    from: int,
    to: int,
    a: int,
    b: int,
    p: int,
    q: int,
)
    requires
        csr.wf(),
        csr.entity_rowids@.no_duplicates(),
        0 <= from <= to <= csr.targets@.len(),
        forall|k: int, l: int|
            from <= k <= l < to ==> #[trigger] csr.targets@[k] <= #[trigger] csr.targets@[l],
        0 <= a <= b < edges_out(csr, i, labels, from, to).len(),
        0 <= p < csr.entity_rowids@.len(),
        0 <= q < csr.entity_rowids@.len(),
        csr.entity_rowids@[p] == edges_out(csr, i, labels, from, to)[a].target,
        csr.entity_rowids@[q] == edges_out(csr, i, labels, from, to)[b].target,
    ensures
        p <= q,
        exists|k: int| from <= k < to && q == #[trigger] csr.targets@[k],
    decreases to - from,
{
    if from < to {
        let head = edges_out(csr, i, labels, from, to - 1);
        let t = csr.targets@[to - 1] as int;
        assert(t < csr.entity_rowids@.len());
        if b < head.len() {
            lemma_out_ascends(csr, i, labels, from, to - 1, a, b, p, q);
        } else {
            assert(csr.entity_rowids@[t] == csr.entity_rowids@[q]);
            assert(t == q);
            if a < head.len() {
                lemma_out_ascends(csr, i, labels, from, to - 1, a, a, p, p);
                let k = choose|k: int| from <= k < to - 1 && p == #[trigger] csr.targets@[k];
                assert(csr.targets@[k] <= csr.targets@[to - 1]);
            } else {
                assert(csr.entity_rowids@[t] == csr.entity_rowids@[p]);
            }
        }
    }
}

proof fn lemma_in_ascends(
    csr: EdgeCsr,
    i: u32,
    labels: Seq<u32>,
    from: int,
    to: int,
    a: int,
    b: int,
    p: int,
    q: int,
)
    requires
        csr.wf(),
        csr.entity_rowids@.no_duplicates(),
        0 <= from <= to <= csr.sources@.len(),
        forall|k: int, l: int|
            from <= k <= l < to ==> #[trigger] csr.sources@[k] <= #[trigger] csr.sources@[l],
        0 <= a <= b < edges_in(csr, i, labels, from, to).len(),
        0 <= p < csr.entity_rowids@.len(),
        0 <= q < csr.entity_rowids@.len(),
        csr.entity_rowids@[p] == edges_in(csr, i, labels, from, to)[a].source,
        csr.entity_rowids@[q] == edges_in(csr, i, labels, from, to)[b].source,
    ensures
        p <= q,
        exists|k: int| from <= k < to && q == #[trigger] csr.sources@[k],
    decreases to - from,
{
    if from < to {
        let head = edges_in(csr, i, labels, from, to - 1);
        let t = csr.sources@[to - 1] as int;
        assert(t < csr.entity_rowids@.len());
        if b < head.len() {
            lemma_in_ascends(csr, i, labels, from, to - 1, a, b, p, q);
        } else {
            assert(csr.entity_rowids@[t] == csr.entity_rowids@[q]);
            assert(t == q);
            if a < head.len() {
                lemma_in_ascends(csr, i, labels, from, to - 1, a, a, p, p);
                let k = choose|k: int| from <= k < to - 1 && p == #[trigger] csr.sources@[k];
                assert(csr.sources@[k] <= csr.sources@[to - 1]);
            } else {
                assert(csr.entity_rowids@[t] == csr.entity_rowids@[p]);
            }
        }
    }
}

/// How often three columns hold an entry with the given other end, label and
/// rowid.
pub open spec fn column_count(
    others: Seq<u32>,
    labels: Seq<u16>,
    rowids: Seq<u64>,
    other: u32,
    label: u16,
    id: u64,
) -> nat
    decreases others.len(),
{
    if others.len() == 0 {
        0
    } else {
        column_count(
            others.drop_last(),
            labels.drop_last(),
            rowids.drop_last(),
            other,
            label,
            id,
        ) + if others.last() == other && labels.last() == label && rowids.last() == id {
            1nat
        } else {
            0nat
        }
    }
}

proof fn lemma_columns(
    list: Seq<(u32, u16, u64)>,
    others: Seq<u32>,
    labels: Seq<u16>,
    rowids: Seq<u64>,
    e: (u32, u16, u64),
)
    requires
        others.len() == list.len(),
        labels.len() == list.len(),
        rowids.len() == list.len(),
        forall|k: int|
            0 <= k < list.len() ==> #[trigger] list[k] == (others[k], labels[k], rowids[k]),
    ensures
        column_count(others, labels, rowids, e.0, e.1, e.2) == entry_count(list, e),
    decreases list.len(),
{
    if list.len() > 0 {
        assert(list[list.len() - 1] == (others.last(), labels.last(), rowids.last()));
        assert forall|k: int| 0 <= k < list.drop_last().len() implies #[trigger] list.drop_last()[k]
            == (others.drop_last()[k], labels.drop_last()[k], rowids.drop_last()[k]) by {
            assert(list.drop_last()[k] == list[k]);
        }
        lemma_columns(
            list.drop_last(),
            others.drop_last(),
            labels.drop_last(),
            rowids.drop_last(),
            e,
        );
    }
}

/// The entries that leave an entity are the rows from it to the other listed
/// entities, each as often as it is stored, and those that arrive are the rows
/// from them to it.
pub proof fn law_entries_are_the_rows(
    csr: EdgeCsr,
    rows: Seq<EdgeRow>,
    i: int,
    j: int,
    label: u16,
    id: u64,
)
    requires
        csr.wf(),
        csr.holds_rows(rows),
        csr.entity_rowids@.no_duplicates(),
        0 <= i < csr.entity_rowids@.len(),
        0 <= j < csr.entity_rowids@.len(),
    ensures
        ({
            let ids = csr.entity_rowids@;
            let (from, to) = (csr.offsets@[i] as int, csr.offsets@[i + 1] as int);
            let (back, end) = (csr.in_offsets@[i] as int, csr.in_offsets@[i + 1] as int);
            &&& column_count(
                csr.targets@.subrange(from, to),
                csr.labels@.subrange(from, to),
                csr.rowids@.subrange(from, to),
                j as u32,
                label,
                id,
            ) == row_count(rows, id, ids[i], ids[j], label as u32)
            &&& column_count(
                csr.sources@.subrange(back, end),
                csr.in_labels@.subrange(back, end),
                csr.in_rowids@.subrange(back, end),
                j as u32,
                label,
                id,
            ) == row_count(rows, id, ids[j], ids[i], label as u32)
        }),
{
    let ids = csr.entity_rowids@;
    let m = csr.entity_by_rowid@;
    let n = ids.len() as int;
    let none = Seq::<u32>::empty();
    let (from, to) = (csr.offsets@[i] as int, csr.offsets@[i + 1] as int);
    let (back, end) = (csr.in_offsets@[i] as int, csr.in_offsets@[i + 1] as int);
    assert(csr.offsets@[i] <= csr.offsets@[i + 1]);
    assert(csr.offsets@[i + 1] <= csr.offsets@[n]);
    assert(csr.in_offsets@[i] <= csr.in_offsets@[i + 1]);
    assert(csr.in_offsets@[i + 1] <= csr.in_offsets@[n]);
    assert(ids.contains(ids[j]));
    assert(m.contains_key(ids[j]));
    assert(ids[m[ids[j]] as int] == ids[j]);
    assert(m[ids[j]] == j);
    let e = (j as u32, label, id);
    let out = EdgeView { id, source: ids[i], target: ids[j], label: label as u32 };
    let into = EdgeView { id, source: ids[j], target: ids[i], label: label as u32 };
    assert((label as u32) as u16 == label);
    lemma_out_count(csr, rows, i as u32, none, out);
    lemma_edges_out_count(csr, i as u32, none, from, to, out);
    lemma_in_count(csr, rows, i as u32, none, into);
    lemma_edges_in_count(csr, i as u32, none, back, end, into);
    lemma_columns(
        span_out(csr, from, to),
        csr.targets@.subrange(from, to),
        csr.labels@.subrange(from, to),
        csr.rowids@.subrange(from, to),
        e,
    );
    lemma_columns(
        span_in(csr, back, end),
        csr.sources@.subrange(back, end),
        csr.in_labels@.subrange(back, end),
        csr.in_rowids@.subrange(back, end),
        e,
    );
}

/// What edges say, as far as their labels are among the given ones.
spec fn views_labelled(list: Seq<EdgeView>, labels: Seq<u32>) -> Seq<EdgeView>
    decreases list.len(),
{
    if list.len() == 0 {
        Seq::empty()
    } else {
        let head = views_labelled(list.drop_last(), labels);
        if labels.contains(list.last().label) {
            head.push(list.last())
        } else {
            head
        }
    }
}

proof fn lemma_views_labelled_none(labels: Seq<u32>)
    ensures
        views_labelled(Seq::empty(), labels) == Seq::<EdgeView>::empty(),
{
}

proof fn lemma_labelled_views(list: Seq<EdgeData>, views: Seq<EdgeView>, labels: Seq<u32>)
    requires
        says(list, views),
    ensures
        labelled(list, labels).len() == views_labelled(views, labels).len(),
        forall|k: int|
            0 <= k < labelled(list, labels).len() ==> edge_view(
                #[trigger] labelled(list, labels)[k],
            ) == views_labelled(views, labels)[k],
    decreases list.len(),
{
    if list.len() > 0 {
        let last = list.len() - 1;
        assert(edge_view(list[last]) == views[last]);
        assert forall|j: int| 0 <= j < list.drop_last().len() implies edge_view(
            #[trigger] list.drop_last()[j],
        ) == views.drop_last()[j] && list.drop_last()[j].properties@.len() == 0 by {
            assert(list.drop_last()[j] == list[j]);
        }
        lemma_labelled_views(list.drop_last(), views.drop_last(), labels);
        let label = list.last().label;
        if labels.contains(label) {
            let f = choose|f: int| 0 <= f < labels.len() && labels[f] == label;
            assert(labels[f] == label);
        }
        let head = labelled(list.drop_last(), labels);
        let all = labelled(list, labels);
        assert forall|k: int| 0 <= k < all.len() implies edge_view(#[trigger] all[k])
            == views_labelled(views, labels)[k] by {
            if k < head.len() {
                assert(all[k] == head[k]);
            }
        }
    }
}

proof fn lemma_out_labelled(csr: EdgeCsr, i: u32, labels: Seq<u32>, from: int, to: int)
    requires
        labels.len() > 0,
    ensures
        edges_out(csr, i, labels, from, to) == views_labelled(
            edges_out(csr, i, Seq::empty(), from, to),
            labels,
        ),
    decreases to - from,
{
    if from < to {
        lemma_out_labelled(csr, i, labels, from, to - 1);
        let all = edges_out(csr, i, Seq::empty(), from, to);
        assert(all.drop_last() =~= edges_out(csr, i, Seq::empty(), from, to - 1));
    }
}

proof fn lemma_in_labelled(csr: EdgeCsr, i: u32, labels: Seq<u32>, from: int, to: int)
    requires
        labels.len() > 0,
    ensures
        edges_in(csr, i, labels, from, to) == views_labelled(
            edges_in(csr, i, Seq::empty(), from, to),
            labels,
        ),
    decreases to - from,
{
    if from < to {
        lemma_in_labelled(csr, i, labels, from, to - 1);
        let all = edges_in(csr, i, Seq::empty(), from, to);
        assert(all.drop_last() =~= edges_in(csr, i, Seq::empty(), from, to - 1));
    }
}

proof fn lemma_out_prefix(csr: EdgeCsr, i: u32, labels: Seq<u32>, from: int, a: int, b: int)
    requires
        from <= a <= b,
    ensures
        edges_out(csr, i, labels, from, a).len() <= edges_out(csr, i, labels, from, b).len(),
        forall|k: int|
            0 <= k < edges_out(csr, i, labels, from, a).len() ==> #[trigger] edges_out(
                csr,
                i,
                labels,
                from,
                a,
            )[k] == edges_out(csr, i, labels, from, b)[k],
    decreases b - a,
{
    if a < b {
        lemma_out_prefix(csr, i, labels, from, a, b - 1);
    }
}

proof fn lemma_in_prefix(csr: EdgeCsr, i: u32, labels: Seq<u32>, from: int, a: int, b: int)
    requires
        from <= a <= b,
    ensures
        edges_in(csr, i, labels, from, a).len() <= edges_in(csr, i, labels, from, b).len(),
        forall|k: int|
            0 <= k < edges_in(csr, i, labels, from, a).len() ==> #[trigger] edges_in(
                csr,
                i,
                labels,
                from,
                a,
            )[k] == edges_in(csr, i, labels, from, b)[k],
    decreases b - a,
{
    if a < b {
        lemma_in_prefix(csr, i, labels, from, a, b - 1);
    }
}

proof fn lemma_out_all(csr: EdgeCsr, i: u32, labels: Seq<u32>, from: int, to: int)
    requires
        labels.len() == 0,
        from <= to,
    ensures
        edges_out(csr, i, labels, from, to).len() == to - from,
    decreases to - from,
{
    if from < to {
        lemma_out_all(csr, i, labels, from, to - 1);
    }
}

proof fn lemma_in_all(csr: EdgeCsr, i: u32, labels: Seq<u32>, from: int, to: int)
    requires
        labels.len() == 0,
        from <= to,
    ensures
        edges_in(csr, i, labels, from, to).len() == to - from,
    decreases to - from,
{
    if from < to {
        lemma_in_all(csr, i, labels, from, to - 1);
    }
}

} // verus!
