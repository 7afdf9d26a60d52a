//! Edges in compressed sparse rows.

use std::collections::HashMap;

use vstd::prelude::*;

use super::rows::EdgeRow;

verus! {

broadcast use vstd::std_specs::hash::group_hash_axioms;

/// An edge as seen from one end: entity at that end, entity at the other end,
/// label, rowid.
pub type HalfEdge = (u32, u32, u16, u64);

/// Edges that leave one entity, one column each.
pub struct OutgoingEdges<'a> {
    pub targets: &'a [u32],
    pub labels: &'a [u16],
    pub rowids: &'a [u64],
}

/// Edges that arrive at one entity, one column each.
pub struct IncomingEdges<'a> {
    pub sources: &'a [u32],
    pub labels: &'a [u16],
    pub rowids: &'a [u64],
}

/// Edge index of a graph. Entities are numbered from zero in the order in
/// which their rowids were given.
pub struct EdgeCsr {
    pub targets: Vec<u32>,
    pub labels: Vec<u16>,
    pub rowids: Vec<u64>,
    pub offsets: Vec<u32>,
    pub sources: Vec<u32>,
    pub in_labels: Vec<u16>,
    pub in_rowids: Vec<u64>,
    pub in_offsets: Vec<u32>,
    /// Number of the entity with a rowid.
    pub entity_by_rowid: HashMap<u64, u32>,
    /// Rowid of the entity with a number.
    pub entity_rowids: Vec<u64>,
}

/// Whether the edges are ordered by the entity at their own end.
pub open spec fn grouped(edges: Seq<HalfEdge>) -> bool {
    forall|i: int, j: int| 0 <= i <= j < edges.len() ==> (#[trigger] edges[i]).0 <= (
    #[trigger] edges[j]).0
}

/// Whether the edges are ordered by both ends, the own end first.
pub open spec fn ordered(edges: Seq<HalfEdge>) -> bool {
    forall|i: int, j: int|
        0 <= i <= j < edges.len() ==> {
            ||| (#[trigger] edges[i]).0 < (#[trigger] edges[j]).0
            ||| edges[i].0 == edges[j].0 && edges[i].1 <= edges[j].1
        }
}

/// Whether the arrays hold the given edges, column by column, and `offsets[i]`
/// is the number of edges whose own end lies before entity `i`.
pub open spec fn lists(
    offsets: Seq<u32>,
    others: Seq<u32>,
    labels: Seq<u16>,
    rowids: Seq<u64>,
    edges: Seq<HalfEdge>,
    entity_count: int,
) -> bool {
    &&& offsets.len() == entity_count + 1
    &&& others == edges.map_values(|e: HalfEdge| e.1)
    &&& labels == edges.map_values(|e: HalfEdge| e.2)
    &&& rowids == edges.map_values(|e: HalfEdge| e.3)
    &&& forall|i: int| 0 <= i <= entity_count ==> #[trigger] offsets[i] <= edges.len()
    &&& forall|i: int, k: int|
        0 <= i <= entity_count && 0 <= k < edges.len() ==> (k < #[trigger] offsets[i] <==> (
        #[trigger] edges[k]).0 < i)
}

/// Whether the arrays of one direction fit together.
pub open spec fn side_wf(
    offsets: Seq<u32>,
    others: Seq<u32>,
    labels: Seq<u16>,
    rowids: Seq<u64>,
    entity_count: int,
) -> bool {
    &&& offsets.len() == entity_count + 1
    &&& offsets[0] == 0
    &&& offsets[entity_count] == others.len()
    &&& forall|i: int, j: int|
        0 <= i <= j <= entity_count ==> #[trigger] offsets[i] <= #[trigger] offsets[j]
    &&& labels.len() == others.len()
    &&& rowids.len() == others.len()
    &&& forall|k: int| 0 <= k < others.len() ==> #[trigger] others[k] < entity_count
}

/// Arrays that list edges between known entities fit together.
pub proof fn lemma_lists_wf(
    offsets: Seq<u32>,
    others: Seq<u32>,
    labels: Seq<u16>,
    rowids: Seq<u64>,
    edges: Seq<HalfEdge>,
    entity_count: int,
)
    requires
        0 <= entity_count,
        lists(offsets, others, labels, rowids, edges, entity_count),
        forall|k: int|
            0 <= k < edges.len() ==> (#[trigger] edges[k]).0 < entity_count && edges[k].1
                < entity_count,
    ensures
        side_wf(offsets, others, labels, rowids, entity_count),
{
    if offsets[0] > 0 {
        assert(edges[0].0 < 0);
    }
    if offsets[entity_count] < edges.len() {
        assert(edges[offsets[entity_count] as int].0 < entity_count);
    }
    assert forall|i: int, j: int| 0 <= i <= j <= entity_count implies #[trigger] offsets[i]
        <= #[trigger] offsets[j] by {
        if offsets[i] > offsets[j] {
            let k = offsets[j] as int;
            assert(edges[k].0 < i);
        }
    }
    assert forall|k: int| 0 <= k < others.len() implies #[trigger] others[k] < entity_count by {
        assert(edges[k].1 < entity_count);
    }
}

/// Builds the arrays of one direction from edges that are ordered by their own
/// end.
pub fn build_csr(
    edges: &[HalfEdge],
    entity_count: usize,
    targets_or_sources: &mut Vec<u32>,
    labels: &mut Vec<u16>,
    rowids: &mut Vec<u64>,
    offsets: &mut Vec<u32>,
)
    requires
        edges.len() <= u32::MAX,
        entity_count < usize::MAX,
        entity_count <= u32::MAX,
        grouped(edges@),
        forall|k: int| 0 <= k < edges.len() ==> (#[trigger] edges[k]).0 < entity_count,
    ensures
        lists(
            final(offsets)@,
            final(targets_or_sources)@,
            final(labels)@,
            final(rowids)@,
            edges@,
            entity_count as int,
        ),
{
    targets_or_sources.clear();
    labels.clear();
    rowids.clear();
    offsets.clear();
    offsets.resize(entity_count + 1, 0);

    let mut current: u32 = 0;
    let mut done: usize = 0;
    while done < edges.len()
        invariant
            done <= edges.len() <= u32::MAX,
            entity_count < usize::MAX,
            entity_count <= u32::MAX,
            current <= entity_count,
            grouped(edges@),
            forall|k: int| 0 <= k < edges.len() ==> (#[trigger] edges[k]).0 < entity_count,
            offsets.len() == entity_count + 1,
            targets_or_sources@ == edges@.take(done as int).map_values(|e: HalfEdge| e.1),
            labels@ == edges@.take(done as int).map_values(|e: HalfEdge| e.2),
            rowids@ == edges@.take(done as int).map_values(|e: HalfEdge| e.3),
            forall|k: int| 0 <= k < done ==> (#[trigger] edges[k]).0 <= current,
            forall|k: int| done <= k < edges.len() ==> current <= (#[trigger] edges[k]).0,
            forall|i: int| 0 <= i <= current ==> #[trigger] offsets[i] <= done,
            forall|i: int, k: int|
                0 <= i <= current && 0 <= k < done ==> (k < #[trigger] offsets[i] <==> (
                #[trigger] edges[k]).0 < i),
        decreases edges.len() - done,
    {
        let edge: HalfEdge = edges[done];
        while current < edge.0
            invariant
                done < edges.len() <= u32::MAX,
                edge == edges[done as int],
                edge.0 < entity_count,
                current <= entity_count,
                entity_count < usize::MAX,
                entity_count <= u32::MAX,
                offsets.len() == entity_count + 1,
                targets_or_sources.len() == done,
                current <= edge.0,
                forall|k: int| 0 <= k < done ==> (#[trigger] edges[k]).0 <= current,
                forall|i: int| 0 <= i <= current ==> #[trigger] offsets[i] <= done,
                forall|i: int, k: int|
                    0 <= i <= current && 0 <= k < done ==> (k < #[trigger] offsets[i] <==> (
                    #[trigger] edges[k]).0 < i),
            decreases edge.0 - current,
        {
            current = current + 1;
            offsets.set(current as usize, targets_or_sources.len() as u32);
        }
        targets_or_sources.push(edge.1);
        labels.push(edge.2);
        rowids.push(edge.3);
        done = done + 1;
        proof {
            assert(edges@.take(done as int).drop_last() =~= edges@.take(done as int - 1));
            assert(edges@.take(done as int) =~= edges@.take(done as int - 1).push(edge));
        }
    }
    assert(edges@.take(done as int) =~= edges@);

    let mut i: usize = current as usize + 1;
    while i <= entity_count
        invariant
            current < i <= entity_count + 1,
            entity_count < usize::MAX,
            offsets.len() == entity_count + 1,
            targets_or_sources.len() == edges.len() <= u32::MAX,
            forall|k: int| 0 <= k < edges.len() ==> (#[trigger] edges[k]).0 <= current,
            forall|j: int| 0 <= j < i ==> #[trigger] offsets[j] <= edges.len(),
            forall|j: int, k: int|
                0 <= j < i && 0 <= k < edges.len() ==> (k < #[trigger] offsets[j] <==> (
                #[trigger] edges[k]).0 < j),
        decreases entity_count + 1 - i,
    {
        offsets.set(i, targets_or_sources.len() as u32);
        i = i + 1;
    }
}

/// Whether `numbers` gives every listed rowid its last place in the list, and
/// nothing else.
pub open spec fn numbers_rows(numbers: Map<u64, u32>, rowids: Seq<u64>) -> bool {
    &&& forall|r: u64| #[trigger] numbers.contains_key(r) <==> rowids.contains(r)
    &&& forall|r: u64| #[trigger]
        numbers.contains_key(r) ==> {
            &&& numbers[r] < rowids.len()
            &&& rowids[numbers[r] as int] == r
            &&& forall|j: int| numbers[r] < j < rowids.len() ==> #[trigger] rowids[j] != r
        }
}

/// Whether both ends of an edge are known entities.
pub open spec fn known(row: EdgeRow, numbers: Map<u64, u32>) -> bool {
    numbers.contains_key(row.source_entity) && numbers.contains_key(row.target_entity)
}

/// The edge as seen from its source; the label keeps its low 16 bits.
pub open spec fn from_source(row: EdgeRow, numbers: Map<u64, u32>) -> HalfEdge {
    (
        numbers[row.source_entity],
        numbers[row.target_entity],
        (row.label % 65536) as u16,
        row.id,
    )
}

/// The edge as seen from its target.
pub open spec fn from_target(row: EdgeRow, numbers: Map<u64, u32>) -> HalfEdge {
    (
        numbers[row.target_entity],
        numbers[row.source_entity],
        (row.label % 65536) as u16,
        row.id,
    )
}

/// The rows whose two ends are known.
pub open spec fn known_rows(rows: Seq<EdgeRow>, numbers: Map<u64, u32>) -> Seq<EdgeRow>
    decreases rows.len(),
{
    if rows.len() == 0 {
        Seq::empty()
    } else {
        let head = known_rows(rows.drop_last(), numbers);
        if known(rows.last(), numbers) {
            head.push(rows.last())
        } else {
            head
        }
    }
}

/// The edges with two known ends, as seen from their sources.
pub open spec fn source_edges(rows: Seq<EdgeRow>, numbers: Map<u64, u32>) -> Seq<HalfEdge> {
    known_rows(rows, numbers).map_values(|r: EdgeRow| from_source(r, numbers))
}

/// The edges with two known ends, as seen from their targets.
pub open spec fn target_edges(rows: Seq<EdgeRow>, numbers: Map<u64, u32>) -> Seq<HalfEdge> {
    known_rows(rows, numbers).map_values(|r: EdgeRow| from_target(r, numbers))
}

/// Whether `sorted` holds the same edges as `edges`, ordered by both ends.
pub open spec fn arranges(sorted: Seq<HalfEdge>, edges: Seq<HalfEdge>) -> bool {
    &&& ordered(sorted)
    &&& sorted.to_multiset() == edges.to_multiset()
}

/// `slice::sort_unstable_by_key`, with the two ends as key: the vector then
/// holds the same edges as before, ordered by both ends. Edges between the same
/// two ends come in any order.
#[verifier::external_body]
fn sort_by_ends(edges: &mut Vec<HalfEdge>)
    ensures
        arranges(final(edges)@, old(edges)@),
{
    edges.sort_unstable_by_key(|e| (e.0, e.1));
}

proof fn lemma_arranged_bounds(sorted: Seq<HalfEdge>, edges: Seq<HalfEdge>, bound: int)
    requires
        arranges(sorted, edges),
        forall|k: int|
            0 <= k < edges.len() ==> (#[trigger] edges[k]).0 < bound && edges[k].1 < bound,
    ensures
        sorted.len() == edges.len(),
        grouped(sorted),
        forall|k: int|
            0 <= k < sorted.len() ==> (#[trigger] sorted[k]).0 < bound && sorted[k].1 < bound,
{
    broadcast use vstd::seq_lib::group_to_multiset_ensures;

    assert(sorted.len() == sorted.to_multiset().len());
    assert(edges.len() == edges.to_multiset().len());
    assert forall|k: int| 0 <= k < sorted.len() implies (#[trigger] sorted[k]).0 < bound
        && sorted[k].1 < bound by {
        assert(sorted.contains(sorted[k]));
        assert(sorted.to_multiset().count(sorted[k]) > 0);
        assert(edges.contains(sorted[k]));
    }
}

impl EdgeCsr {
    /// Whether the arrays and the numbering fit together.
    pub open spec fn wf(self) -> bool {
        let n = self.entity_rowids.len() as int;
        &&& n <= u32::MAX
        &&& side_wf(self.offsets@, self.targets@, self.labels@, self.rowids@, n)
        &&& side_wf(self.in_offsets@, self.sources@, self.in_labels@, self.in_rowids@, n)
        &&& numbers_rows(self.entity_by_rowid@, self.entity_rowids@)
    }

    /// Number of the entity with the given rowid.
    pub open spec fn number_of(self, rowid: u64) -> Option<u32> {
        if self.entity_by_rowid@.contains_key(rowid) {
            Some(self.entity_by_rowid@[rowid])
        } else {
            None
        }
    }

    /// Whether the arrays hold exactly the edges between known entities.
    pub open spec fn holds_rows(self, rows: Seq<EdgeRow>) -> bool {
        let n = self.entity_rowids.len() as int;
        let m = self.entity_by_rowid@;
        &&& exists|out: Seq<HalfEdge>| #[trigger]
            arranges(out, source_edges(rows, m)) && lists(
                self.offsets@,
                self.targets@,
                self.labels@,
                self.rowids@,
                out,
                n,
            )
        &&& exists|back: Seq<HalfEdge>| #[trigger]
            arranges(back, target_edges(rows, m)) && lists(
                self.in_offsets@,
                self.sources@,
                self.in_labels@,
                self.in_rowids@,
                back,
                n,
            )
    }

    /// An index without entities.
    pub fn empty() -> (r: Self)
        ensures
            r.wf(),
            r.entity_rowids@ == Seq::<u64>::empty(),
            r.entity_by_rowid@ == Map::<u64, u32>::empty(),
            r.targets@ == Seq::<u32>::empty(),
            r.sources@ == Seq::<u32>::empty(),
    {
        EdgeCsr {
            targets: Vec::new(),
            labels: Vec::new(),
            rowids: Vec::new(),
            offsets: vec![0],
            sources: Vec::new(),
            in_labels: Vec::new(),
            in_rowids: Vec::new(),
            in_offsets: vec![0],
            entity_by_rowid: HashMap::new(),
            entity_rowids: Vec::new(),
        }
    }

    /// Builds the index from the entity rowids and the edge rows. Rows with an
    /// unknown end are left out.
    pub fn load(rowids: &[u64], rows: &[EdgeRow]) -> (r: Self)
        requires
            rowids.len() <= u32::MAX,
            rowids.len() < usize::MAX,
            rows.len() <= u32::MAX,
        ensures
            r.wf(),
            r.entity_rowids@ == rowids@,
            r.holds_rows(rows@),
    {
        let mut csr = EdgeCsr::empty();
        let mut i: usize = 0;
        while i < rowids.len()
            invariant
                i <= rowids.len() <= u32::MAX,
                csr.entity_rowids@ == rowids@.take(i as int),
                numbers_rows(csr.entity_by_rowid@, rowids@.take(i as int)),
            decreases rowids.len() - i,
        {
            let rowid: u64 = rowids[i];
            let ghost before = csr.entity_by_rowid@;
            let ghost prefix = rowids@.take(i as int);
            csr.entity_rowids.push(rowid);
            csr.entity_by_rowid.insert(rowid, i as u32);
            i = i + 1;
            proof {
                assert(rowids@.take(i as int) =~= prefix.push(rowid));
                lemma_numbers_push(before, prefix, rowid);
            }
        }
        assert(rowids@.take(i as int) =~= rowids@);

        let ghost m = csr.entity_by_rowid@;
        let mut out_edges: Vec<HalfEdge> = Vec::with_capacity(rows.len());
        let mut in_edges: Vec<HalfEdge> = Vec::with_capacity(rows.len());
        let mut k: usize = 0;
        while k < rows.len()
            invariant
                k <= rows.len(),
                csr.entity_by_rowid@ == m,
                known_rows(rows@.take(k as int), m).len() <= k,
                out_edges@ == source_edges(rows@.take(k as int), m),
                in_edges@ == target_edges(rows@.take(k as int), m),
            decreases rows.len() - k,
        {
            let row: EdgeRow = rows[k];
            proof {
                assert(rows@.take(k as int + 1).drop_last() =~= rows@.take(k as int));
            }
            let source: Option<u32> = csr.find_entity_index(row.source_entity);
            let target: Option<u32> = csr.find_entity_index(row.target_entity);
            if let (Some(src), Some(tgt)) = (source, target) {
                let label: u16 = (row.label % 65536) as u16;
                out_edges.push((src, tgt, label, row.id));
                in_edges.push((tgt, src, label, row.id));
            }
            k = k + 1;
        }
        assert(rows@.take(k as int) =~= rows@);
        proof {
            lemma_known_rows(rows@, m);
        }
        let ghost outs = out_edges@;
        let ghost backs = in_edges@;

        sort_by_ends(&mut out_edges);
        proof {
            lemma_arranged_bounds(out_edges@, outs, rowids.len() as int);
        }
        build_csr(
            out_edges.as_slice(),
            rowids.len(),
            &mut csr.targets,
            &mut csr.labels,
            &mut csr.rowids,
            &mut csr.offsets,
        );

        sort_by_ends(&mut in_edges);
        proof {
            lemma_arranged_bounds(in_edges@, backs, rowids.len() as int);
        }
        build_csr(
            in_edges.as_slice(),
            rowids.len(),
            &mut csr.sources,
            &mut csr.in_labels,
            &mut csr.in_rowids,
            &mut csr.in_offsets,
        );
        proof {
            lemma_lists_wf(
                csr.offsets@,
                csr.targets@,
                csr.labels@,
                csr.rowids@,
                out_edges@,
                rowids.len() as int,
            );
            lemma_lists_wf(
                csr.in_offsets@,
                csr.sources@,
                csr.in_labels@,
                csr.in_rowids@,
                in_edges@,
                rowids.len() as int,
            );
            assert(arranges(out_edges@, source_edges(rows@, m)));
            assert(arranges(in_edges@, target_edges(rows@, m)));
            assert(csr.entity_by_rowid@ == m);
            assert(csr.entity_rowids.len() == rowids.len());
            assert(lists(csr.offsets@, csr.targets@, csr.labels@, csr.rowids@, out_edges@, rowids.len() as int));
            assert(lists(csr.in_offsets@, csr.sources@, csr.in_labels@, csr.in_rowids@, in_edges@, rowids.len() as int));
        }
        csr
    }

    /// Both directions hold one entry for each edge between known entities.
    pub proof fn lemma_edge_count(self, rows: Seq<EdgeRow>)
        requires
            self.holds_rows(rows),
        ensures
            self.targets.len() == known_rows(rows, self.entity_by_rowid@).len(),
            self.sources.len() == known_rows(rows, self.entity_by_rowid@).len(),
            known_rows(rows, self.entity_by_rowid@).len() <= rows.len(),
            self.offsets.len() == self.entity_rowids.len() + 1,
            self.in_offsets.len() == self.entity_rowids.len() + 1,
    {
        broadcast use vstd::seq_lib::group_to_multiset_ensures;

        let n = self.entity_rowids.len() as int;
        let m = self.entity_by_rowid@;
        let out = choose|out: Seq<HalfEdge>| #[trigger]
            arranges(out, source_edges(rows, m)) && lists(
                self.offsets@,
                self.targets@,
                self.labels@,
                self.rowids@,
                out,
                n,
            );
        let back = choose|back: Seq<HalfEdge>| #[trigger]
            arranges(back, target_edges(rows, m)) && lists(
                self.in_offsets@,
                self.sources@,
                self.in_labels@,
                self.in_rowids@,
                back,
                n,
            );
        assert(out.len() == out.to_multiset().len());
        assert(source_edges(rows, m).len() == source_edges(rows, m).to_multiset().len());
        assert(back.len() == back.to_multiset().len());
        assert(target_edges(rows, m).len() == target_edges(rows, m).to_multiset().len());
        lemma_known_rows_len(rows, m);
    }

    /// Number of entities.
    pub fn entity_count(&self) -> (r: usize)
        ensures
            r == self.entity_rowids.len(),
    {
        self.entity_rowids.len()
    }

    /// Number of the entity with the given rowid.
    pub fn find_entity_index(&self, rowid: u64) -> (r: Option<u32>)
        ensures
            r == self.number_of(rowid),
    {
        match self.entity_by_rowid.get(&rowid) {
            Some(idx) => Some(*idx),
            None => None,
        }
    }

    /// Rowid of the entity with the given number; 0 if there is none.
    pub fn entity_rowid(&self, idx: u32) -> (r: u64)
        ensures
            r == if idx < self.entity_rowids.len() {
                self.entity_rowids[idx as int]
            } else {
                0
            },
    {
        let i: usize = idx as usize;
        if i < self.entity_rowids.len() {
            self.entity_rowids[i]
        } else {
            0
        }
    }

    /// Edges that leave an entity, ordered by target.
    pub fn outgoing(&self, idx: u32) -> (r: OutgoingEdges<'_>)
        requires
            self.wf(),
            idx < self.entity_rowids.len(),
        ensures
            r.targets@ == self.targets@.subrange(
                self.offsets[idx as int] as int,
                self.offsets[idx + 1] as int,
            ),
            r.labels@ == self.labels@.subrange(
                self.offsets[idx as int] as int,
                self.offsets[idx + 1] as int,
            ),
            r.rowids@ == self.rowids@.subrange(
                self.offsets[idx as int] as int,
                self.offsets[idx + 1] as int,
            ),
            r.labels.len() == r.targets.len() == r.rowids.len(),
    {
        let i: usize = idx as usize;
        let start: usize = self.offsets[i] as usize;
        let end: usize = self.offsets[i + 1] as usize;
        OutgoingEdges {
            targets: vstd::slice::slice_subrange(self.targets.as_slice(), start, end),
            labels: vstd::slice::slice_subrange(self.labels.as_slice(), start, end),
            rowids: vstd::slice::slice_subrange(self.rowids.as_slice(), start, end),
        }
    }

    /// Edges that arrive at an entity, ordered by source.
    pub fn incoming(&self, idx: u32) -> (r: IncomingEdges<'_>)
        requires
            self.wf(),
            idx < self.entity_rowids.len(),
        ensures
            r.sources@ == self.sources@.subrange(
                self.in_offsets[idx as int] as int,
                self.in_offsets[idx + 1] as int,
            ),
            r.labels@ == self.in_labels@.subrange(
                self.in_offsets[idx as int] as int,
                self.in_offsets[idx + 1] as int,
            ),
            r.rowids@ == self.in_rowids@.subrange(
                self.in_offsets[idx as int] as int,
                self.in_offsets[idx + 1] as int,
            ),
            r.labels.len() == r.sources.len() == r.rowids.len(),
    {
        let i: usize = idx as usize;
        let start: usize = self.in_offsets[i] as usize;
        let end: usize = self.in_offsets[i + 1] as usize;
        IncomingEdges {
            sources: vstd::slice::slice_subrange(self.sources.as_slice(), start, end),
            labels: vstd::slice::slice_subrange(self.in_labels.as_slice(), start, end),
            rowids: vstd::slice::slice_subrange(self.in_rowids.as_slice(), start, end),
        }
    }
}

proof fn lemma_numbers_push(numbers: Map<u64, u32>, rowids: Seq<u64>, rowid: u64)
    requires
        numbers_rows(numbers, rowids),
        rowids.len() < u32::MAX,
    ensures
        numbers_rows(numbers.insert(rowid, rowids.len() as u32), rowids.push(rowid)),
{
    let all = rowids.push(rowid);
    let after = numbers.insert(rowid, rowids.len() as u32);
    assert forall|r: u64| #[trigger] after.contains_key(r) <==> all.contains(r) by {
        if rowids.contains(r) {
            let k = choose|k: int| 0 <= k < rowids.len() && rowids[k] == r;
            assert(all[k] == r);
        }
        if all.contains(r) && r != rowid {
            let k = choose|k: int| 0 <= k < all.len() && all[k] == r;
            assert(rowids[k] == r);
        }
        assert(all[rowids.len() as int] == rowid);
    }
}

proof fn lemma_known_rows_len(rows: Seq<EdgeRow>, numbers: Map<u64, u32>)
    ensures
        known_rows(rows, numbers).len() <= rows.len(),
    decreases rows.len(),
{
    if rows.len() > 0 {
        lemma_known_rows_len(rows.drop_last(), numbers);
    }
}

pub proof fn lemma_known_rows(rows: Seq<EdgeRow>, numbers: Map<u64, u32>)
    ensures
        forall|k: int|
            0 <= k < known_rows(rows, numbers).len() ==> known(
                #[trigger] known_rows(rows, numbers)[k],
                numbers,
            ),
        forall|row: EdgeRow|
            known_rows(rows, numbers).contains(row) <==> rows.contains(row) && #[trigger] known(
                row,
                numbers,
            ),
    decreases rows.len(),
{
    if rows.len() > 0 {
        let head = rows.drop_last();
        lemma_known_rows(head, numbers);
        let kept = known_rows(head, numbers);
        let all = known_rows(rows, numbers);
        assert forall|row: EdgeRow| all.contains(row) <==> rows.contains(row) && #[trigger] known(
            row,
            numbers,
        ) by {
            if all.contains(row) {
                let k = choose|k: int| 0 <= k < all.len() && all[k] == row;
                if k < kept.len() {
                    assert(kept[k] == row);
                    assert(head.contains(row));
                    let j = choose|j: int| 0 <= j < head.len() && head[j] == row;
                    assert(rows[j] == row);
                } else {
                    assert(rows[rows.len() - 1] == row);
                }
            }
            if rows.contains(row) && known(row, numbers) {
                let j = choose|j: int| 0 <= j < rows.len() && rows[j] == row;
                if j < head.len() {
                    assert(head[j] == row);
                    let k = choose|k: int| 0 <= k < kept.len() && kept[k] == row;
                    assert(all[k] == row);
                } else {
                    assert(all[all.len() - 1] == row);
                }
            }
        }
    }
}

/// Whether the entry at `k` of the outgoing arrays is the given edge.
pub open spec fn leaves_at(csr: EdgeCsr, row: EdgeRow, k: int) -> bool {
    let e = from_source(row, csr.entity_by_rowid@);
    &&& csr.offsets[e.0 as int] <= k < csr.offsets[e.0 + 1]
    &&& csr.targets[k] == e.1
    &&& csr.labels[k] == e.2
    &&& csr.rowids[k] == e.3
}

/// Whether the entry at `k` of the incoming arrays is the given edge.
pub open spec fn arrives_at(csr: EdgeCsr, row: EdgeRow, k: int) -> bool {
    let e = from_target(row, csr.entity_by_rowid@);
    &&& csr.in_offsets[e.0 as int] <= k < csr.in_offsets[e.0 + 1]
    &&& csr.sources[k] == e.1
    &&& csr.in_labels[k] == e.2
    &&& csr.in_rowids[k] == e.3
}

/// Every edge between known entities is listed with its source and with its
/// target.
pub proof fn law_edge_is_listed(csr: EdgeCsr, rows: Seq<EdgeRow>, row: EdgeRow)
    requires
        csr.wf(),
        csr.holds_rows(rows),
        rows.contains(row),
        known(row, csr.entity_by_rowid@),
    ensures
        exists|k: int| #[trigger] leaves_at(csr, row, k),
        exists|k: int| #[trigger] arrives_at(csr, row, k),
{
    broadcast use vstd::seq_lib::group_to_multiset_ensures;

    let n = csr.entity_rowids.len() as int;
    let m = csr.entity_by_rowid@;
    let kept = known_rows(rows, m);
    lemma_known_rows(rows, m);
    let i = choose|i: int| 0 <= i < kept.len() && kept[i] == row;
    let out = choose|out: Seq<HalfEdge>| #[trigger]
        arranges(out, source_edges(rows, m)) && lists(
            csr.offsets@,
            csr.targets@,
            csr.labels@,
            csr.rowids@,
            out,
            n,
        );
    let e = from_source(row, m);
    assert(source_edges(rows, m)[i] == e);
    assert(source_edges(rows, m).contains(e));
    assert(source_edges(rows, m).to_multiset().count(e) > 0);
    assert(out.contains(e));
    let k = choose|k: int| 0 <= k < out.len() && out[k] == e;
    assert(k < csr.offsets[e.0 + 1] <==> out[k].0 < e.0 + 1);
    assert(k < csr.offsets[e.0 as int] <==> out[k].0 < e.0);
    assert(leaves_at(csr, row, k));

    let back = choose|back: Seq<HalfEdge>| #[trigger]
        arranges(back, target_edges(rows, m)) && lists(
            csr.in_offsets@,
            csr.sources@,
            csr.in_labels@,
            csr.in_rowids@,
            back,
            n,
        );
    let f = from_target(row, m);
    assert(target_edges(rows, m)[i] == f);
    assert(target_edges(rows, m).contains(f));
    assert(target_edges(rows, m).to_multiset().count(f) > 0);
    assert(back.contains(f));
    let j = choose|j: int| 0 <= j < back.len() && back[j] == f;
    assert(j < csr.in_offsets[f.0 + 1] <==> back[j].0 < f.0 + 1);
    assert(j < csr.in_offsets[f.0 as int] <==> back[j].0 < f.0);
    assert(arrives_at(csr, row, j));
}

/// Everything that is listed with an entity is an edge between known entities
/// that leaves it, or arrives at it.
pub proof fn law_listed_is_edge(csr: EdgeCsr, rows: Seq<EdgeRow>, i: int, k: int)
    requires
        csr.wf(),
        csr.holds_rows(rows),
        0 <= i < csr.entity_rowids.len(),
    ensures
        csr.offsets[i] <= k < csr.offsets[i + 1] ==> exists|row: EdgeRow|
            rows.contains(row) && known(row, csr.entity_by_rowid@)
                && csr.entity_by_rowid@[row.source_entity] == i && #[trigger] leaves_at(
                csr,
                row,
                k,
            ),
        csr.in_offsets[i] <= k < csr.in_offsets[i + 1] ==> exists|row: EdgeRow|
            rows.contains(row) && known(row, csr.entity_by_rowid@)
                && csr.entity_by_rowid@[row.target_entity] == i && #[trigger] arrives_at(
                csr,
                row,
                k,
            ),
{
    broadcast use vstd::seq_lib::group_to_multiset_ensures;

    let n = csr.entity_rowids.len() as int;
    let m = csr.entity_by_rowid@;
    let kept = known_rows(rows, m);
    lemma_known_rows(rows, m);
    if csr.offsets[i] <= k < csr.offsets[i + 1] {
        let out = choose|out: Seq<HalfEdge>| #[trigger]
            arranges(out, source_edges(rows, m)) && lists(
                csr.offsets@,
                csr.targets@,
                csr.labels@,
                csr.rowids@,
                out,
                n,
            );
        assert(csr.offsets[i + 1] <= csr.offsets[n]);
        assert(out[k].0 < i + 1 && !(out[k].0 < i));
        assert(out.contains(out[k]));
        assert(out.to_multiset().count(out[k]) > 0);
        let edges = source_edges(rows, m);
        assert(edges.contains(out[k]));
        let j = choose|j: int| 0 <= j < edges.len() && edges[j] == out[k];
        let row = kept[j];
        assert(kept.contains(row));
        assert(from_source(row, m) == out[k]);
        assert(leaves_at(csr, row, k));
    }
    if csr.in_offsets[i] <= k < csr.in_offsets[i + 1] {
        let back = choose|back: Seq<HalfEdge>| #[trigger]
            arranges(back, target_edges(rows, m)) && lists(
                csr.in_offsets@,
                csr.sources@,
                csr.in_labels@,
                csr.in_rowids@,
                back,
                n,
            );
        assert(csr.in_offsets[i + 1] <= csr.in_offsets[n]);
        assert(back[k].0 < i + 1 && !(back[k].0 < i));
        assert(back.contains(back[k]));
        assert(back.to_multiset().count(back[k]) > 0);
        let edges = target_edges(rows, m);
        assert(edges.contains(back[k]));
        let j = choose|j: int| 0 <= j < edges.len() && edges[j] == back[k];
        let row = kept[j];
        assert(kept.contains(row));
        assert(from_target(row, m) == back[k]);
        assert(arrives_at(csr, row, k));
    }
}

/// Entries of one entity, each with the other end, the label and the rowid.
pub open spec fn entries(others: Seq<u32>, labels: Seq<u16>, rowids: Seq<u64>) -> Seq<
    (u32, u16, u64),
> {
    Seq::new(others.len(), |k: int| (others[k], labels[k], rowids[k]))
}

/// Entries of the edges that leave an entity, as `outgoing` shows them.
pub open spec fn outgoing_entries(csr: EdgeCsr, i: int) -> Seq<(u32, u16, u64)> {
    let from = csr.offsets[i] as int;
    let to = csr.offsets[i + 1] as int;
    entries(
        csr.targets@.subrange(from, to),
        csr.labels@.subrange(from, to),
        csr.rowids@.subrange(from, to),
    )
}

/// Entries of the edges that arrive at an entity, as `incoming` shows them.
pub open spec fn incoming_entries(csr: EdgeCsr, i: int) -> Seq<(u32, u16, u64)> {
    let from = csr.in_offsets[i] as int;
    let to = csr.in_offsets[i + 1] as int;
    entries(
        csr.sources@.subrange(from, to),
        csr.in_labels@.subrange(from, to),
        csr.in_rowids@.subrange(from, to),
    )
}

/// The two directions mirror each other: an edge with a given label and rowid
/// from one entity to another is listed with its target as often as with its
/// source.
pub proof fn law_incoming_mirrors_outgoing(
    csr: EdgeCsr,
    rows: Seq<EdgeRow>,
    source: u32,
    target: u32,
    label: u16,
    rowid: u64,
)
    requires
        csr.wf(),
        csr.holds_rows(rows),
        source < csr.entity_rowids.len(),
        target < csr.entity_rowids.len(),
    ensures
        incoming_entries(csr, target as int).to_multiset().count((source, label, rowid))
            == outgoing_entries(csr, source as int).to_multiset().count((target, label, rowid)),
{
    let n = csr.entity_rowids.len() as int;
    let m = csr.entity_by_rowid@;
    let out = choose|out: Seq<HalfEdge>| #[trigger]
        arranges(out, source_edges(rows, m)) && lists(
            csr.offsets@,
            csr.targets@,
            csr.labels@,
            csr.rowids@,
            out,
            n,
        );
    let back = choose|back: Seq<HalfEdge>| #[trigger]
        arranges(back, target_edges(rows, m)) && lists(
            csr.in_offsets@,
            csr.sources@,
            csr.in_labels@,
            csr.in_rowids@,
            back,
            n,
        );
    lemma_listed_count(
        csr.offsets@,
        csr.targets@,
        csr.labels@,
        csr.rowids@,
        out,
        n,
        (source, target, label, rowid),
    );
    lemma_listed_count(
        csr.in_offsets@,
        csr.sources@,
        csr.in_labels@,
        csr.in_rowids@,
        back,
        n,
        (target, source, label, rowid),
    );
    lemma_same_count(
        source_edges(rows, m),
        target_edges(rows, m),
        (source, target, label, rowid),
        (target, source, label, rowid),
    );
}

/// Sequences that hold two values at the same places hold them equally often.
proof fn lemma_same_count<A, B>(s: Seq<A>, t: Seq<B>, x: A, y: B)
    requires
        s.len() == t.len(),
        forall|k: int| 0 <= k < s.len() ==> (#[trigger] s[k] == x <==> #[trigger] t[k] == y),
    ensures
        s.to_multiset().count(x) == t.to_multiset().count(y),
    decreases s.len(),
{
    broadcast use vstd::seq_lib::group_to_multiset_ensures;

    if s.len() > 0 {
        let k = s.len() - 1;
        lemma_same_count(s.drop_last(), t.drop_last(), x, y);
        assert(s =~= s.drop_last().push(s[k]));
        assert(t =~= t.drop_last().push(t[k]));
        assert(s[k] == x <==> t[k] == y);
    } else {
        assert(s =~= Seq::<A>::empty());
        assert(t =~= Seq::<B>::empty());
    }
}

/// An edge occurs among the entries of its own end as often as among all.
pub proof fn lemma_listed_count(
    offsets: Seq<u32>,
    others: Seq<u32>,
    labels: Seq<u16>,
    rowids: Seq<u64>,
    edges: Seq<HalfEdge>,
    entity_count: int,
    e: HalfEdge,
)
    requires
        lists(offsets, others, labels, rowids, edges, entity_count),
        e.0 < entity_count,
        offsets[e.0 as int] <= offsets[e.0 + 1],
    ensures
        ({
            let from = offsets[e.0 as int] as int;
            let to = offsets[e.0 + 1] as int;
            entries(
                others.subrange(from, to),
                labels.subrange(from, to),
                rowids.subrange(from, to),
            ).to_multiset().count((e.1, e.2, e.3)) == edges.to_multiset().count(e)
        }),
{
    broadcast use vstd::seq_lib::group_to_multiset_ensures;

    let from = offsets[e.0 as int] as int;
    let to = offsets[e.0 + 1] as int;
    let before = edges.subrange(0, from);
    let own = edges.subrange(from, to);
    let after = edges.subrange(to, edges.len() as int);
    assert(edges =~= before + own + after);
    vstd::seq_lib::lemma_multiset_commutative(before, own);
    vstd::seq_lib::lemma_multiset_commutative(before + own, after);
    assert(!before.contains(e)) by {
        if before.contains(e) {
            let k = choose|k: int| 0 <= k < before.len() && before[k] == e;
            assert(edges[k].0 < e.0);
        }
    }
    assert(!after.contains(e)) by {
        if after.contains(e) {
            let k = choose|k: int| 0 <= k < after.len() && after[k] == e;
            assert(!(edges[to + k].0 < e.0 + 1));
        }
    }
    assert(before.to_multiset().count(e) == 0);
    assert(after.to_multiset().count(e) == 0);
    let listed = entries(
        others.subrange(from, to),
        labels.subrange(from, to),
        rowids.subrange(from, to),
    );
    assert forall|k: int| 0 <= k < own.len() implies (#[trigger] own[k] == e <==> #[trigger] listed[k]
        == (e.1, e.2, e.3)) by {
        assert(own[k] == edges[from + k]);
        assert(edges[from + k].0 < e.0 + 1 && !(edges[from + k].0 < e.0));
        assert(others[from + k] == edges[from + k].1);
        assert(labels[from + k] == edges[from + k].2);
        assert(rowids[from + k] == edges[from + k].3);
    }
    lemma_same_count(own, listed, e, (e.1, e.2, e.3));
}

} // verus!
