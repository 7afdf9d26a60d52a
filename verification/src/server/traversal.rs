//! Breadth-first traversal of a graph.

use std::collections::VecDeque;

use vstd::prelude::*;

use super::edge_csr::EdgeCsr;

verus! {

/// Neighbours of all the nodes, node by node.
pub open spec fn walk(next: spec_fn(int) -> Seq<int>, nodes: Seq<int>) -> Seq<int>
    decreases nodes.len(),
{
    if nodes.len() == 0 {
        Seq::empty()
    } else {
        walk(next, nodes.drop_last()) + next(nodes.last())
    }
}

/// The nodes of `found` that were not seen before, each at its first place.
pub open spec fn discover(found: Seq<int>, seen: Set<int>) -> Seq<int>
    decreases found.len(),
{
    if found.len() == 0 {
        Seq::empty()
    } else {
        let head = discover(found.drop_last(), seen);
        let node = found.last();
        if seen.contains(node) || head.contains(node) {
            head
        } else {
            head.push(node)
        }
    }
}

/// The `depth` levels behind `level`, one after the other.
pub open spec fn levels(
    next: spec_fn(int) -> Seq<int>,
    level: Seq<int>,
    seen: Set<int>,
    depth: nat,
) -> Seq<int>
    decreases depth,
{
    if depth == 0 {
        Seq::empty()
    } else {
        let found = discover(walk(next, level), seen);
        found + levels(next, found, seen.union(found.to_set()), (depth - 1) as nat)
    }
}

/// Nodes within `depth` steps of `start`, nearest first, without what was
/// seen before.
pub open spec fn bfs_order(
    next: spec_fn(int) -> Seq<int>,
    start: int,
    seen: Set<int>,
    depth: nat,
) -> Seq<int> {
    seq![start] + levels(next, seq![start], seen.insert(start), depth)
}

/// Whether an edge label passes a filter; an empty filter passes all.
pub open spec fn label_passes(filter: Seq<u32>, label: u32) -> bool {
    filter.len() == 0 || filter.contains(label)
}

/// Targets of the edges stored at `from..to` whose labels pass.
pub open spec fn targets_between(
    targets: Seq<u32>,
    labels: Seq<u16>,
    filter: Seq<u32>,
    from: int,
    to: int,
) -> Seq<int>
    decreases to - from,
{
    if to <= from {
        Seq::empty()
    } else {
        let head = targets_between(targets, labels, filter, from, to - 1);
        if label_passes(filter, labels[to - 1] as u32) {
            head.push(targets[to - 1] as int)
        } else {
            head
        }
    }
}

/// Targets that an entity's edges lead to, in storage order.
pub open spec fn csr_next(csr: EdgeCsr, filter: Seq<u32>) -> spec_fn(int) -> Seq<int> {
    |i: int|
        targets_between(
            csr.targets@,
            csr.labels@,
            filter,
            csr.offsets[i] as int,
            csr.offsets[i + 1] as int,
        )
}

/// Entities that carry the mark of a generation.
pub open spec fn marked(visited: Seq<u32>, generation: u32) -> Set<int> {
    Set::new(|j: int| 0 <= j < visited.len() && visited[j] == generation)
}

/// Rowids of entities.
pub open spec fn rowids_of(rowids: Seq<u64>, nodes: Seq<int>) -> Seq<u64> {
    nodes.map_values(|i: int| rowids[i])
}

/// The marks after the given entities were marked.
pub open spec fn mark_all(visited: Seq<u32>, nodes: Seq<int>, generation: u32) -> Seq<u32> {
    Seq::new(
        visited.len(),
        |j: int|
            if nodes.contains(j) {
                generation
            } else {
                visited[j]
            },
    )
}

/// Number of entities without the mark.
pub open spec fn unmarked(visited: Seq<u32>, generation: u32) -> nat
    decreases visited.len(),
{
    if visited.len() == 0 {
        0
    } else {
        unmarked(visited.drop_last(), generation) + if visited.last() == generation {
            0nat
        } else {
            1nat
        }
    }
}

/// Marking an entity leaves one less without the mark.
pub proof fn lemma_unmarked_update(visited: Seq<u32>, generation: u32, i: int)
    requires
        0 <= i < visited.len(),
        visited[i] != generation,
    ensures
        unmarked(visited.update(i, generation), generation) + 1 == unmarked(visited, generation),
    decreases visited.len(),
{
    let after = visited.update(i, generation);
    if i == visited.len() - 1 {
        assert(after.drop_last() =~= visited.drop_last());
    } else {
        lemma_unmarked_update(visited.drop_last(), generation, i);
        assert(after.drop_last() =~= visited.drop_last().update(i, generation));
    }
}

pub proof fn lemma_levels_empty(next: spec_fn(int) -> Seq<int>, seen: Set<int>, depth: nat)
    ensures
        levels(next, Seq::empty(), seen, depth) == Seq::<int>::empty(),
    decreases depth,
{
    if depth > 0 {
        let none = Seq::<int>::empty();
        assert(walk(next, none) == none);
        assert(discover(none, seen) == none);
        lemma_levels_empty(next, seen.union(none.to_set()), (depth - 1) as nat);
    }
}

/// Tests whether an edge label passes a filter.
pub fn passes(filter: &[u32], label: u32) -> (r: bool)
    ensures
        r == label_passes(filter@, label),
{
    if filter.len() == 0 {
        return true;
    }
    let mut i: usize = 0;
    while i < filter.len()
        invariant
            i <= filter.len(),
            forall|j: int| 0 <= j < i ==> filter@[j] != label,
        decreases filter.len() - i,
    {
        if filter[i] == label {
            return true;
        }
        i = i + 1;
    }
    false
}

/// Where a traversal stands: the level that is being left, how much of it is
/// done, and what was found behind it.
pub struct Progress {
    pub level: Seq<int>,
    pub done: int,
    pub found: Seq<int>,
    pub seen: Set<int>,
    pub order: Seq<int>,
    pub depth: int,
}

impl Progress {
    /// Whether `queue` holds the rest of the level and then the found nodes.
    pub open spec fn queued(self, queue: Seq<(u32, u32)>) -> bool {
        let rest = self.level.len() - self.done;
        &&& 0 <= self.done <= self.level.len()
        &&& queue.len() == rest + self.found.len()
        &&& forall|t: int|
            0 <= t < rest ==> (#[trigger] queue[t]).0 == self.level[self.done + t] && queue[t].1
                == self.depth
        &&& forall|t: int|
            rest <= t < queue.len() ==> (#[trigger] queue[t]).0 == self.found[t - rest]
                && queue[t].1 == self.depth + 1
    }

    /// Whether the order emitted so far leads to `goal`.
    pub open spec fn leads_to(self, goal: Seq<int>, next: spec_fn(int) -> Seq<int>, max_depth: int) -> bool {
        let before = self.order.len() - self.found.len();
        &&& 0 <= self.depth <= max_depth
        &&& 0 <= before
        &&& self.order == self.order.take(before) + self.found
        &&& goal == self.order.take(before) + levels(
            next,
            self.level,
            self.seen,
            (max_depth - self.depth) as nat,
        )
        &&& self.found == if self.depth < max_depth {
            discover(walk(next, self.level.take(self.done)), self.seen)
        } else {
            Seq::empty()
        }
    }

    pub open spec fn all_below(self, n: int) -> bool {
        &&& forall|t: int| 0 <= t < self.level.len() ==> 0 <= #[trigger] self.level[t] < n
        &&& forall|t: int| 0 <= t < self.found.len() ==> 0 <= #[trigger] self.found[t] < n
    }

    /// Whether the marks tell exactly what was seen.
    pub open spec fn marks(self, visited: Seq<u32>, generation: u32) -> bool {
        forall|j: int|
            0 <= j < visited.len() ==> (#[trigger] visited[j] == generation <==> (
            self.seen.contains(j) || self.found.contains(j)))
    }

    /// The found nodes become the level.
    pub open spec fn turned(self) -> Progress {
        Progress {
            level: self.found,
            done: 0,
            found: Seq::empty(),
            seen: self.seen.union(self.found.to_set()),
            order: self.order,
            depth: self.depth + 1,
        }
    }

    pub proof fn lemma_turn(
        self,
        goal: Seq<int>,
        next: spec_fn(int) -> Seq<int>,
        max_depth: int,
        queue: Seq<(u32, u32)>,
    )
        requires
            self.leads_to(goal, next, max_depth),
            self.queued(queue),
            self.done == self.level.len(),
            queue.len() > 0,
        ensures
            self.turned().leads_to(goal, next, max_depth),
            self.turned().queued(queue),
    {
        let t = self.turned();
        assert(self.level.take(self.done) =~= self.level);
        assert(self.depth < max_depth);
        let before = self.order.len() - self.found.len();
        assert(t.order.take(t.order.len() as int) =~= t.order);
        assert(t.order =~= t.order.take(t.order.len() as int) + t.found);
        let rest = levels(
            next,
            t.level,
            t.seen,
            (max_depth - t.depth) as nat,
        );
        assert(levels(next, self.level, self.seen, (max_depth - self.depth) as nat) == self.found
            + rest);
        assert(goal =~= self.order + rest);
        assert(t.level.take(0) =~= Seq::<int>::empty());
        assert(walk(next, t.level.take(0)) == Seq::<int>::empty());
    }

    pub proof fn lemma_finished(
        self,
        goal: Seq<int>,
        next: spec_fn(int) -> Seq<int>,
        max_depth: int,
        queue: Seq<(u32, u32)>,
    )
        requires
            self.leads_to(goal, next, max_depth),
            self.queued(queue),
            queue.len() == 0,
        ensures
            self.order == goal,
    {
        assert(self.level.take(self.done) =~= self.level);
        assert(self.order.take(self.order.len() as int) =~= self.order);
        let depth = (max_depth - self.depth) as nat;
        assert(self.found =~= Seq::<int>::empty());
        if depth > 0 {
            lemma_levels_empty(
                next,
                self.seen.union(self.found.to_set()),
                (depth - 1) as nat,
            );
        }
        assert(levels(next, self.level, self.seen, depth) =~= Seq::<int>::empty());
    }
}

/// Visits the entities within `max_depth` steps of the start, nearest first,
/// and appends their rowids. Entities that carry the mark of the generation
/// count as visited; every entity that is reached gets it.
pub fn bfs_impl(
    csr: &EdgeCsr,
    start_rowid: u64,
    max_depth: u32,
    edge_labels: &[u32],
    visited: &mut Vec<u32>,
    generation: u32,
    queue: &mut VecDeque<(u32, u32)>,
    out: &mut Vec<u64>,
)
    requires
        csr.wf(),
        old(visited).len() >= csr.entity_rowids.len(),
        old(queue)@.len() == 0,
    ensures
        final(queue)@.len() == 0,
        match csr.number_of(start_rowid) {
            None => {
                &&& final(visited)@ == old(visited)@
                &&& final(out)@ == old(out)@
            },
            Some(start) => {
                let order = bfs_order(
                    csr_next(*csr, edge_labels@),
                    start as int,
                    marked(old(visited)@, generation),
                    max_depth as nat,
                );
                &&& final(visited)@ == mark_all(old(visited)@, order, generation)
                &&& final(out)@ == old(out)@ + rowids_of(csr.entity_rowids@, order)
            },
        },
{
    let start_idx: u32 = match csr.find_entity_index(start_rowid) {
        Some(idx) => idx,
        None => {
            return ;
        },
    };
    let ghost n = csr.entity_rowids.len() as int;
    let ghost next = csr_next(*csr, edge_labels@);
    let ghost seen0 = marked(visited@, generation);
    let ghost goal = bfs_order(next, start_idx as int, seen0, max_depth as nat);
    let ghost visited0 = visited@;
    let ghost out0 = out@;

    visited.set(start_idx as usize, generation);
    queue.push_back((start_idx, 0));
    out.push(start_rowid);

    let ghost mut at = Progress {
        level: seq![start_idx as int],
        done: 0,
        found: Seq::empty(),
        seen: seen0.insert(start_idx as int),
        order: seq![start_idx as int],
        depth: 0,
    };
    proof {
        assert(at.level.take(0) =~= Seq::<int>::empty());
        assert(walk(next, at.level.take(0)) == Seq::<int>::empty());
        assert(at.order.take(1) =~= at.order);
        assert(at.order =~= at.order.take(1) + at.found);
        assert(at.order.contains(start_idx as int)) by {
            assert(at.order[0] == start_idx as int);
        }
        assert(visited@ =~= mark_all(visited0, at.order, generation));
        assert(out@ =~= out0 + rowids_of(csr.entity_rowids@, at.order));
    }

    while queue.len() > 0
        invariant
            csr.wf(),
            n == csr.entity_rowids.len(),
            visited.len() >= n,
            next == csr_next(*csr, edge_labels@),
            at.leads_to(goal, next, max_depth as int),
            at.queued(queue@),
            at.all_below(n),
            at.marks(visited@, generation),
            visited@ == mark_all(visited0, at.order, generation),
            out@ == out0 + rowids_of(csr.entity_rowids@, at.order),
        decreases unmarked(visited@, generation) + queue@.len(),
    {
        proof {
            if at.done == at.level.len() {
                let before = at;
                at.lemma_turn(goal, next, max_depth as int, queue@);
                at = at.turned();
                assert(at.marks(visited@, generation)) by {
                    assert forall|j: int| 0 <= j < visited@.len() implies (#[trigger] visited@[j]
                        == generation <==> (at.seen.contains(j) || at.found.contains(j))) by {
                        assert(before.found.to_set().contains(j) == before.found.contains(j));
                    }
                }
            }
        }
        let ghost q0 = queue@;
        let (idx, depth): (u32, u32) = queue.pop_front().unwrap();
        assert(idx == at.level[at.done] && depth == at.depth);
        if depth >= max_depth {
            proof {
                at.done = at.done + 1;
            }
            continue ;
        }
        let i: usize = idx as usize;
        let start: usize = csr.offsets[i] as usize;
        let end: usize = csr.offsets[i + 1] as usize;
        let mut pos: usize = start;
        let ghost found_before = walk(next, at.level.take(at.done));
        let ghost measure = unmarked(visited@, generation) + queue@.len();
        proof {
            assert(targets_between(
                csr.targets@,
                csr.labels@,
                edge_labels@,
                start as int,
                start as int,
            ) == Seq::<int>::empty());
            assert(found_before =~= found_before + Seq::<int>::empty());
        }
        while pos < end
            invariant
                csr.wf(),
                n == csr.entity_rowids.len(),
                visited.len() >= n,
                start <= pos <= end <= csr.targets.len(),
                depth == at.depth < max_depth,
                0 <= at.done < at.level.len(),
                idx == at.level[at.done],
                found_before == walk(next, at.level.take(at.done)),
                at.order.len() >= at.found.len(),
                at.order == at.order.take(at.order.len() - at.found.len()) + at.found,
                goal == at.order.take(at.order.len() - at.found.len()) + levels(
                    next,
                    at.level,
                    at.seen,
                    (max_depth - at.depth) as nat,
                ),
                at.found == discover(
                    found_before + targets_between(
                        csr.targets@,
                        csr.labels@,
                        edge_labels@,
                        start as int,
                        pos as int,
                    ),
                    at.seen,
                ),
                ({
                    let ahead = Progress { done: at.done + 1, ..at };
                    ahead.queued(queue@)
                }),
                at.all_below(n),
                at.marks(visited@, generation),
                visited@ == mark_all(visited0, at.order, generation),
                out@ == out0 + rowids_of(csr.entity_rowids@, at.order),
                measure == unmarked(visited@, generation) + queue@.len(),
            decreases end - pos,
        {
            let ghost prefix = found_before + targets_between(
                csr.targets@,
                csr.labels@,
                edge_labels@,
                start as int,
                pos as int,
            );
            if passes(edge_labels, csr.labels[pos] as u32) {
                let target: u32 = csr.targets[pos];
                let ti: usize = target as usize;
                proof {
                    let longer = found_before + targets_between(
                        csr.targets@,
                        csr.labels@,
                        edge_labels@,
                        start as int,
                        pos + 1,
                    );
                    assert(longer =~= prefix.push(target as int));
                    assert(longer.drop_last() =~= prefix);
                }
                if visited[ti] != generation {
                    proof {
                        lemma_unmarked_update(visited@, generation, ti as int);
                    }
                    let ghost old_at = at;
                    let ghost old_visited = visited@;
                    visited.set(ti, generation);
                    queue.push_back((target, depth + 1));
                    out.push(csr.entity_rowids[ti]);
                    proof {
                        at.found = old_at.found.push(target as int);
                        at.order = old_at.order.push(target as int);
                        assert(at.order.take(at.order.len() - at.found.len())
                            =~= old_at.order.take(old_at.order.len() - old_at.found.len()));
                        assert(at.order =~= at.order.take(at.order.len() - at.found.len())
                            + at.found);
                        assert forall|j: int| 0 <= j < visited@.len() implies (
                        #[trigger] visited@[j] == generation <==> (at.seen.contains(j)
                            || at.found.contains(j))) by {
                            lemma_push_contains(old_at.found, target as int, j);
                        }
                        assert(visited@ =~= mark_all(visited0, at.order, generation)) by {
                            assert forall|j: int| 0 <= j < visited@.len() implies visited@[j]
                                == mark_all(visited0, at.order, generation)[j] by {
                                lemma_push_contains(old_at.order, target as int, j);
                            }
                        }
                        assert(out@ =~= out0 + rowids_of(csr.entity_rowids@, at.order));
                    }
                }
            }
            pos = pos + 1;
        }
        proof {
            let old_at = at;
            at.done = at.done + 1;
            assert(at.level.take(at.done).drop_last() =~= at.level.take(at.done - 1));
            assert(walk(next, at.level.take(at.done)) == found_before + next(idx as int));
        }
    }
    proof {
        at.lemma_finished(goal, next, max_depth as int, queue@);
    }
}

pub proof fn lemma_push_contains(s: Seq<int>, x: int, y: int)
    ensures
        s.push(x).contains(y) <==> s.contains(y) || y == x,
{
    let t = s.push(x);
    if s.contains(y) {
        let k = choose|k: int| 0 <= k < s.len() && s[k] == y;
        assert(t[k] == y);
    }
    assert(t[s.len() as int] == x);
    if t.contains(y) && y != x {
        let k = choose|k: int| 0 <= k < t.len() && t[k] == y;
        assert(s[k] == y);
    }
}

} // verus!
