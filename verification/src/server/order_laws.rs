//! The order in which a traversal finds nodes.

use vstd::prelude::*;

use super::traversal::{bfs_order, discover, levels, walk};
use super::traversal_laws::{law_bfs_deeper_extends, lemma_discover};

verus! {

/// A traversal finds nodes in the order of their first finders: of two nodes
/// behind the start, the one that comes first is led to by an earlier node than
/// any that leads to the other, or earlier by the same node. What leads to nodes
/// are the nodes that a traversal one step less deep finds.
pub proof fn law_bfs_order_of_discovery(
    next: spec_fn(int) -> Seq<int>,
    start: int,
    depth: nat,
    b: int,
    c: int,
    a: int,
    p: int,
)
    requires
        depth > 0,
        1 <= b < c < bfs_order(next, start, Set::empty(), depth).len(),
        0 <= a < bfs_order(next, start, Set::empty(), (depth - 1) as nat).len(),
        0 <= p < next(bfs_order(next, start, Set::empty(), depth)[a]).len(),
        next(bfs_order(next, start, Set::empty(), depth)[a])[p] == bfs_order(
            next,
            start,
            Set::empty(),
            depth,
        )[c],
    ensures
        exists|d: int, q: int|
            0 <= d <= a && 0 <= q < next(bfs_order(next, start, Set::empty(), depth)[d]).len()
                && #[trigger] next(bfs_order(next, start, Set::empty(), depth)[d])[q] == bfs_order(
                next,
                start,
                Set::empty(),
                depth,
            )[b] && (d < a || q < p),
{
    let order = bfs_order(next, start, Set::empty(), depth);
    let near = bfs_order(next, start, Set::empty(), (depth - 1) as nat);
    let seen = Set::empty().insert(start);
    let rest = levels(next, seq![start], seen, depth);
    law_bfs_deeper_extends(next, start, Set::empty(), (depth - 1) as nat, depth);
    assert forall|k: int| 0 <= k < near.len() implies #[trigger] near[k] == order[k] by {
        assert(near =~= order.subrange(0, near.len() as int));
        assert(order.subrange(0, near.len() as int)[k] == order[k]);
    }
    lemma_levels_as_queue(next, seq![start], seen, depth);
    let found = walk(next, near);
    assert(rest == discover(found, seen));
    assert(order[b] == rest[b - 1] && order[c] == rest[c - 1]);
    lemma_walk_at(next, near, a, p);
    let at = walk(next, near.take(a)).len() + p;
    assert(found[at] == order[c]);
    lemma_discover_order(found, seen, b - 1, c - 1, at);
    let e = choose|e: int| 0 <= e < at && #[trigger] found[e] == rest[b - 1];
    lemma_walk_find(next, near, e);
    let (d, q) = choose|d: int, q: int|
        0 <= d < near.len() && 0 <= q < next(near[d]).len() && #[trigger] next(near[d])[q]
            == found[e] && e == walk(next, near.take(d)).len() + q;
    if d > a {
        lemma_walk_grows(next, near, a + 1, d);
        assert(near.take(a + 1).drop_last() =~= near.take(a));
    }
    assert(next(order[d])[q] == order[b]);
}

proof fn lemma_walk_add(next: spec_fn(int) -> Seq<int>, a: Seq<int>, b: Seq<int>)
    ensures
        walk(next, a + b) == walk(next, a) + walk(next, b),
    decreases b.len(),
{
    if b.len() == 0 {
        assert(a + b =~= a);
        assert(walk(next, a) + walk(next, b) =~= walk(next, a));
    } else {
        assert((a + b).drop_last() =~= a + b.drop_last());
        lemma_walk_add(next, a, b.drop_last());
        assert((walk(next, a) + walk(next, b.drop_last())) + next(b.last()) =~= walk(next, a) + (
        walk(next, b.drop_last()) + next(b.last())));
    }
}

proof fn lemma_discover_add(a: Seq<int>, b: Seq<int>, seen: Set<int>)
    ensures
        discover(a + b, seen) == discover(a, seen) + discover(
            b,
            seen.union(discover(a, seen).to_set()),
        ),
    decreases b.len(),
{
    let first = discover(a, seen);
    let more = seen.union(first.to_set());
    if b.len() == 0 {
        assert(a + b =~= a);
        assert(first + discover(b, more) =~= first);
    } else {
        assert((a + b).drop_last() =~= a + b.drop_last());
        lemma_discover_add(a, b.drop_last(), seen);
        let second = discover(b.drop_last(), more);
        let x = b.last();
        let head = first + second;
        if first.contains(x) {
            let k = choose|k: int| 0 <= k < first.len() && first[k] == x;
            assert(head[k] == x);
        }
        if second.contains(x) {
            let k = choose|k: int| 0 <= k < second.len() && second[k] == x;
            assert(head[first.len() + k] == x);
        }
        if head.contains(x) {
            let k = choose|k: int| 0 <= k < head.len() && head[k] == x;
            if k < first.len() {
                assert(first[k] == x);
            } else {
                assert(second[k - first.len()] == x);
            }
        }
        assert(first.to_set().contains(x) == first.contains(x));
        assert(head.push(x) =~= first + second.push(x));
    }
}

/// The levels are what the nodes before the last level lead to, in one row.
proof fn lemma_levels_as_queue(
    next: spec_fn(int) -> Seq<int>,
    level: Seq<int>,
    seen: Set<int>,
    depth: nat,
)
    requires
        depth > 0,
    ensures
        levels(next, level, seen, depth) == discover(
            walk(next, level + levels(next, level, seen, (depth - 1) as nat)),
            seen,
        ),
    decreases depth,
{
    let found = discover(walk(next, level), seen);
    let more = seen.union(found.to_set());
    if depth == 1 {
        assert(level + levels(next, level, seen, 0) =~= level);
        assert(found + levels(next, found, more, 0) =~= found);
    } else {
        let less = (depth - 1) as nat;
        let behind = levels(next, found, more, (depth - 2) as nat);
        lemma_levels_as_queue(next, found, more, less);
        assert(levels(next, level, seen, less) == found + behind);
        lemma_walk_add(next, level, found + behind);
        lemma_discover_add(walk(next, level), walk(next, found + behind), seen);
    }
}

proof fn lemma_discover_order(found: Seq<int>, seen: Set<int>, b: int, c: int, q: int)
    requires
        0 <= b < c < discover(found, seen).len(),
        0 <= q < found.len(),
        found[q] == discover(found, seen)[c],
    ensures
        exists|e: int| 0 <= e < q && #[trigger] found[e] == discover(found, seen)[b],
    decreases found.len(),
{
    let rest = found.drop_last();
    let last = found.len() - 1;
    let head = discover(rest, seen);
    let all = discover(found, seen);
    lemma_discover(rest, seen);
    assert(found.last() == found[last]);
    if b < head.len() {
        assert(all[b] == head[b]);
        assert(head.contains(head[b]));
        assert(rest.contains(head[b]));
        let e = choose|e: int| 0 <= e < rest.len() && rest[e] == head[b];
        assert(found[e] == all[b]);
        if q < last {
            assert(rest[q] == found[q]);
            if c < head.len() {
                lemma_discover_order(rest, seen, b, c, q);
                let g = choose|g: int| 0 <= g < q && #[trigger] rest[g] == head[b];
                assert(found[g] == all[b]);
            } else {
                assert(all[c] == found[last]);
                assert(rest.contains(all[c]));
                assert(!seen.contains(all[c]) && !head.contains(all[c]));
                assert(head.contains(all[c]));
            }
        }
    }
}

proof fn lemma_walk_at(next: spec_fn(int) -> Seq<int>, nodes: Seq<int>, a: int, p: int)
    requires
        0 <= a < nodes.len(),
        0 <= p < next(nodes[a]).len(),
    ensures
        walk(next, nodes.take(a)).len() + p < walk(next, nodes).len(),
        walk(next, nodes)[walk(next, nodes.take(a)).len() + p] == next(nodes[a])[p],
{
    let front = nodes.take(a + 1);
    let back = nodes.skip(a + 1);
    assert(front.drop_last() =~= nodes.take(a));
    assert(front.last() == nodes[a]);
    assert(front + back =~= nodes);
    lemma_walk_add(next, front, back);
}

proof fn lemma_walk_find(next: spec_fn(int) -> Seq<int>, nodes: Seq<int>, e: int)
    requires
        0 <= e < walk(next, nodes).len(),
    ensures
        exists|d: int, q: int|
            0 <= d < nodes.len() && 0 <= q < next(nodes[d]).len() && #[trigger] next(nodes[d])[q]
                == walk(next, nodes)[e] && e == walk(next, nodes.take(d)).len() + q,
    decreases nodes.len(),
{
    let rest = nodes.drop_last();
    let head = walk(next, rest);
    let last = nodes.len() - 1;
    if nodes.len() > 0 {
        assert(nodes.last() == nodes[last]);
        assert(nodes.take(last) =~= rest);
        if e < head.len() {
            lemma_walk_find(next, rest, e);
            let (d, q) = choose|d: int, q: int|
                0 <= d < rest.len() && 0 <= q < next(rest[d]).len() && #[trigger] next(rest[d])[q]
                    == head[e] && e == walk(next, rest.take(d)).len() + q;
            assert(rest[d] == nodes[d]);
            assert(rest.take(d) =~= nodes.take(d));
            assert(next(nodes[d])[q] == walk(next, nodes)[e]);
        } else {
            let q = e - head.len();
            assert(next(nodes[last])[q] == walk(next, nodes)[e]);
        }
    }
}

proof fn lemma_walk_grows(next: spec_fn(int) -> Seq<int>, nodes: Seq<int>, a: int, b: int)
    requires
        0 <= a <= b <= nodes.len(),
    ensures
        walk(next, nodes.take(a)).len() <= walk(next, nodes.take(b)).len(),
    decreases b - a,
{
    if a < b {
        lemma_walk_grows(next, nodes, a, b - 1);
        assert(nodes.take(b).drop_last() =~= nodes.take(b - 1));
    }
}

} // verus!
