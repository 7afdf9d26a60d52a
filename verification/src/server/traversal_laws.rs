//! What a breadth-first order holds.

use vstd::prelude::*;

use super::traversal::{bfs_order, discover, lemma_push_contains, levels, walk};

verus! {

/// Nodes that can be reached from `start` in at most `steps` steps.
pub open spec fn reach(next: spec_fn(int) -> Seq<int>, start: int, steps: nat) -> Set<int>
    decreases steps,
{
    if steps == 0 {
        Set::empty().insert(start)
    } else {
        let nearer = reach(next, start, (steps - 1) as nat);
        Set::new(
            |node: int|
                nearer.contains(node) || exists|via: int| #[trigger]
                    nearer.contains(via) && next(via).contains(node),
        )
    }
}

/// Whether `node` can be reached from `start` in at most `steps` steps.
pub open spec fn reachable(
    next: spec_fn(int) -> Seq<int>,
    start: int,
    steps: nat,
    node: int,
) -> bool {
    reach(next, start, steps).contains(node)
}

/// What can be reached in some number of steps can be reached in more.
pub proof fn lemma_reachable_longer(
    next: spec_fn(int) -> Seq<int>,
    start: int,
    few: nat,
    many: nat,
    node: int,
)
    requires
        few <= many,
        reachable(next, start, few, node),
    ensures
        reachable(next, start, many, node),
    decreases many,
{
    if few < many {
        lemma_reachable_longer(next, start, few, (many - 1) as nat, node);
    }
}

proof fn lemma_one_step_more(
    next: spec_fn(int) -> Seq<int>,
    start: int,
    steps: nat,
    node: int,
)
    ensures
        reachable(next, start, steps + 1, node) <==> {
            ||| reachable(next, start, steps, node)
            ||| exists|via: int| #[trigger]
                reachable(next, start, steps, via) && next(via).contains(node)
        },
{
    let nearer = reach(next, start, steps);
    assert(((steps + 1) - 1) as nat == steps);
    if reachable(next, start, steps + 1, node) && !reachable(next, start, steps, node) {
        let via = choose|via: int| #[trigger] nearer.contains(via) && next(via).contains(node);
        assert(reachable(next, start, steps, via));
    }
}

/// The order starts with the start.
pub proof fn law_bfs_starts_at_start(
    next: spec_fn(int) -> Seq<int>,
    start: int,
    seen: Set<int>,
    depth: nat,
)
    ensures
        bfs_order(next, start, seen, depth).len() >= 1,
        bfs_order(next, start, seen, depth)[0] == start,
{
}

/// From a clean slate, the order holds exactly the nodes within reach.
pub proof fn law_bfs_holds_reachable(
    next: spec_fn(int) -> Seq<int>,
    start: int,
    depth: nat,
    node: int,
)
    ensures
        bfs_order(next, start, Set::empty(), depth).contains(node) <==> reachable(
            next,
            start,
            depth,
            node,
        ),
{
    lemma_levels_from_start(next, start, depth);
    let rest = levels(next, seq![start], Set::empty().insert(start), depth);
    let order = bfs_order(next, start, Set::empty(), depth);
    lemma_concat_contains(seq![start], rest, node);
    assert(seq![start][0] == start);
    if reachable(next, start, 0, node) {
        lemma_reachable_longer(next, start, 0, depth, node);
    }
}

/// From a clean slate, no node comes twice.
pub proof fn law_bfs_visits_once(next: spec_fn(int) -> Seq<int>, start: int, depth: nat)
    ensures
        bfs_order(next, start, Set::empty(), depth).no_duplicates(),
{
    lemma_levels_from_start(next, start, depth);
    let rest = levels(next, seq![start], Set::empty().insert(start), depth);
    assert forall|a: int, b: int| 0 <= a < rest.len() && b == 0 implies rest[a] != seq![start][b] by {
        assert(rest.contains(rest[a]));
        assert(!reachable(next, start, 0, rest[a]));
    }
}

/// From a clean slate, a node never comes before one that is nearer.
pub proof fn law_bfs_nearest_first(
    next: spec_fn(int) -> Seq<int>,
    start: int,
    depth: nat,
    earlier: int,
    later: int,
    steps: nat,
)
    requires
        0 <= earlier <= later < bfs_order(next, start, Set::empty(), depth).len(),
        reachable(next, start, steps, bfs_order(next, start, Set::empty(), depth)[later]),
    ensures
        reachable(next, start, steps, bfs_order(next, start, Set::empty(), depth)[earlier]),
{
    lemma_levels_from_start(next, start, depth);
    let rest = levels(next, seq![start], Set::empty().insert(start), depth);
    let order = bfs_order(next, start, Set::empty(), depth);
    if earlier == 0 {
        lemma_reachable_longer(next, start, 0, steps, start);
    } else {
        assert(order[earlier] == rest[earlier - 1]);
        assert(order[later] == rest[later - 1]);
    }
}

/// A deeper traversal extends a shallower one.
pub proof fn law_bfs_deeper_extends(
    next: spec_fn(int) -> Seq<int>,
    start: int,
    seen: Set<int>,
    few: nat,
    many: nat,
)
    requires
        few <= many,
    ensures
        bfs_order(next, start, seen, few).is_prefix_of(bfs_order(next, start, seen, many)),
{
    lemma_levels_extend(next, seq![start], seen.insert(start), few, many);
    let short = levels(next, seq![start], seen.insert(start), few);
    let long = levels(next, seq![start], seen.insert(start), many);
    assert(bfs_order(next, start, seen, few) =~= bfs_order(next, start, seen, many).subrange(
        0,
        bfs_order(next, start, seen, few).len() as int,
    )) by {
        assert forall|i: int| 0 <= i < short.len() implies short[i] == long[i] by {
            assert(long.subrange(0, short.len() as int)[i] == long[i]);
        }
    }
}

proof fn lemma_levels_extend(
    next: spec_fn(int) -> Seq<int>,
    level: Seq<int>,
    seen: Set<int>,
    few: nat,
    many: nat,
)
    requires
        few <= many,
    ensures
        levels(next, level, seen, few).is_prefix_of(levels(next, level, seen, many)),
    decreases few,
{
    let short = levels(next, level, seen, few);
    let long = levels(next, level, seen, many);
    if few == 0 {
        assert(short =~= long.subrange(0, 0));
    } else {
        let found = discover(walk(next, level), seen);
        let seen2 = seen.union(found.to_set());
        lemma_levels_extend(next, found, seen2, (few - 1) as nat, (many - 1) as nat);
        let a = levels(next, found, seen2, (few - 1) as nat);
        let b = levels(next, found, seen2, (many - 1) as nat);
        assert(short == found + a);
        assert(long == found + b);
        assert(a =~= b.subrange(0, a.len() as int));
        assert(short =~= long.subrange(0, short.len() as int)) by {
            assert forall|i: int| 0 <= i < short.len() implies short[i] == long[i] by {
                if i >= found.len() {
                    assert(b.subrange(0, a.len() as int)[i - found.len()] == b[i - found.len()]);
                }
            }
        }
    }
}

proof fn lemma_concat_contains(a: Seq<int>, b: Seq<int>, x: int)
    ensures
        (a + b).contains(x) <==> a.contains(x) || b.contains(x),
{
    let c = a + b;
    if a.contains(x) {
        let k = choose|k: int| 0 <= k < a.len() && a[k] == x;
        assert(c[k] == x);
    }
    if b.contains(x) {
        let k = choose|k: int| 0 <= k < b.len() && b[k] == x;
        assert(c[a.len() + k] == x);
    }
    if c.contains(x) {
        let k = choose|k: int| 0 <= k < c.len() && c[k] == x;
        if k < a.len() {
            assert(a[k] == x);
        } else {
            assert(b[k - a.len()] == x);
        }
    }
}

proof fn lemma_walk_contains(next: spec_fn(int) -> Seq<int>, nodes: Seq<int>, x: int)
    ensures
        walk(next, nodes).contains(x) <==> exists|via: int| #[trigger]
            nodes.contains(via) && next(via).contains(x),
    decreases nodes.len(),
{
    if nodes.len() > 0 {
        let head = nodes.drop_last();
        let last = nodes.last();
        lemma_walk_contains(next, head, x);
        lemma_concat_contains(walk(next, head), next(last), x);
        assert(nodes =~= head.push(last));
        if walk(next, head).contains(x) {
            let via = choose|via: int| #[trigger] head.contains(via) && next(via).contains(x);
            lemma_push_contains(head, last, via);
        }
        if next(last).contains(x) {
            lemma_push_contains(head, last, last);
        }
        if exists|via: int| #[trigger] nodes.contains(via) && next(via).contains(x) {
            let via = choose|via: int| #[trigger] nodes.contains(via) && next(via).contains(x);
            lemma_push_contains(head, last, via);
        }
    }
}

/// Discovery keeps what was not seen, each once.
pub proof fn lemma_discover(found: Seq<int>, seen: Set<int>)
    ensures
        discover(found, seen).no_duplicates(),
        forall|x: int|
            #![trigger discover(found, seen).contains(x)]
            discover(found, seen).contains(x) <==> found.contains(x) && !seen.contains(x),
    decreases found.len(),
{
    if found.len() > 0 {
        let head = found.drop_last();
        let last = found.last();
        lemma_discover(head, seen);
        let fresh = discover(head, seen);
        assert(found =~= head.push(last));
        assert forall|x: int|
            #![trigger discover(found, seen).contains(x)]
            discover(found, seen).contains(x) <==> found.contains(x) && !seen.contains(x) by {
            lemma_push_contains(head, last, x);
            lemma_push_contains(fresh, last, x);
            assert(fresh.contains(x) <==> head.contains(x) && !seen.contains(x));
        }
    }
}

/// Whether `seen` holds what is within `steps` steps, and `level` what is
/// exactly that far.
spec fn frontier(
    next: spec_fn(int) -> Seq<int>,
    start: int,
    level: Seq<int>,
    seen: Set<int>,
    steps: nat,
) -> bool {
    &&& forall|j: int| #[trigger] seen.contains(j) <==> reachable(next, start, steps, j)
    &&& forall|j: int| #[trigger]
        level.contains(j) <==> reachable(next, start, steps, j) && (steps == 0 || !reachable(
            next,
            start,
            (steps - 1) as nat,
            j,
        ))
}

proof fn lemma_next_frontier(
    next: spec_fn(int) -> Seq<int>,
    start: int,
    level: Seq<int>,
    seen: Set<int>,
    steps: nat,
)
    requires
        frontier(next, start, level, seen, steps),
    ensures
        ({
            let found = discover(walk(next, level), seen);
            &&& found.no_duplicates()
            &&& frontier(next, start, found, seen.union(found.to_set()), steps + 1)
        }),
{
    let reached = walk(next, level);
    let found = discover(reached, seen);
    lemma_discover(reached, seen);
    assert forall|j: int| #[trigger] found.contains(j) <==> reachable(next, start, steps + 1, j)
        && !reachable(next, start, steps, j) by {
        lemma_walk_contains(next, level, j);
        lemma_one_step_more(next, start, steps, j);
        if steps > 0 {
            lemma_one_step_more(next, start, (steps - 1) as nat, j);
        }
        assert(found.contains(j) <==> reached.contains(j) && !seen.contains(j));
        assert(seen.contains(j) <==> reachable(next, start, steps, j));
        if reached.contains(j) {
            let via = choose|via: int| #[trigger] level.contains(via) && next(via).contains(j);
            assert(reachable(next, start, steps, via));
            assert(reachable(next, start, steps + 1, j));
        }
        if reachable(next, start, steps + 1, j) && !reachable(next, start, steps, j) {
            let via = choose|via: int| #[trigger]
                reachable(next, start, steps, via) && next(via).contains(j);
            if steps > 0 && reachable(next, start, (steps - 1) as nat, via) {
                assert(reachable(next, start, steps, j));
            }
            assert(level.contains(via));
        }
    }
    assert forall|j: int| #[trigger]
        seen.union(found.to_set()).contains(j) <==> reachable(next, start, steps + 1, j) by {
        assert(found.to_set().contains(j) <==> found.contains(j));
        assert(seen.contains(j) <==> reachable(next, start, steps, j));
        if reachable(next, start, steps, j) {
            lemma_reachable_longer(next, start, steps, steps + 1, j);
        }
    }
}

proof fn lemma_levels(
    next: spec_fn(int) -> Seq<int>,
    start: int,
    level: Seq<int>,
    seen: Set<int>,
    steps: nat,
    depth: nat,
)
    requires
        frontier(next, start, level, seen, steps),
    ensures
        levels(next, level, seen, depth).no_duplicates(),
        forall|j: int|
            #![trigger levels(next, level, seen, depth).contains(j)]
            levels(next, level, seen, depth).contains(j) <==> reachable(
                next,
                start,
                steps + depth,
                j,
            ) && !reachable(next, start, steps, j),
        forall|a: int, b: int, m: nat|
            0 <= a <= b < levels(next, level, seen, depth).len() && #[trigger] reachable(
                next,
                start,
                m,
                levels(next, level, seen, depth)[b],
            ) ==> reachable(next, start, m, #[trigger] levels(next, level, seen, depth)[a]),
    decreases depth,
{
    let all = levels(next, level, seen, depth);
    if depth == 0 {
        assert(all =~= Seq::<int>::empty());
    } else {
        let found = discover(walk(next, level), seen);
        let seen2 = seen.union(found.to_set());
        let rest = levels(next, found, seen2, (depth - 1) as nat);
        lemma_next_frontier(next, start, level, seen, steps);
        lemma_levels(next, start, found, seen2, steps + 1, (depth - 1) as nat);
        assert(all == found + rest);
        assert forall|j: int| #[trigger] all.contains(j) <==> reachable(
            next,
            start,
            steps + depth,
            j,
        ) && !reachable(next, start, steps, j) by {
            lemma_concat_contains(found, rest, j);
            assert(found.contains(j) <==> reachable(next, start, steps + 1, j) && !reachable(
                next,
                start,
                steps,
                j,
            ));
            assert(rest.contains(j) <==> reachable(next, start, steps + depth, j) && !reachable(
                next,
                start,
                steps + 1,
                j,
            ));
            if reachable(next, start, steps + 1, j) {
                lemma_reachable_longer(next, start, steps + 1, steps + depth, j);
            }
            if reachable(next, start, steps, j) {
                lemma_reachable_longer(next, start, steps, steps + 1, j);
            }
        }
        assert(all.no_duplicates()) by {
            assert forall|a: int, b: int| 0 <= a < found.len() && 0 <= b < rest.len() implies found[a]
                != rest[b] by {
                assert(found.contains(found[a]));
                assert(rest.contains(rest[b]));
            }
        }
        assert forall|a: int, b: int, m: nat|
            0 <= a <= b < all.len() && #[trigger] reachable(
                next,
                start,
                m,
                all[b],
            ) implies reachable(next, start, m, #[trigger] all[a]) by {
            if b < found.len() {
                assert(found.contains(found[a]) && found.contains(found[b]));
                if m <= steps {
                    lemma_reachable_longer(next, start, m, steps, all[b]);
                }
                lemma_reachable_longer(next, start, steps + 1, m, all[a]);
            } else if a < found.len() {
                assert(found.contains(found[a]));
                assert(rest.contains(rest[b - found.len()]));
                if m <= steps + 1 {
                    lemma_reachable_longer(next, start, m, steps + 1, all[b]);
                }
                lemma_reachable_longer(next, start, steps + 1, m, all[a]);
            } else {
                assert(all[a] == rest[a - found.len()]);
                assert(all[b] == rest[b - found.len()]);
            }
        }
    }
}

proof fn lemma_levels_from_start(next: spec_fn(int) -> Seq<int>, start: int, depth: nat)
    ensures
        ({
            let rest = levels(next, seq![start], Set::empty().insert(start), depth);
            &&& rest.no_duplicates()
            &&& forall|j: int| #[trigger]
                rest.contains(j) <==> reachable(next, start, depth, j) && !reachable(
                    next,
                    start,
                    0,
                    j,
                )
            &&& forall|a: int, b: int, m: nat|
                0 <= a <= b < rest.len() && #[trigger] reachable(next, start, m, rest[b])
                    ==> reachable(next, start, m, #[trigger] rest[a])
        }),
{
    assert forall|j: int| seq![start].contains(j) <==> j == start by {
        assert(seq![start][0] == start);
    }
    assert(frontier(next, start, seq![start], Set::empty().insert(start), 0));
    lemma_levels(next, start, seq![start], Set::empty().insert(start), 0, depth);
}

} // verus!
