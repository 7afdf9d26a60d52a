//! What generated and loaded graphs say of their nodes and edges.

use vstd::prelude::*;

use super::graph_gen::{
    edge_lines, neighbours_of, next_turn, node_lines, EdgeData, EdgeGenerator, NodeData, NodeRow,
};
use super::waw_graph::{
    count_inside, count_where, edges_from, inside, place, place_of_id, steps_from, two_hop_steps,
    WawGraph, WawNode,
};
use crate::float::Float32;
use crate::text::digits;

verus! {

/// Whether no two nodes share an id.
pub open spec fn ids_differ(nodes: Seq<NodeData>) -> bool {
    forall|i: int, j: int|
        0 <= i < j < nodes.len() ==> (#[trigger] nodes[i]).id != (#[trigger] nodes[j]).id
}

/// Whether there is a node with an id.
pub open spec fn is_node(nodes: Seq<NodeData>, id: u64) -> bool {
    exists|j: int| 0 <= j < nodes.len() && (#[trigger] nodes[j]).id == id
}

proof fn lemma_place(nodes: Seq<NodeData>, i: int, count: nat)
    requires
        ids_differ(nodes),
        0 <= i < count <= nodes.len(),
        nodes.len() <= usize::MAX,
    ensures
        place_of_id(nodes, nodes[i].id, count) == i,
    decreases count,
{
    if i < count - 1 {
        assert(nodes[i].id != nodes[count - 1].id);
        lemma_place(nodes, i, (count - 1) as nat);
    }
}

/// Where nodes share an id, the last one stands for it. An id without a node
/// leads to the first node.
pub proof fn law_last_node_stands_for_id(nodes: Seq<NodeData>, id: u64, j: int)
    requires
        nodes.len() <= usize::MAX,
    ensures
        is_node(nodes, id) ==> place(nodes, id) < nodes.len() && nodes[place(nodes, id) as int].id
            == id,
        0 <= j < nodes.len() && nodes[j].id == id ==> j <= place(nodes, id),
        !is_node(nodes, id) ==> place(nodes, id) == 0,
{
    lemma_last_place(nodes, id, nodes.len(), j);
    if is_node(nodes, id) {
        let k = choose|k: int| 0 <= k < nodes.len() && (#[trigger] nodes[k]).id == id;
        lemma_last_place(nodes, id, nodes.len(), k);
    }
}

proof fn lemma_last_place(nodes: Seq<NodeData>, id: u64, count: nat, j: int)
    requires
        count <= nodes.len() <= usize::MAX,
    ensures
        0 <= j < count && nodes[j].id == id ==> j <= place_of_id(nodes, id, count) < count
            && nodes[place_of_id(nodes, id, count) as int].id == id,
        !is_node(nodes, id) ==> place_of_id(nodes, id, count) == 0,
    decreases count,
{
    if count > 0 {
        lemma_last_place(nodes, id, (count - 1) as nat, j);
        if nodes[count - 1].id == id {
            assert(is_node(nodes, id));
        }
    }
}

/// A loaded graph has the nodes at their places with their positions. Each node
/// lists the edges that start at it, in their order and no others, and each edge
/// leads to the node with its target's id.
pub proof fn law_loaded_nodes_list_edges(
    graph: WawGraph,
    nodes: Seq<NodeData>,
    edges: Seq<EdgeData>,
    i: int,
    e: int,
    p: int,
    q: int,
)
    requires
        graph.holds(nodes, edges),
        ids_differ(nodes),
        0 <= i < nodes.len() <= usize::MAX,
        0 <= e < edges.len() <= usize::MAX,
        0 <= p < q,
    ensures
        graph.nodes@.len() == nodes.len(),
        graph.nodes@[i].x == nodes[i].x,
        graph.nodes@[i].y == nodes[i].y,
        graph.edges@.len() == edges.len(),
        is_node(nodes, edges[e].source) ==> (graph.nodes@[i].edges@.contains(e as usize)
            <==> edges[e].source == nodes[i].id),
        edges[e].target == nodes[i].id ==> graph.edges@[e].target == i,
        q < graph.nodes@[i].edges@.len() ==> graph.nodes@[i].edges@[p] < graph.nodes@[i].edges@[q]
            && graph.nodes@[i].edges@[q] < edges.len(),
{
    let x = graph.nodes@[i];
    let y = graph.edges@[e];
    lemma_edges_of_node(nodes, edges, i, edges.len(), e, p, q);
    lemma_place(nodes, i, nodes.len());
    if is_node(nodes, edges[e].source) {
        let j = choose|j: int| 0 <= j < nodes.len() && (#[trigger] nodes[j]).id == edges[e].source;
        lemma_place(nodes, j, nodes.len());
        if nodes[j].id == nodes[i].id && i != j {
            if i < j {
                assert(nodes[i].id != nodes[j].id);
            } else {
                assert(nodes[j].id != nodes[i].id);
            }
        }
    }
}

proof fn lemma_edges_of_node(
    nodes: Seq<NodeData>,
    edges: Seq<EdgeData>,
    i: int,
    count: nat,
    e: int,
    p: int,
    q: int,
)
    requires
        count <= usize::MAX,
        0 <= p < q,
        0 <= e,
    ensures
        ({
            let list = edges_from(nodes, edges, i, count);
            &&& e <= usize::MAX ==> (list.contains(e as usize) <==> e < count && place(
                nodes,
                edges[e].source,
            ) == i)
            &&& q < list.len() ==> list[p] < list[q] && list[q] < count
            &&& p < list.len() ==> list[p] < count
        }),
    decreases count,
{
    if count > 0 {
        lemma_edges_of_node(nodes, edges, i, (count - 1) as nat, e, p, q);
        let head = edges_from(nodes, edges, i, (count - 1) as nat);
        let list = edges_from(nodes, edges, i, count);
        let last = (count - 1) as usize;
        if e <= usize::MAX {
            if head.contains(e as usize) {
                let k = choose|k: int| 0 <= k < head.len() && head[k] == e as usize;
                assert(list[k] == e as usize);
            }
            if list.contains(e as usize) && e != last {
                let k = choose|k: int| 0 <= k < list.len() && list[k] == e as usize;
                assert(head[k] == e as usize);
            }
            if place(nodes, edges[count - 1].source) == i {
                assert(list[head.len() as int] == last);
            }
        }
    }
}

/// How many of the first `count` nodes have both coordinates between the bounds.
pub open spec fn nodes_between(
    nodes: Seq<WawNode>,
    count: nat,
    min_x: Float32,
    min_y: Float32,
    max_x: Float32,
    max_y: Float32,
) -> nat
    decreases count,
{
    if count == 0 {
        0
    } else {
        let x = nodes[count - 1].x;
        let y = nodes[count - 1].y;
        nodes_between(nodes, (count - 1) as nat, min_x, min_y, max_x, max_y) + if !x.is_nan()
            && !y.is_nan() && !min_x.is_nan() && !min_y.is_nan() && !max_x.is_nan()
            && !max_y.is_nan() && min_x.rank() <= x.rank() && x.rank() <= max_x.rank()
            && min_y.rank() <= y.rank() && y.rank() <= max_y.rank() {
            1nat
        } else {
            0nat
        }
    }
}

/// A count of the nodes in a rectangle compares both coordinates of each node
/// with the bounds.
pub proof fn law_viewport_counts_nodes(
    nodes: Seq<WawNode>,
    min_x: Float32,
    min_y: Float32,
    max_x: Float32,
    max_y: Float32,
)
    ensures
        count_inside(nodes, min_x, min_y, max_x, max_y) == nodes_between(
            nodes,
            nodes.len(),
            min_x,
            min_y,
            max_x,
            max_y,
        ),
{
    lemma_counts(nodes, nodes.len(), min_x, min_y, max_x, max_y);
}

proof fn lemma_counts(
    nodes: Seq<WawNode>,
    count: nat,
    min_x: Float32,
    min_y: Float32,
    max_x: Float32,
    max_y: Float32,
)
    ensures
        count_where(count, |i: int| inside(nodes[i], min_x, min_y, max_x, max_y)) == nodes_between(
            nodes,
            count,
            min_x,
            min_y,
            max_x,
            max_y,
        ),
    decreases count,
{
    if count > 0 {
        lemma_counts(nodes, (count - 1) as nat, min_x, min_y, max_x, max_y);
    }
}

/// How many of the first `count` edges start at a node.
pub open spec fn starting_at(edges: Seq<EdgeData>, id: u64, count: nat) -> nat
    decreases count,
{
    if count == 0 {
        0
    } else {
        starting_at(edges, id, (count - 1) as nat) + if edges[count - 1].source == id {
            1nat
        } else {
            0nat
        }
    }
}

/// How many pairs there are of one of the first `count` edges, started at a
/// node, and an edge that starts where it ends.
pub open spec fn pairs_from(edges: Seq<EdgeData>, id: u64, count: nat) -> nat
    decreases count,
{
    if count == 0 {
        0
    } else {
        pairs_from(edges, id, (count - 1) as nat) + if edges[count - 1].source == id {
            starting_at(edges, edges[count - 1].target, edges.len())
        } else {
            0nat
        }
    }
}

/// A traversal of two steps counts the edges that start at the node, and the
/// pairs of such an edge and one that goes on from its end.
pub proof fn law_two_hops_count_edges(
    graph: WawGraph,
    nodes: Seq<NodeData>,
    edges: Seq<EdgeData>,
    start: int,
)
    requires
        graph.holds(nodes, edges),
        ids_differ(nodes),
        0 <= start < nodes.len() <= usize::MAX,
        edges.len() <= usize::MAX,
        forall|e: int|
            0 <= e < edges.len() ==> is_node(nodes, (#[trigger] edges[e]).source) && is_node(
                nodes,
                edges[e].target,
            ),
    ensures
        two_hop_steps(graph, start) == starting_at(edges, nodes[start].id, edges.len())
            + pairs_from(edges, nodes[start].id, edges.len()),
{
    lemma_degree(nodes, edges, start, edges.len());
    lemma_steps(graph, nodes, edges, start, edges.len());
    let x = graph.nodes@[start];
    assert(edges_from(nodes, edges, start, edges.len()) =~= x.edges@);
}

proof fn lemma_known_place(nodes: Seq<NodeData>, id: u64, i: int)
    requires
        ids_differ(nodes),
        0 <= i < nodes.len() <= usize::MAX,
        is_node(nodes, id),
    ensures
        place(nodes, id) == i <==> id == nodes[i].id,
        place(nodes, id) < nodes.len(),
        nodes[place(nodes, id) as int].id == id,
{
    let j = choose|j: int| 0 <= j < nodes.len() && (#[trigger] nodes[j]).id == id;
    lemma_place(nodes, j, nodes.len());
    lemma_place(nodes, i, nodes.len());
}

proof fn lemma_degree(nodes: Seq<NodeData>, edges: Seq<EdgeData>, i: int, count: nat)
    requires
        ids_differ(nodes),
        0 <= i < nodes.len() <= usize::MAX,
        count <= edges.len(),
        forall|e: int| 0 <= e < edges.len() ==> is_node(nodes, (#[trigger] edges[e]).source),
    ensures
        edges_from(nodes, edges, i, count).len() == starting_at(edges, nodes[i].id, count),
    decreases count,
{
    if count > 0 {
        lemma_degree(nodes, edges, i, (count - 1) as nat);
        let edge = edges[count - 1];
        lemma_known_place(nodes, edge.source, i);
    }
}

proof fn lemma_steps(
    graph: WawGraph,
    nodes: Seq<NodeData>,
    edges: Seq<EdgeData>,
    start: int,
    count: nat,
)
    requires
        graph.holds(nodes, edges),
        ids_differ(nodes),
        0 <= start < nodes.len() <= usize::MAX,
        edges.len() <= usize::MAX,
        count <= edges.len(),
        forall|e: int|
            0 <= e < edges.len() ==> is_node(nodes, (#[trigger] edges[e]).source) && is_node(
                nodes,
                edges[e].target,
            ),
    ensures
        edges_from(nodes, edges, start, count).len() <= graph.nodes@[start].edges@.len(),
        steps_from(graph, start, edges_from(nodes, edges, start, count).len()) == starting_at(
            edges,
            nodes[start].id,
            count,
        ) + pairs_from(edges, nodes[start].id, count),
    decreases count,
{
    lemma_prefix(nodes, edges, start, count, edges.len());
    let all = graph.nodes@[start].edges@;
    assert(all == edges_from(nodes, edges, start, edges.len()));
    if count > 0 {
        lemma_steps(graph, nodes, edges, start, (count - 1) as nat);
        let head = edges_from(nodes, edges, start, (count - 1) as nat);
        let list = edges_from(nodes, edges, start, count);
        let edge = edges[count - 1];
        lemma_known_place(nodes, edge.source, start);
        if edge.source == nodes[start].id {
            assert(list[head.len() as int] == count - 1);
            assert(all[head.len() as int] == list[head.len() as int]);
            lemma_known_place(nodes, edge.target, start);
            let t = place(nodes, edge.target) as int;
            assert(graph.edges@[count - 1].target == t);
            lemma_degree(nodes, edges, t, edges.len());
            assert(graph.nodes@[t].edges@ == edges_from(nodes, edges, t, edges.len()));
        }
    }
}

proof fn lemma_prefix(nodes: Seq<NodeData>, edges: Seq<EdgeData>, i: int, a: nat, b: nat)
    requires
        a <= b,
    ensures
        edges_from(nodes, edges, i, a).len() <= edges_from(nodes, edges, i, b).len(),
        forall|k: int|
            0 <= k < edges_from(nodes, edges, i, a).len() ==> #[trigger] edges_from(
                nodes,
                edges,
                i,
                a,
            )[k] == edges_from(nodes, edges, i, b)[k],
    decreases b,
{
    if a < b {
        lemma_prefix(nodes, edges, i, a, (b - 1) as nat);
    }
}

/// The neighbours of a node are the nodes of its cluster with other ids, in
/// their order.
pub proof fn law_neighbours_share_cluster(nodes: Seq<NodeData>, at: int, j: usize, p: int, q: int)
    requires
        0 <= at < nodes.len() <= usize::MAX,
        0 <= p < q,
    ensures
        ({
            let close = neighbours_of(nodes, at, nodes.len());
            &&& close.contains(j) <==> j < nodes.len() && nodes[j as int].cluster
                == nodes[at].cluster && nodes[j as int].id != nodes[at].id
            &&& q < close.len() ==> close[p] < close[q]
        }),
{
    lemma_neighbours(nodes, at, nodes.len(), j, p, q);
}

proof fn lemma_neighbours(
    nodes: Seq<NodeData>,
    at: int,
    count: nat,
    j: usize,
    p: int,
    q: int,
)
    requires
        count <= nodes.len() <= usize::MAX,
        0 <= p < q,
    ensures
        ({
            let close = neighbours_of(nodes, at, count);
            &&& close.contains(j) <==> j < count && nodes[j as int].cluster == nodes[at].cluster
                && nodes[j as int].id != nodes[at].id
            &&& q < close.len() ==> close[p] < close[q]
            &&& p < close.len() ==> close[p] < count
        }),
    decreases count,
{
    if count > 0 {
        lemma_neighbours(nodes, at, (count - 1) as nat, j, p, q);
        let head = neighbours_of(nodes, at, (count - 1) as nat);
        let close = neighbours_of(nodes, at, count);
        let last = (count - 1) as usize;
        if head.contains(j) {
            let k = choose|k: int| 0 <= k < head.len() && head[k] == j;
            assert(close[k] == j);
        }
        if close.contains(j) && j != last {
            let k = choose|k: int| 0 <= k < close.len() && close[k] == j;
            assert(head[k] == j);
        }
        if close.len() > head.len() {
            assert(close[head.len() as int] == last);
        }
    }
}

/// A node keeps its turn as long as it has tries left. Then the next node with a
/// degree above 0 comes, with that many tries. There is no turn when there are
/// enough edges, or no such node is left.
pub proof fn law_turns_go_round(degrees: Seq<u64>, enough: bool, node: int, remaining: u64, j: int)
    requires
        0 <= node <= degrees.len(),
    ensures
        ({
            let (at, left) = next_turn(degrees, enough, node, remaining);
            &&& node <= at <= degrees.len()
            &&& enough ==> at == degrees.len()
            &&& at == degrees.len() ==> left == 0
            &&& !enough && node < degrees.len() && remaining > 0 ==> at == node && left == remaining
            &&& !enough && node < degrees.len() && remaining == 0 && at < degrees.len() ==> at > node
                && left == degrees[at] && left > 0
            &&& !enough && remaining == 0 && node < j < at ==> degrees[j] == 0
        }),
    decreases degrees.len() - node,
{
    if !enough && node < degrees.len() && remaining == 0 {
        let more = if node + 1 < degrees.len() {
            degrees[node + 1]
        } else {
            0
        };
        law_turns_go_round(degrees, enough, node + 1, more, j);
    }
}

/// A try that hits another node adds one edge from the node whose turn it is to
/// that node. A try that hits the node itself adds none. Either way one try is
/// used, and the nodes and their degrees stay.
pub proof fn law_try_adds_one_edge(before: EdgeGenerator, target: int, after: EdgeGenerator)
    requires
        before.wf(),
        before.node < before.nodes@.len(),
        0 <= target < before.nodes@.len(),
        before.hits(target, after),
    ensures
        after.nodes@ == before.nodes@,
        after.degrees@ == before.degrees@,
        after.total == before.total,
        target == before.node ==> after.edges@ == before.edges@,
        target != before.node ==> {
            &&& after.edges@.len() == before.edges@.len() + 1
            &&& after.edges@.take(before.edges@.len() as int) == before.edges@
            &&& after.edges@.last().source == before.nodes@[before.node as int].id
            &&& after.edges@.last().target == before.nodes@[target].id
        },
        after.edges@.len() >= after.total ==> after.node == after.nodes@.len(),
        after.edges@.len() < after.total && before.remaining > 1 ==> after.node == before.node
            && after.remaining == before.remaining - 1,
{
    law_turns_go_round(
        before.degrees@,
        after.edges@.len() >= before.total,
        before.node as int,
        (before.remaining - 1) as u64,
        0,
    );
    assert(before.edges@.take(before.edges@.len() as int) =~= before.edges@);
    if target != before.node {
        assert(after.edges@.take(before.edges@.len() as int) =~= before.edges@);
    }
}

/// A try looks at the cluster of the node if it is asked to and the node is not
/// alone there: it then hits another node of the same cluster.
pub proof fn law_near_try_stays_in_cluster(generator: EdgeGenerator, near: bool, target: int)
    requires
        generator.node < generator.nodes@.len(),
        generator.may_hit(near, target),
        generator.nodes@.len() <= usize::MAX,
    ensures
        0 <= target < generator.nodes@.len(),
        near && (exists|j: int|
            0 <= j < generator.nodes@.len() && (#[trigger] generator.nodes@[j]).cluster
                == generator.nodes@[generator.node as int].cluster && generator.nodes@[j].id
                != generator.nodes@[generator.node as int].id)
            ==> generator.nodes@[target].cluster
            == generator.nodes@[generator.node as int].cluster && generator.nodes@[target].id
            != generator.nodes@[generator.node as int].id,
{
    let nodes = generator.nodes@;
    let at = generator.node as int;
    let close = neighbours_of(nodes, at, nodes.len());
    if near && exists|j: int|
        0 <= j < nodes.len() && (#[trigger] nodes[j]).cluster == nodes[at].cluster && nodes[j].id
            != nodes[at].id {
        let j = choose|j: int|
            0 <= j < nodes.len() && (#[trigger] nodes[j]).cluster == nodes[at].cluster
                && nodes[j].id != nodes[at].id;
        law_neighbours_share_cluster(nodes, at, j as usize, 0, 1);
        assert(close.contains(j as usize));
        assert(close.len() > 0);
        law_neighbours_share_cluster(nodes, at, target as usize, 0, 1);
    }
}

/// The lines for an import hold one line for each node and each edge, in their
/// order: the fields with commas between them, and the end of the line.
pub proof fn law_lines_hold_rows(rows: Seq<NodeRow>, edges: Seq<EdgeData>, k: nat, n: nat)
    requires
        k < n,
    ensures
        ({
            let row = rows[k as int];
            let line = digits(row.id as nat, 10) + seq![','] + row.x@ + seq![','] + row.y@
                + seq![','] + digits(row.cluster as nat, 10) + seq!['\n'];
            let at = node_lines(rows, k).len();
            &&& at + line.len() <= node_lines(rows, n).len()
            &&& node_lines(rows, n).subrange(at as int, (at + line.len()) as int) == line
            &&& k + 1 == n ==> node_lines(rows, n).len() == at + line.len()
        }),
        ({
            let edge = edges[k as int];
            let line = digits(edge.source as nat, 10) + seq![','] + digits(edge.target as nat, 10)
                + ",CONNECTS"@ + seq!['\n'];
            let at = edge_lines(edges, k).len();
            &&& at + line.len() <= edge_lines(edges, n).len()
            &&& edge_lines(edges, n).subrange(at as int, (at + line.len()) as int) == line
            &&& k + 1 == n ==> edge_lines(edges, n).len() == at + line.len()
        }),
    decreases n,
{
    reveal_strlit(",");
    reveal_strlit("\n");
    reveal_strlit(",CONNECTS");
    reveal_strlit(",CONNECTS\n");
    assert(","@ =~= seq![',']);
    assert("\n"@ =~= seq!['\n']);
    assert(",CONNECTS\n"@ =~= ",CONNECTS"@ + seq!['\n']);
    let row = rows[k as int];
    let line = digits(row.id as nat, 10) + seq![','] + row.x@ + seq![','] + row.y@ + seq![',']
        + digits(row.cluster as nat, 10) + seq!['\n'];
    let edge = edges[k as int];
    let other = digits(edge.source as nat, 10) + seq![','] + digits(edge.target as nat, 10)
        + ",CONNECTS"@ + seq!['\n'];
    let at = node_lines(rows, k).len() as int;
    let bt = edge_lines(edges, k).len() as int;
    if k + 1 == n {
        assert(node_lines(rows, n) =~= node_lines(rows, k) + line);
        assert(edge_lines(edges, n) =~= edge_lines(edges, k) + other);
        assert(node_lines(rows, n).subrange(at, at + line.len()) =~= line);
        assert(edge_lines(edges, n).subrange(bt, bt + other.len()) =~= other);
    } else {
        let m = (n - 1) as nat;
        law_lines_hold_rows(rows, edges, k, m);
        assert(node_lines(rows, n).subrange(at, at + line.len()) =~= node_lines(rows, m).subrange(
            at,
            at + line.len(),
        ));
        assert(edge_lines(edges, n).subrange(bt, bt + other.len()) =~= edge_lines(
            edges,
            m,
        ).subrange(bt, bt + other.len()));
    }
}

} // verus!
