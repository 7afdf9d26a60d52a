//! Random graphs.

use rand::RngExt;
use vstd::prelude::*;
use vstd::string::StringExecFns;

use crate::float::{Float32, Float64};
use crate::text::{decimal, digits, same_text};

verus! {

/// A node with its position and the cluster that it belongs to.
#[derive(Clone, Copy, Debug)]
pub struct NodeData {
    pub id: u64,
    pub x: Float32,
    pub y: Float32,
    pub cluster: u32,
}

/// A directed edge between two nodes.
#[derive(Clone, Copy, Debug, PartialEq, Eq, Structural)]
pub struct EdgeData {
    pub source: u64,
    pub target: u64,
}

/// Parameters of a graph.
#[derive(Clone, Copy, Debug)]
pub struct GraphConfig {
    pub node_count: u64,
    /// Average number of edges that leave a node.
    pub avg_degree: u32,
    /// Number of clusters of positions.
    pub clusters: u32,
    /// Shape of the Pareto distribution of the degrees.
    pub pareto_shape: Float64,
    pub seed: u64,
}

impl Default for GraphConfig {
    fn default() -> (r: Self)
        ensures
            r.node_count == 10000,
            r.avg_degree == 5,
            r.clusters == 8,
            r.pareto_shape.bits == 0x4000_0000_0000_0000,
            r.seed == 42,
    {
        GraphConfig {
            node_count: 10000,
            avg_degree: 5,
            clusters: 8,
            pareto_shape: Float64 { bits: 0x4000_0000_0000_0000 },
            seed: 42,
        }
    }
}

impl GraphConfig {
    /// Number of edges that the graph is to have at most, if it is a number
    /// of 64 bits.
    pub fn total_edges(&self) -> (r: Option<u64>)
        ensures
            r == if self.node_count * self.avg_degree <= u64::MAX {
                Some((self.node_count * self.avg_degree) as u64)
            } else {
                None
            },
    {
        self.node_count.checked_mul(self.avg_degree as u64)
    }
}

/// Size of a graph.
#[derive(Clone, Copy, Debug, PartialEq, Eq, Structural)]
pub enum GraphScale {
    Nodes1K,
    Nodes10K,
    Nodes100K,
    Nodes1M,
}

impl GraphScale {
    /// Name of a size.
    pub open spec fn name(self) -> Seq<char> {
        match self {
            GraphScale::Nodes1K => "1K"@,
            GraphScale::Nodes10K => "10K"@,
            GraphScale::Nodes100K => "100K"@,
            GraphScale::Nodes1M => "1M"@,
        }
    }

    /// The size with a name.
    pub fn from_str(name: &str) -> (r: Option<Self>)
        ensures
            match r {
                Some(scale) => scale.name() == name@,
                None => forall|scale: GraphScale| #[trigger] scale.name() != name@,
            },
    {
        if same_text(name, "1K") {
            Some(GraphScale::Nodes1K)
        } else if same_text(name, "10K") {
            Some(GraphScale::Nodes10K)
        } else if same_text(name, "100K") {
            Some(GraphScale::Nodes100K)
        } else if same_text(name, "1M") {
            Some(GraphScale::Nodes1M)
        } else {
            None
        }
    }

    /// Name of the size.
    pub fn label(&self) -> (r: &'static str)
        ensures
            r@ == self.name(),
    {
        match self {
            GraphScale::Nodes1K => "1K",
            GraphScale::Nodes10K => "10K",
            GraphScale::Nodes100K => "100K",
            GraphScale::Nodes1M => "1M",
        }
    }

    /// Parameters of a graph of this size.
    pub fn config(&self) -> (r: GraphConfig)
        ensures
            r.node_count == match *self {
                GraphScale::Nodes1K => 1000u64,
                GraphScale::Nodes10K => 10000,
                GraphScale::Nodes100K => 100000,
                GraphScale::Nodes1M => 1000000,
            },
            r.avg_degree == 5,
            r.clusters == 8,
            r.pareto_shape.bits == 0x4000_0000_0000_0000,
            r.seed == 42,
    {
        let node_count: u64 = match self {
            GraphScale::Nodes1K => 1000,
            GraphScale::Nodes10K => 10000,
            GraphScale::Nodes100K => 100000,
            GraphScale::Nodes1M => 1000000,
        };
        let mut config = GraphConfig::default();
        config.node_count = node_count;
        config
    }
}

/// Degree of a node from a sampled one: at most half the number of nodes, and
/// at least one.
pub fn clamp_degree(sampled: u64, node_count: u64) -> (r: u64)
    ensures
        r >= 1,
        sampled >= 1 && node_count >= 2 ==> r == if sampled <= node_count / 2 {
            sampled
        } else {
            node_count / 2
        },
        sampled == 0 || node_count < 2 ==> r == 1,
{
    let half: u64 = node_count / 2;
    let d: u64 = if sampled < half {
        sampled
    } else {
        half
    };
    if d > 1 {
        d
    } else {
        1
    }
}

/// The generator `rand::rngs::StdRng`; nothing is known of its state.
#[verifier::external_type_specification]
#[verifier::external_body]
pub struct ExStdRng(rand::rngs::StdRng);

/// Calls `rand::RngExt::random_range` with the range from 0 to `bound`. The
/// result lies in the range; which number it is rests on chance.
#[verifier::external_body]
fn pick_below(rng: &mut rand::rngs::StdRng, bound: usize) -> (r: usize)
    requires
        bound > 0,
    ensures
        r < bound,
{
    rng.random_range(0..bound)
}

/// The other nodes of the cluster of a node, out of the first `count`.
pub open spec fn neighbours_of(nodes: Seq<NodeData>, at: int, count: nat) -> Seq<usize>
    decreases count,
{
    if count == 0 {
        Seq::empty()
    } else {
        let before = neighbours_of(nodes, at, (count - 1) as nat);
        let other = nodes[count - 1];
        if other.cluster == nodes[at].cluster && other.id != nodes[at].id {
            before.push((count - 1) as usize)
        } else {
            before
        }
    }
}

/// Finds the other nodes of the cluster of a node.
pub fn neighbours(nodes: &Vec<NodeData>, at: usize) -> (r: Vec<usize>)
    requires
        at < nodes@.len(),
    ensures
        r@ == neighbours_of(nodes@, at as int, nodes@.len()),
        forall|i: int| 0 <= i < r@.len() ==> #[trigger] r@[i] < nodes@.len(),
{
    let mut found: Vec<usize> = Vec::new();
    let mut i: usize = 0;
    assert(found@ =~= neighbours_of(nodes@, at as int, 0));
    while i < nodes.len()
        invariant
            i <= nodes@.len(),
            at < nodes@.len(),
            found@ == neighbours_of(nodes@, at as int, i as nat),
            forall|j: int| 0 <= j < found@.len() ==> #[trigger] found@[j] < i,
        decreases nodes@.len() - i,
    {
        if nodes[i].cluster == nodes[at].cluster && nodes[i].id != nodes[at].id {
            found.push(i);
        }
        i = i + 1;
    }
    found
}

/// Whether an edge joins two different nodes.
pub open spec fn joins(nodes: Seq<NodeData>, edge: EdgeData) -> bool {
    exists|i: int, j: int|
        0 <= i < nodes.len() && 0 <= j < nodes.len() && i != j && edge.source == (
        #[trigger] nodes[i]).id && edge.target == (#[trigger] nodes[j]).id
}

/// The node whose edges come next, and how many tries it has left. There is
/// none after the last node, or when there are enough edges.
pub open spec fn next_turn(
    degrees: Seq<u64>,
    enough: bool,
    node: int,
    remaining: u64,
) -> (int, u64)
    decreases degrees.len() - node,
{
    if enough || node >= degrees.len() {
        (degrees.len() as int, 0)
    } else if remaining > 0 {
        (node, remaining)
    } else {
        next_turn(
            degrees,
            enough,
            node + 1,
            if node + 1 < degrees.len() {
                degrees[node + 1]
            } else {
                0
            },
        )
    }
}

/// A generator of edges. Each node in turn tries as many times as its degree
/// says to draw an edge to a random node.
pub struct EdgeGenerator {
    pub nodes: Vec<NodeData>,
    pub degrees: Vec<u64>,
    /// Number of edges that are enough.
    pub total: u64,
    pub edges: Vec<EdgeData>,
    /// Node whose turn it is.
    pub node: usize,
    /// Number of tries that it has left.
    pub remaining: u64,
}

impl EdgeGenerator {
    pub open spec fn wf(self) -> bool {
        &&& self.degrees@.len() == self.nodes@.len()
        &&& self.node <= self.nodes@.len()
        &&& self.edges@.len() <= self.total
        &&& self.node < self.nodes@.len() ==> self.remaining > 0 && self.edges@.len() < self.total
        &&& forall|e: int| 0 <= e < self.edges@.len() ==> joins(
            self.nodes@,
            #[trigger] self.edges@[e],
        )
    }

    /// The edges after a try that hit a node.
    pub open spec fn edges_after(self, target: int) -> Seq<EdgeData> {
        if target == self.node {
            self.edges@
        } else {
            self.edges@.push(
                EdgeData {
                    source: self.nodes@[self.node as int].id,
                    target: self.nodes@[target].id,
                },
            )
        }
    }

    /// Whether `next` is the state after a try that hit a node.
    pub open spec fn hits(self, target: int, next: EdgeGenerator) -> bool {
        let edges = self.edges_after(target);
        &&& next.nodes@ == self.nodes@
        &&& next.degrees@ == self.degrees@
        &&& next.total == self.total
        &&& next.edges@ == edges
        &&& (next.node as int, next.remaining) == next_turn(
            self.degrees@,
            edges.len() >= self.total,
            self.node as int,
            (self.remaining - 1) as u64,
        )
    }

    /// Whether a try may hit a node: any node, or one of the same cluster if
    /// that is asked for and there are others in it.
    pub open spec fn may_hit(self, near: bool, target: int) -> bool {
        let close = neighbours_of(self.nodes@, self.node as int, self.nodes@.len());
        &&& 0 <= target < self.nodes@.len()
        &&& near && close.len() > 0 ==> close.contains(target as usize)
    }

    /// Starts with the first node.
    pub fn new(nodes: Vec<NodeData>, degrees: Vec<u64>, total: u64) -> (r: Self)
        requires
            degrees@.len() == nodes@.len(),
        ensures
            r.wf(),
            r.nodes@ == nodes@,
            r.degrees@ == degrees@,
            r.total == total,
            r.edges@.len() == 0,
            (r.node as int, r.remaining) == next_turn(
                degrees@,
                total == 0,
                0,
                if degrees@.len() > 0 {
                    degrees@[0]
                } else {
                    0
                },
            ),
    {
        let remaining: u64 = if degrees.len() > 0 {
            degrees[0]
        } else {
            0
        };
        let (node, remaining) = find_turn(&degrees, total == 0, 0, remaining);
        EdgeGenerator { nodes, degrees, total, edges: Vec::new(), node, remaining }
    }

    /// Tests whether there are tries left.
    pub fn wants_coin(&self) -> (r: bool)
        ensures
            r == (self.node < self.nodes@.len()),
    {
        self.node < self.nodes.len()
    }

    /// Takes the node that a try hit. A node draws no edge to itself.
    pub fn hit(&mut self, target: usize)
        requires
            old(self).wf(),
            old(self).node < old(self).nodes@.len(),
            target < old(self).nodes@.len(),
        ensures
            final(self).wf(),
            old(self).hits(target as int, *final(self)),
    {
        let ghost before = *self;
        let node: usize = self.node;
        if target != node {
            let source_id: u64 = self.nodes[node].id;
            let target_id: u64 = self.nodes[target].id;
            let edge = EdgeData { source: source_id, target: target_id };
            self.edges.push(edge);
            assert(joins(self.nodes@, edge)) by {
                assert(self.nodes@[node as int].id == source_id);
                assert(self.nodes@[target as int].id == target_id);
            }
            assert forall|e: int| 0 <= e < self.edges@.len() implies joins(
                self.nodes@,
                #[trigger] self.edges@[e],
            ) by {
                if e < before.edges@.len() {
                    assert(joins(before.nodes@, before.edges@[e]));
                }
            }
        }
        let enough: bool = self.edges.len() as u64 >= self.total;
        let (node, remaining) = find_turn(&self.degrees, enough, node, self.remaining - 1);
        self.node = node;
        self.remaining = remaining;
    }

    /// Picks a node for a try at random and takes it.
    pub fn step(&mut self, near: bool, rng: &mut rand::rngs::StdRng)
        requires
            old(self).wf(),
            old(self).node < old(self).nodes@.len(),
        ensures
            final(self).wf(),
            exists|target: int| #[trigger]
                old(self).may_hit(near, target) && old(self).hits(target, *final(self)),
    {
        let ghost before = *self;
        let target: usize = pick_target(&self.nodes, self.node, near, rng);
        self.hit(target);
        assert(before.may_hit(near, target as int));
    }

    /// The edges.
    pub fn finish(self) -> (r: Vec<EdgeData>)
        requires
            self.wf(),
        ensures
            r@ == self.edges@,
            r@.len() <= self.total,
            forall|e: int| 0 <= e < r@.len() ==> joins(self.nodes@, #[trigger] r@[e]),
    {
        self.edges
    }
}

/// Picks a node for a try of another one at random.
fn pick_target(
    nodes: &Vec<NodeData>,
    node: usize,
    near: bool,
    rng: &mut rand::rngs::StdRng,
) -> (r: usize)
    requires
        node < nodes@.len(),
    ensures
        r < nodes@.len(),
        near && neighbours_of(nodes@, node as int, nodes@.len()).len() > 0 ==> neighbours_of(
            nodes@,
            node as int,
            nodes@.len(),
        ).contains(r),
{
    if near {
        let close: Vec<usize> = neighbours(nodes, node);
        if close.len() > 0 {
            let i: usize = pick_below(rng, close.len());
            assert(close@[i as int] < nodes@.len());
            return close[i];
        }
    }
    pick_below(rng, nodes.len())
}

/// Finds the node whose edges come next.
fn find_turn(degrees: &Vec<u64>, enough: bool, node: usize, remaining: u64) -> (r: (usize, u64))
    requires
        node <= degrees@.len(),
    ensures
        (r.0 as int, r.1) == next_turn(degrees@, enough, node as int, remaining),
        r.0 <= degrees@.len(),
        r.0 < degrees@.len() ==> r.1 > 0 && !enough,
{
    if enough {
        return (degrees.len(), 0);
    }
    let mut at: usize = node;
    let mut left: u64 = remaining;
    while at < degrees.len() && left == 0
        invariant
            at <= degrees@.len(),
            !enough,
            next_turn(degrees@, enough, at as int, left) == next_turn(
                degrees@,
                enough,
                node as int,
                remaining,
            ),
        decreases degrees@.len() - at,
    {
        at = at + 1;
        left = if at < degrees.len() {
            degrees[at]
        } else {
            0
        };
    }
    if at < degrees.len() {
        (at, left)
    } else {
        (at, 0)
    }
}

/// A node with its coordinates as text.
pub struct NodeRow {
    pub id: u64,
    pub x: String,
    pub y: String,
    pub cluster: u32,
}

/// Lines of the first `count` nodes.
pub open spec fn node_lines(rows: Seq<NodeRow>, count: nat) -> Seq<char>
    decreases count,
{
    if count == 0 {
        Seq::empty()
    } else {
        let row = rows[count - 1];
        node_lines(rows, (count - 1) as nat) + (digits(row.id as nat, 10) + ","@ + row.x@ + ","@
            + row.y@ + ","@ + digits(row.cluster as nat, 10) + "\n"@)
    }
}

/// Lines of the first `count` edges.
pub open spec fn edge_lines(edges: Seq<EdgeData>, count: nat) -> Seq<char>
    decreases count,
{
    if count == 0 {
        Seq::empty()
    } else {
        let edge = edges[count - 1];
        edge_lines(edges, (count - 1) as nat) + (digits(edge.source as nat, 10) + ","@ + digits(
            edge.target as nat,
            10,
        ) + ",CONNECTS\n"@)
    }
}

/// Writes nodes and edges as CSV for an import.
pub fn to_csv(nodes: &Vec<NodeRow>, edges: &Vec<EdgeData>) -> (r: (String, String))
    ensures
        r.0@ == "id:ID,x:FLOAT,y:FLOAT,cluster:INT\n"@ + node_lines(nodes@, nodes@.len()),
        r.1@ == ":START_ID,:END_ID,:TYPE\n"@ + edge_lines(edges@, edges@.len()),
{
    let mut node_text: String = String::from_str("id:ID,x:FLOAT,y:FLOAT,cluster:INT\n");
    let ghost head = node_text@;
    let mut i: usize = 0;
    assert(node_text@ =~= head + node_lines(nodes@, 0));
    while i < nodes.len()
        invariant
            i <= nodes@.len(),
            node_text@ == head + node_lines(nodes@, i as nat),
        decreases nodes@.len() - i,
    {
        node_text.append(decimal(nodes[i].id).as_str());
        node_text.append(",");
        node_text.append(nodes[i].x.as_str());
        node_text.append(",");
        node_text.append(nodes[i].y.as_str());
        node_text.append(",");
        node_text.append(decimal(nodes[i].cluster as u64).as_str());
        node_text.append("\n");
        i = i + 1;
        assert(node_text@ =~= head + node_lines(nodes@, i as nat));
    }
    let mut edge_text: String = String::from_str(":START_ID,:END_ID,:TYPE\n");
    let ghost edge_head = edge_text@;
    let mut k: usize = 0;
    assert(edge_text@ =~= edge_head + edge_lines(edges@, 0));
    while k < edges.len()
        invariant
            k <= edges@.len(),
            edge_text@ == edge_head + edge_lines(edges@, k as nat),
        decreases edges@.len() - k,
    {
        edge_text.append(decimal(edges[k].source).as_str());
        edge_text.append(",");
        edge_text.append(decimal(edges[k].target).as_str());
        edge_text.append(",CONNECTS\n");
        k = k + 1;
        assert(edge_text@ =~= edge_head + edge_lines(edges@, k as nat));
    }
    (node_text, edge_text)
}

} // verus!
