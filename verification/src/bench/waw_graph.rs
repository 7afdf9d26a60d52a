//! An in-memory graph with a uniform grid of positions.

use vstd::prelude::*;

use crate::bench::graph_gen::{EdgeData, NodeData};
use crate::float::Float32;
use crate::server::tile_math::{law_tile_in_range, law_tile_monotone, tile_of, world_to_tile};

verus! {

/// Number of cells along each side of the grid.
pub const GRID_SIZE: usize = 32;

/// A node and the places of the edges that leave it.
pub struct WawNode {
    pub x: Float32,
    pub y: Float32,
    pub edges: Vec<usize>,
}

/// An edge to the node at a place.
#[derive(Clone, Copy, Debug, PartialEq, Eq, Structural)]
pub struct WawEdge {
    pub target: usize,
}

/// A graph, with the places of the nodes in each cell of the grid.
pub struct WawGraph {
    pub nodes: Vec<WawNode>,
    pub edges: Vec<WawEdge>,
    pub spatial_grid: Vec<Vec<usize>>,
}

/// The last of the first `count` nodes that has an id, or the first node.
pub open spec fn place_of_id(nodes: Seq<NodeData>, id: u64, count: nat) -> usize
    decreases count,
{
    if count == 0 {
        0
    } else if nodes[count - 1].id == id {
        (count - 1) as usize
    } else {
        place_of_id(nodes, id, (count - 1) as nat)
    }
}

/// The place of the node with an id.
pub open spec fn place(nodes: Seq<NodeData>, id: u64) -> usize {
    place_of_id(nodes, id, nodes.len())
}

/// The first `count` edges that leave a node.
pub open spec fn edges_from(
    nodes: Seq<NodeData>,
    edges: Seq<EdgeData>,
    node: int,
    count: nat,
) -> Seq<usize>
    decreases count,
{
    if count == 0 {
        Seq::empty()
    } else {
        let before = edges_from(nodes, edges, node, (count - 1) as nat);
        if place(nodes, edges[count - 1].source) == node {
            before.push((count - 1) as usize)
        } else {
            before
        }
    }
}

/// Cell that a position falls into.
pub open spec fn cell_at(x: Float32, y: Float32) -> int {
    tile_of(y, 32) * 32 + tile_of(x, 32)
}

/// Those of the first `count` nodes that fall into a cell.
pub open spec fn nodes_in_cell(nodes: Seq<WawNode>, cell: int, count: nat) -> Seq<usize>
    decreases count,
{
    if count == 0 {
        Seq::empty()
    } else {
        let before = nodes_in_cell(nodes, cell, (count - 1) as nat);
        if cell_at(nodes[count - 1].x, nodes[count - 1].y) == cell {
            before.push((count - 1) as usize)
        } else {
            before
        }
    }
}

/// Whether all ids are places, and all edges join ids.
pub open spec fn ids_are_places(nodes: Seq<NodeData>, edges: Seq<EdgeData>) -> bool {
    &&& forall|i: int| 0 <= i < nodes.len() ==> (#[trigger] nodes[i]).id < nodes.len()
    &&& forall|e: int|
        0 <= e < edges.len() ==> (#[trigger] edges[e]).source < nodes.len() && edges[e].target
            < nodes.len()
}

proof fn lemma_place_in_range(nodes: Seq<NodeData>, id: u64, count: nat)
    requires
        0 < nodes.len() <= usize::MAX,
        count <= nodes.len(),
    ensures
        place_of_id(nodes, id, count) < nodes.len(),
    decreases count,
{
    if count > 0 {
        lemma_place_in_range(nodes, id, (count - 1) as nat);
    }
}

proof fn lemma_edges_from(nodes: Seq<NodeData>, edges: Seq<EdgeData>, node: int, count: nat)
    requires
        count <= usize::MAX,
    ensures
        forall|k: int|
            0 <= k < edges_from(nodes, edges, node, count).len() ==> #[trigger] edges_from(
                nodes,
                edges,
                node,
                count,
            )[k] < count,
    decreases count,
{
    if count > 0 {
        lemma_edges_from(nodes, edges, node, (count - 1) as nat);
        let before = edges_from(nodes, edges, node, (count - 1) as nat);
        let now = edges_from(nodes, edges, node, count);
        assert forall|k: int| 0 <= k < now.len() implies #[trigger] now[k] < count by {
            if k < before.len() {
                assert(before[k] < count - 1);
            }
        }
    }
}

/// Cell along one side of the grid that a coordinate falls into.
fn coord_to_grid(v: Float32) -> (r: usize)
    ensures
        r == tile_of(v, 32),
        r < GRID_SIZE,
{
    world_to_tile(v, 32) as usize
}

impl WawGraph {
    /// Whether the graph holds the given nodes and edges.
    pub open spec fn holds(self, nodes: Seq<NodeData>, edges: Seq<EdgeData>) -> bool {
        &&& self.nodes@.len() == nodes.len()
        &&& forall|i: int|
            0 <= i < nodes.len() ==> (#[trigger] self.nodes@[i]).x == nodes[i].x
                && self.nodes@[i].y == nodes[i].y && self.nodes@[i].edges@ == edges_from(
                nodes,
                edges,
                i,
                edges.len(),
            )
        &&& self.edges@.len() == edges.len()
        &&& forall|e: int|
            0 <= e < edges.len() ==> (#[trigger] self.edges@[e]).target == place(
                nodes,
                edges[e].target,
            )
    }

    /// Whether the grid holds the nodes, and edges lead from and to nodes.
    pub open spec fn wf(self) -> bool {
        &&& self.spatial_grid@.len() == 1024
        &&& forall|c: int|
            0 <= c < 1024 ==> (#[trigger] self.spatial_grid@[c])@ == nodes_in_cell(
                self.nodes@,
                c,
                self.nodes@.len(),
            )
        &&& forall|i: int, k: int|
            0 <= i < self.nodes@.len() && 0 <= k < self.nodes@[i].edges@.len()
                ==> #[trigger] self.nodes@[i].edges@[k] < self.edges@.len()
        &&& forall|e: int|
            0 <= e < self.edges@.len() ==> (#[trigger] self.edges@[e]).target < self.nodes@.len()
    }

    /// Builds the graph. The id of a node must be a place of one.
    pub fn load(nodes_data: &[NodeData], edges_data: &[EdgeData]) -> (r: Self)
        requires
            ids_are_places(nodes_data@, edges_data@),
        ensures
            r.wf(),
            r.holds(nodes_data@, edges_data@),
    {
        let n: usize = nodes_data.len();
        let places: Vec<usize> = index_ids(nodes_data);
        let mut nodes: Vec<WawNode> = Vec::new();
        let mut i: usize = 0;
        while i < n
            invariant
                i <= n == nodes_data@.len(),
                nodes@.len() == i,
                forall|j: int|
                    0 <= j < i ==> (#[trigger] nodes@[j]).x == nodes_data@[j].x && nodes@[j].y
                        == nodes_data@[j].y && nodes@[j].edges@.len() == 0,
            decreases n - i,
        {
            nodes.push(WawNode { x: nodes_data[i].x, y: nodes_data[i].y, edges: Vec::new() });
            i = i + 1;
        }
        let mut edges: Vec<WawEdge> = Vec::new();
        let m: usize = edges_data.len();
        let mut e: usize = 0;
        assert forall|j: int| 0 <= j < n implies (#[trigger] nodes@[j]).edges@ == edges_from(
            nodes_data@,
            edges_data@,
            j,
            0,
        ) by {
            assert(nodes@[j].edges@ =~= Seq::<usize>::empty());
        }
        while e < m
            invariant
                e <= m == edges_data@.len(),
                n == nodes_data@.len(),
                ids_are_places(nodes_data@, edges_data@),
                places@.len() == n,
                forall|id: int|
                    0 <= id < n ==> #[trigger] places@[id] == place(nodes_data@, id as u64),
                nodes@.len() == n,
                forall|j: int|
                    0 <= j < n ==> (#[trigger] nodes@[j]).x == nodes_data@[j].x && nodes@[j].y
                        == nodes_data@[j].y && nodes@[j].edges@ == edges_from(
                        nodes_data@,
                        edges_data@,
                        j,
                        e as nat,
                    ),
                edges@.len() == e,
                forall|k: int|
                    0 <= k < e ==> (#[trigger] edges@[k]).target == place(
                        nodes_data@,
                        edges_data@[k].target,
                    ),
            decreases m - e,
        {
            let ed: EdgeData = edges_data[e];
            let ghost before = nodes@;
            let src: usize = places[ed.source as usize];
            let tgt: usize = places[ed.target as usize];
            assert(places@[ed.source as int] == place(nodes_data@, ed.source));
            assert(places@[ed.target as int] == place(nodes_data@, ed.target));
            proof {
                lemma_place_in_range(nodes_data@, ed.source, n as nat);
            }
            edges.push(WawEdge { target: tgt });
            nodes[src].edges.push(e);
            e = e + 1;
            assert forall|j: int| 0 <= j < n implies (#[trigger] nodes@[j]).x == nodes_data@[j].x
                && nodes@[j].y == nodes_data@[j].y && nodes@[j].edges@ == edges_from(
                nodes_data@,
                edges_data@,
                j,
                e as nat,
            ) by {
                assert(before[j].edges@ == edges_from(
                    nodes_data@,
                    edges_data@,
                    j,
                    (e - 1) as nat,
                ));
            }
        }
        let spatial_grid: Vec<Vec<usize>> = build_grid(&nodes);
        proof {
            assert forall|i: int, k: int|
                0 <= i < nodes@.len() && 0 <= k < nodes@[i].edges@.len() implies
                #[trigger] nodes@[i].edges@[k] < edges@.len() by {
                lemma_edges_from(nodes_data@, edges_data@, i, m as nat);
            }
            assert forall|k: int| 0 <= k < edges@.len() implies (#[trigger] edges@[k]).target
                < nodes@.len() by {
                assert(edges_data@[k].target < nodes_data@.len());
                lemma_place_in_range(nodes_data@, edges_data@[k].target, n as nat);
            }
        }
        WawGraph { nodes, edges, spatial_grid }
    }
}

/// The place of each id.
fn index_ids(nodes: &[NodeData]) -> (r: Vec<usize>)
    requires
        forall|i: int| 0 <= i < nodes@.len() ==> (#[trigger] nodes@[i]).id < nodes@.len(),
    ensures
        r@.len() == nodes@.len(),
        forall|id: int| 0 <= id < nodes@.len() ==> #[trigger] r@[id] == place(nodes@, id as u64),
{
    let n: usize = nodes.len();
    let mut places: Vec<usize> = vec![0; n];
    let mut i: usize = 0;
    while i < n
        invariant
            i <= n == nodes@.len(),
            places@.len() == n,
            forall|i: int| 0 <= i < nodes@.len() ==> (#[trigger] nodes@[i]).id < nodes@.len(),
            forall|id: int|
                0 <= id < n ==> #[trigger] places@[id] == place_of_id(
                    nodes@,
                    id as u64,
                    i as nat,
                ),
        decreases n - i,
    {
        assert(nodes@[i as int].id < nodes@.len());
        let id: usize = nodes[i].id as usize;
        places.set(id, i);
        i = i + 1;
    }
    places
}

/// The nodes in each cell.
fn build_grid(nodes: &Vec<WawNode>) -> (r: Vec<Vec<usize>>)
    ensures
        r@.len() == 1024,
        forall|c: int|
            0 <= c < 1024 ==> (#[trigger] r@[c])@ == nodes_in_cell(nodes@, c, nodes@.len()),
{
    let mut grid: Vec<Vec<usize>> = Vec::new();
    let cells: usize = GRID_SIZE * GRID_SIZE;
    while grid.len() < cells
        invariant
            cells == 1024,
            grid@.len() <= cells,
            forall|c: int| 0 <= c < grid@.len() ==> (#[trigger] grid@[c])@.len() == 0,
        decreases cells - grid@.len(),
    {
        grid.push(Vec::new());
    }
    let n: usize = nodes.len();
    let mut i: usize = 0;
    assert forall|c: int| 0 <= c < 1024 implies (#[trigger] grid@[c])@ == nodes_in_cell(
        nodes@,
        c,
        0,
    ) by {
        assert(grid@[c]@ =~= Seq::<usize>::empty());
    }
    while i < n
        invariant
            i <= n == nodes@.len(),
            grid@.len() == 1024,
            forall|c: int|
                0 <= c < 1024 ==> (#[trigger] grid@[c])@ == nodes_in_cell(nodes@, c, i as nat),
        decreases n - i,
    {
        let gx: usize = coord_to_grid(nodes[i].x);
        let gy: usize = coord_to_grid(nodes[i].y);
        let ghost before = grid@;
        let cell: usize = gy * GRID_SIZE + gx;
        grid[cell].push(i);
        i = i + 1;
        assert forall|c: int| 0 <= c < 1024 implies (#[trigger] grid@[c])@ == nodes_in_cell(
            nodes@,
            c,
            i as nat,
        ) by {
            assert(before[c]@ == nodes_in_cell(nodes@, c, (i - 1) as nat));
        }
    }
    grid
}

/// Whether a node lies in a rectangle.
pub open spec fn inside(
    node: WawNode,
    min_x: Float32,
    min_y: Float32,
    max_x: Float32,
    max_y: Float32,
) -> bool {
    &&& node.x.at_least(min_x)
    &&& max_x.at_least(node.x)
    &&& node.y.at_least(min_y)
    &&& max_y.at_least(node.y)
}

/// How many of the numbers from 0 to `n` are of a kind.
pub open spec fn count_where(n: nat, kind: spec_fn(int) -> bool) -> nat
    decreases n,
{
    if n == 0 {
        0
    } else {
        count_where((n - 1) as nat, kind) + if kind(n - 1) {
            1nat
        } else {
            0
        }
    }
}

/// How many numbers of a list are of a kind.
spec fn count_list(list: Seq<usize>, kind: spec_fn(int) -> bool) -> nat
    decreases list.len(),
{
    if list.len() == 0 {
        0
    } else {
        count_list(list.drop_last(), kind) + if kind(list.last() as int) {
            1nat
        } else {
            0
        }
    }
}

/// The nodes in a rectangle whose cells lie in a part of the grid.
spec fn in_band(
    kind: spec_fn(int) -> bool,
    nodes: Seq<WawNode>,
    y0: int,
    y1: int,
    x0: int,
    x1: int,
) -> spec_fn(int) -> bool {
    |i: int|
        kind(i) && y0 <= tile_of(nodes[i].y, 32) < y1 && x0 <= tile_of(nodes[i].x, 32) < x1
}

proof fn lemma_count_bound(n: nat, kind: spec_fn(int) -> bool)
    ensures
        count_where(n, kind) <= n,
    decreases n,
{
    if n > 0 {
        lemma_count_bound((n - 1) as nat, kind);
    }
}

proof fn lemma_count_same(n: nat, a: spec_fn(int) -> bool, b: spec_fn(int) -> bool)
    requires
        forall|i: int| 0 <= i < n ==> #[trigger] a(i) == b(i),
    ensures
        count_where(n, a) == count_where(n, b),
    decreases n,
{
    if n > 0 {
        lemma_count_same((n - 1) as nat, a, b);
    }
}

proof fn lemma_count_split(
    n: nat,
    all: spec_fn(int) -> bool,
    a: spec_fn(int) -> bool,
    b: spec_fn(int) -> bool,
)
    requires
        forall|i: int|
            0 <= i < n ==> #[trigger] all(i) == (a(i) || b(i)) && !(a(i) && b(i)),
    ensures
        count_where(n, all) == count_where(n, a) + count_where(n, b),
    decreases n,
{
    if n > 0 {
        lemma_count_split((n - 1) as nat, all, a, b);
    }
}

proof fn lemma_cell_count(
    kind: spec_fn(int) -> bool,
    nodes: Seq<WawNode>,
    y: int,
    x: int,
    n: nat,
)
    requires
        0 <= y < 32,
        0 <= x < 32,
        n <= nodes.len() <= usize::MAX,
    ensures
        count_list(nodes_in_cell(nodes, y * 32 + x, n), kind) == count_where(
            n,
            in_band(kind, nodes, y, y + 1, x, x + 1),
        ),
    decreases n,
{
    if n > 0 {
        let m = (n - 1) as nat;
        lemma_cell_count(kind, nodes, y, x, m);
        law_tile_in_range(nodes[m as int].x, 32);
        law_tile_in_range(nodes[m as int].y, 32);
        let before = nodes_in_cell(nodes, y * 32 + x, m);
        let now = nodes_in_cell(nodes, y * 32 + x, n);
        if cell_at(nodes[m as int].x, nodes[m as int].y) == y * 32 + x {
            assert(now.drop_last() =~= before);
            assert(now.last() == m);
        }
    }
}

proof fn lemma_cell_members(nodes: Seq<WawNode>, cell: int, n: nat)
    requires
        n <= nodes.len() <= usize::MAX,
    ensures
        forall|k: int|
            0 <= k < nodes_in_cell(nodes, cell, n).len() ==> #[trigger] nodes_in_cell(
                nodes,
                cell,
                n,
            )[k] < n,
    decreases n,
{
    if n > 0 {
        lemma_cell_members(nodes, cell, (n - 1) as nat);
        let before = nodes_in_cell(nodes, cell, (n - 1) as nat);
        let now = nodes_in_cell(nodes, cell, n);
        assert forall|k: int| 0 <= k < now.len() implies #[trigger] now[k] < n by {
            if k < before.len() {
                assert(before[k] < n - 1);
            }
        }
    }
}

/// The kind of the nodes in a rectangle.
spec fn inside_kind(
    nodes: Seq<WawNode>,
    min_x: Float32,
    min_y: Float32,
    max_x: Float32,
    max_y: Float32,
) -> spec_fn(int) -> bool {
    |i: int| inside(nodes[i], min_x, min_y, max_x, max_y)
}

/// How many nodes lie in a rectangle.
pub open spec fn count_inside(
    nodes: Seq<WawNode>,
    min_x: Float32,
    min_y: Float32,
    max_x: Float32,
    max_y: Float32,
) -> nat {
    count_where(nodes.len(), |i: int| inside(nodes[i], min_x, min_y, max_x, max_y))
}

/// Counts the nodes of a cell that lie in a rectangle.
fn count_cell(
    graph: &WawGraph,
    cell: usize,
    min_x: Float32,
    min_y: Float32,
    max_x: Float32,
    max_y: Float32,
) -> (r: usize)
    requires
        graph.wf(),
        cell < 1024,
    ensures
        r == count_list(
            graph.spatial_grid@[cell as int]@,
            inside_kind(graph.nodes@, min_x, min_y, max_x, max_y),
        ),
{
    let list: &Vec<usize> = &graph.spatial_grid[cell];
    let ghost kind = inside_kind(graph.nodes@, min_x, min_y, max_x, max_y);
    let total: usize = graph.nodes.len();
    proof {
        lemma_cell_members(graph.nodes@, cell as int, graph.nodes@.len());
        assert(graph.spatial_grid@[cell as int]@ == nodes_in_cell(
            graph.nodes@,
            cell as int,
            graph.nodes@.len(),
        ));
    }
    let mut matched: usize = 0;
    let mut k: usize = 0;
    while k < list.len()
        invariant
            k <= list@.len(),
            matched <= k,
            total == graph.nodes@.len(),
            kind == inside_kind(graph.nodes@, min_x, min_y, max_x, max_y),
            forall|j: int| 0 <= j < list@.len() ==> #[trigger] list@[j] < graph.nodes@.len(),
            matched == count_list(list@.take(k as int), kind),
        decreases list@.len() - k,
    {
        let node: &WawNode = &graph.nodes[list[k]];
        let ghost seen = list@.take(k as int);
        if node.x.within(min_x, max_x) && node.y.within(min_y, max_y) {
            matched = matched + 1;
        }
        k = k + 1;
        proof {
            assert(list@.take(k as int).drop_last() =~= seen);
            assert(list@.take(k as int).last() == list@[k - 1]);
        }
    }
    assert(list@.take(k as int) =~= list@);
    matched
}

/// Counts the nodes in a rectangle.
pub fn viewport_query(
    graph: &WawGraph,
    min_x: Float32,
    min_y: Float32,
    max_x: Float32,
    max_y: Float32,
) -> (r: usize)
    requires
        graph.wf(),
    ensures
        r == count_inside(graph.nodes@, min_x, min_y, max_x, max_y),
{
    let gx0: usize = coord_to_grid(min_x);
    let gy0: usize = coord_to_grid(min_y);
    let gx1: usize = coord_to_grid(max_x);
    let gy1: usize = coord_to_grid(max_y);
    let n: usize = graph.nodes.len();
    let ghost nodes = graph.nodes@;
    let ghost kind = inside_kind(nodes, min_x, min_y, max_x, max_y);
    let mut matched: usize = 0;
    let mut gy: usize = gy0;
    proof {
        let none = |i: int| false;
        lemma_count_none(nodes.len());
        lemma_count_same(
            nodes.len(),
            in_band(kind, nodes, gy0 as int, gy0 as int, gx0 as int, gx1 + 1),
            none,
        );
    }
    while gy <= gy1
        invariant
            graph.wf(),
            gx0 < 32,
            gx1 < 32,
            gy1 < 32,
            gy0 <= gy,
            gy <= gy1 || gy <= gy1 + 1 || gy == gy0,
            n == nodes.len(),
            nodes == graph.nodes@,
            kind == inside_kind(nodes, min_x, min_y, max_x, max_y),
            matched == count_where(
                n as nat,
                in_band(kind, nodes, gy0 as int, gy as int, gx0 as int, gx1 + 1),
            ),
        decreases 32 - gy,
    {
        let row: usize = gy * GRID_SIZE;
        let ghost rows = matched;
        let mut gx: usize = gx0;
        proof {
            let none = |i: int| false;
            lemma_count_none(nodes.len());
            lemma_count_same(
                nodes.len(),
                in_band(kind, nodes, gy as int, gy + 1, gx0 as int, gx0 as int),
                none,
            );
        }
        while gx <= gx1
            invariant
                graph.wf(),
                gx0 <= gx,
                gx <= gx1 + 1 || gx == gx0,
                gx1 < 32,
                gy0 <= gy <= gy1 < 32,
                row == gy * 32,
                n == nodes.len(),
                nodes == graph.nodes@,
                kind == inside_kind(nodes, min_x, min_y, max_x, max_y),
                rows == count_where(
                    n as nat,
                    in_band(kind, nodes, gy0 as int, gy as int, gx0 as int, gx1 + 1),
                ),
                matched == rows + count_where(
                    n as nat,
                    in_band(kind, nodes, gy as int, gy + 1, gx0 as int, gx as int),
                ),
            decreases 32 - gx,
        {
            let here: usize = count_cell(graph, row + gx, min_x, min_y, max_x, max_y);
            proof {
                lemma_cell_count(kind, nodes, gy as int, gx as int, n as nat);
                let all = in_band(kind, nodes, gy0 as int, gy + 1, gx0 as int, gx1 + 1);
                let row_all = in_band(kind, nodes, gy as int, gy + 1, gx0 as int, gx1 + 1);
                let row_to = in_band(kind, nodes, gy as int, gy + 1, gx0 as int, gx + 1);
                let row_before = in_band(kind, nodes, gy as int, gy + 1, gx0 as int, gx as int);
                let row_after = in_band(kind, nodes, gy as int, gy + 1, gx + 1, gx1 + 1);
                let cell = in_band(kind, nodes, gy as int, gy + 1, gx as int, gx + 1);
                let above = in_band(kind, nodes, gy0 as int, gy as int, gx0 as int, gx1 + 1);
                lemma_count_split(n as nat, row_to, row_before, cell);
                lemma_count_split(n as nat, row_all, row_to, row_after);
                lemma_count_split(n as nat, all, above, row_all);
                lemma_count_bound(n as nat, all);
            }
            matched = matched + here;
            gx = gx + 1;
        }
        proof {
            let all = in_band(kind, nodes, gy0 as int, gy + 1, gx0 as int, gx1 + 1);
            let row_all = in_band(kind, nodes, gy as int, gy + 1, gx0 as int, gx1 + 1);
            let above = in_band(kind, nodes, gy0 as int, gy as int, gx0 as int, gx1 + 1);
            let row_to = in_band(kind, nodes, gy as int, gy + 1, gx0 as int, gx as int);
            lemma_count_same(n as nat, row_to, row_all);
            lemma_count_split(n as nat, all, above, row_all);
        }
        gy = gy + 1;
    }
    proof {
        assert forall|i: int| 0 <= i < n implies #[trigger] kind(i) == in_band(
            kind,
            nodes,
            gy0 as int,
            gy as int,
            gx0 as int,
            gx1 + 1,
        )(i) by {
            if kind(i) {
                law_tile_monotone(min_x, nodes[i].x, 32);
                law_tile_monotone(nodes[i].x, max_x, 32);
                law_tile_monotone(min_y, nodes[i].y, 32);
                law_tile_monotone(nodes[i].y, max_y, 32);
            }
        }
        lemma_count_same(
            n as nat,
            kind,
            in_band(kind, nodes, gy0 as int, gy as int, gx0 as int, gx1 + 1),
        );
        lemma_count_same(
            n as nat,
            kind,
            |i: int| inside(nodes[i], min_x, min_y, max_x, max_y),
        );
    }
    matched
}

proof fn lemma_count_none(n: nat)
    ensures
        count_where(n, |i: int| false) == 0,
    decreases n,
{
    if n > 0 {
        lemma_count_none((n - 1) as nat);
    }
}

/// Number of steps of one or two edges from a node, out of its first `count`
/// edges.
pub open spec fn steps_from(graph: WawGraph, start: int, count: nat) -> nat
    decreases count,
{
    if count == 0 {
        0
    } else {
        let edge = graph.nodes@[start].edges@[count - 1];
        let target = graph.edges@[edge as int].target;
        steps_from(graph, start, (count - 1) as nat) + 1 + graph.nodes@[target as int].edges@.len()
    }
}

/// Number of steps of one or two edges from a node.
pub open spec fn two_hop_steps(graph: WawGraph, start: int) -> nat {
    steps_from(graph, start, graph.nodes@[start].edges@.len())
}

/// Counts the steps of one or two edges from a node, if there is such a node
/// and the count is a number of the machine's size.
pub fn traverse_2hop(graph: &WawGraph, start: usize) -> (r: Option<usize>)
    requires
        graph.wf(),
        start < graph.nodes@.len(),
    ensures
        r == if two_hop_steps(*graph, start as int) <= usize::MAX {
            Some(two_hop_steps(*graph, start as int) as usize)
        } else {
            None
        },
{
    let edges: &Vec<usize> = &graph.nodes[start].edges;
    let mut count: usize = 0;
    let mut k: usize = 0;
    while k < edges.len()
        invariant
            graph.wf(),
            start < graph.nodes@.len(),
            edges@ == graph.nodes@[start as int].edges@,
            k <= edges@.len(),
            count == steps_from(*graph, start as int, k as nat),
        decreases edges@.len() - k,
    {
        assert(graph.nodes@[start as int].edges@[k as int] < graph.edges@.len());
        let edge: usize = edges[k];
        let target: usize = graph.edges[edge].target;
        let further: usize = graph.nodes[target].edges.len();
        proof {
            lemma_steps_grow(*graph, start as int, (k + 1) as nat, edges@.len());
        }
        match count.checked_add(1) {
            Some(c) => match c.checked_add(further) {
                Some(c) => {
                    count = c;
                },
                None => {
                    return None;
                },
            },
            None => {
                return None;
            },
        }
        k = k + 1;
    }
    Some(count)
}

proof fn lemma_steps_grow(graph: WawGraph, start: int, a: nat, b: nat)
    requires
        a <= b,
    ensures
        steps_from(graph, start, a) <= steps_from(graph, start, b),
    decreases b - a,
{
    if a < b {
        lemma_steps_grow(graph, start, a, (b - 1) as nat);
    }
}

} // verus!
