use segraph::float::Float32;
use segraph::server::graph_store::GraphStore;
use segraph::server::rows::EdgeRow;

fn f(v: f32) -> Float32 {
    Float32 { bits: v.to_bits() }
}

fn edge(id: u64, source: u64, target: u64, label: u32) -> EdgeRow {
    EdgeRow {
        id,
        source_entity: source,
        target_entity: target,
        label,
    }
}

#[test]
fn loads_empty_graph() {
    let graph = GraphStore::load(&[], &[], &[], 1, 2);
    assert!(graph.is_empty());
}

#[test]
fn loads_entities_without_positions() {
    let graph = GraphStore::load(&[1, 2], &[], &[], 1, 2);
    assert_eq!(graph.entity_count(), 2);
    assert!(graph.spatial_index.is_none());
}

#[test]
fn loads_edges_and_supports_traversal() {
    let graph = GraphStore::load(&[1, 2, 3], &[edge(1, 1, 2, 1), edge(2, 2, 3, 1)], &[], 1, 2);

    assert!(graph.find_entity_index(1).is_some());
    let result = graph.traverse_bfs(1, 2, &[1]);
    assert_eq!(result.len(), 3);
}

#[test]
fn builds_spatial_index_from_positions() {
    let graph = GraphStore::load(
        &[1, 2],
        &[],
        &[(1, f(0.0), f(0.0)), (2, f(0.8), f(0.8))],
        1,
        2,
    );

    assert!(graph.spatial_index.is_some());
    let results = graph.query_spatial(f(-0.5), f(-0.5), f(0.5), f(0.5), 4);
    assert_eq!(results.len(), 1);
    assert_eq!(results[0], 1);
}

#[test]
fn spatial_query_returns_empty_when_no_index() {
    let graph = GraphStore::empty(1, 2);
    let results = graph.query_spatial(f(-1.0), f(-1.0), f(1.0), f(1.0), 4);
    assert!(results.is_empty());
}

#[test]
fn traverse_respects_label_filter() {
    let graph = GraphStore::load(&[1, 2], &[edge(1, 1, 2, 1), edge(2, 1, 2, 2)], &[], 1, 2);

    let result = graph.traverse_bfs(1, 1, &[1]);
    assert_eq!(result.len(), 2);

    let result = graph.traverse_bfs(1, 1, &[99]);
    assert_eq!(result.len(), 1);
}

#[test]
fn nearer_entities_come_first() {
    let rows = [
        edge(1, 1, 2, 0),
        edge(2, 1, 3, 0),
        edge(3, 2, 4, 0),
        edge(4, 3, 5, 0),
        edge(5, 4, 1, 0),
    ];
    let graph = GraphStore::load(&[1, 2, 3, 4, 5], &rows, &[], 1, 2);
    let found = graph.traverse_bfs(1, 2, &[]);
    assert_eq!(found.len(), 5);
    assert_eq!(found[0], 1);
    let mut near: Vec<u64> = found[1..3].to_vec();
    near.sort();
    assert_eq!(near, vec![2, 3]);
    assert_eq!(graph.traverse_bfs(1, 0, &[]), vec![1]);
    assert!(graph.traverse_bfs(77, 3, &[]).is_empty());
}

#[test]
fn entities_and_edges_are_found_by_place() {
    let rows = [edge(7, 10, 20, 3), edge(8, 10, 99, 3)];
    let graph = GraphStore::load(&[10, 20], &rows, &[(20, f(0.5), f(-0.5))], 1, 2);
    let from = graph.find_entity_index(10).unwrap();
    let to = graph.find_entity_index(20).unwrap();
    assert_eq!(graph.entity_at(from).unwrap().sqlite_rowid, 10);
    assert_eq!(graph.entity_at(from).unwrap().edges_out.len(), 1);
    assert_eq!(graph.entity_at(to).unwrap().edges_in.len(), 1);
    let e = graph.edge_at(graph.entity_at(from).unwrap().edges_out[0]).unwrap();
    assert_eq!((e.sqlite_rowid, e.source_idx, e.target_idx, e.label), (7, from, to, 3));
    assert_eq!(graph.position_of(to), Some((f(0.5), f(-0.5))));
    assert_eq!(graph.position_of(from), None);
    assert!(graph.find_entity_index(99).is_none());
    assert!(graph.entity_at(5).is_none());
    assert!(graph.edge_at(5).is_none());
}

#[test]
fn what_is_loaded_is_kept_alive() {
    let graph = GraphStore::load(&[7, 8, 7], &[edge(1, 7, 8, 1), edge(2, 7, 9, 1)], &[], 1, 2);
    assert!(!graph.is_empty());
    assert_eq!(graph.entities.inner.meta, vec![1, 2, 2]);
    assert_eq!(graph.edges.inner.meta, vec![1]);
    assert_eq!(graph.edge_rowid_by_index, vec![1]);
    assert_eq!(graph.entity_handles.len(), 3);
    assert_eq!(graph.entity_handles[2].data.get_index(), 2);
    assert!(graph.entities.pending.add_ref.is_empty());
    assert!(graph.entities.pending.sub_ref.is_empty());
    assert!(graph.entities.inner.free_list.is_empty());
}
