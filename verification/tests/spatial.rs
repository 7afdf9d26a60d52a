use segraph::ecs::pointer::Pointer;
use segraph::ecs::storage::Storage;
use segraph::float::Float32;
use segraph::server::cell_walk::CellWalk;
use segraph::server::spatial_index::SpatialIndex;

fn f(v: f32) -> Float32 {
    Float32 { bits: v.to_bits() }
}

fn build_index() -> SpatialIndex {
    let positions = vec![
        (0u32, f(-0.5), f(-0.5)),
        (1u32, f(0.0), f(0.0)),
        (2u32, f(0.75), f(0.75)),
    ];
    SpatialIndex::build(&positions, 4)
}

#[test]
fn builds_with_correct_cell_count() {
    let index = build_index();
    assert_eq!(index.grid_size(), 16);
    assert_eq!(index.len(), 3);
}

#[test]
fn get_cell_reads_correctly() {
    let index = build_index();
    let _cell = index.get_cell(0, 0);
    let cell68 = index.get_cell(4, 4);
    assert!(!cell68.is_empty());
    assert_eq!(cell68, &[0]);
}

#[test]
fn query_bounds_finds_entities() {
    let index = build_index();
    let mut out = Vec::new();
    index.query_bounds_into(f(-1.0), f(-1.0), f(0.0), f(0.0), 4, &mut out);
    assert_eq!(out.len(), 2);
    out.clear();
    index.query_bounds_into(f(-1.0), f(-1.0), f(1.0), f(1.0), 4, &mut out);
    assert_eq!(out.len(), 3);
}

#[test]
fn cells_outside_the_grid_are_empty() {
    let index = build_index();
    assert!(index.get_cell(16, 0).is_empty());
    assert!(index.get_cell(0, 16).is_empty());
    assert_eq!(index.bits(), 4);
    assert_eq!(index.total_cells(), 256);
    assert!(!index.is_empty());
    assert!(SpatialIndex::build(&[], 2).is_empty());
}

#[test]
fn estimates_the_cells_of_a_window() {
    let index = build_index();
    let all = index.estimate_cell_count(f(-1.0), f(-1.0), f(1.0), f(1.0), 4);
    assert_eq!(all, 256);
    let quarter = index.estimate_cell_count(f(-1.0), f(-1.0), f(-0.01), f(-0.01), 4);
    assert_eq!(quarter, 64);
}

#[test]
fn filtered_query_reports_live_entities_once_and_up_to_the_limit() {
    let index = build_index();
    let mut storage: Storage<u8> = Storage::new(1);
    let ptrs: Vec<Option<Pointer<u8>>> = vec![Some(storage.create(7)), None, Some(storage.create(9))];
    let rowids = vec![10u64, 11, 12];
    let mut seen = vec![0u32; 3];
    let mut out = Vec::new();
    index.query_filtered_into(
        f(-1.0), f(-1.0), f(1.0), f(1.0), 4, &ptrs, &rowids, &mut seen, 1, &mut out, 100,
    );
    assert_eq!(out, vec![10, 12]);
    index.query_filtered_into(
        f(-1.0), f(-1.0), f(1.0), f(1.0), 4, &ptrs, &rowids, &mut seen, 1, &mut out, 100,
    );
    assert_eq!(out, vec![10, 12]);
    let mut few = Vec::new();
    index.query_filtered_into(
        f(-1.0), f(-1.0), f(1.0), f(1.0), 4, &ptrs, &rowids, &mut seen, 2, &mut few, 1,
    );
    assert_eq!(few, vec![10]);
}

#[test]
fn every_entity_inside_is_found_at_all_levels() {
    let mut positions = Vec::new();
    let mut seed: u32 = 99;
    for i in 0..300u32 {
        seed = seed.wrapping_mul(1664525).wrapping_add(1013904223);
        let x = seed as f32 / u32::MAX as f32 * 2.0 - 1.0;
        seed = seed.wrapping_mul(1664525).wrapping_add(1013904223);
        let y = seed as f32 / u32::MAX as f32 * 2.0 - 1.0;
        positions.push((i, f(x), f(y)));
    }
    let index = SpatialIndex::build(&positions, 5);
    for lod in [0u16, 2, 5, 6, 9, 31] {
        let mut out = Vec::new();
        index.query_bounds_into(f(-0.3), f(-0.6), f(0.45), f(0.2), lod, &mut out);
        for &(i, x, y) in &positions {
            if x.within(f(-0.3), f(0.45)) && y.within(f(-0.6), f(0.2)) {
                assert!(out.contains(&i), "{i} at level {lod}");
            }
        }
    }
}

#[test]
fn a_query_finer_than_the_grid_looks_at_its_cells_once() {
    let index = SpatialIndex::build(&[(7, f(0.5), f(0.5))], 4);
    let mut out = Vec::new();
    index.query_bounds_into(f(0.0), f(0.0), f(1.0), f(1.0), 5, &mut out);
    assert_eq!(out, vec![7]);
    index.query_bounds_into(f(-1.0), f(-1.0), f(0.0), f(0.0), 5, &mut out);
    assert!(out.is_empty());
    assert_eq!(index.estimate_cell_count(f(-1.0), f(-1.0), f(1.0), f(1.0), 5), 1024);
}

#[test]
fn walk_visits_each_cell_of_its_window() {
    let mut walk = CellWalk::new(1, 2, 0, 1, 2, 8);
    let mut cells = Vec::new();
    while let Some(c) = walk.next() {
        cells.push(c);
    }
    assert_eq!(cells.len(), 16);
    let mut sorted = cells.clone();
    sorted.sort();
    sorted.dedup();
    assert_eq!(sorted.len(), 16);
    assert!(cells.contains(&2) && cells.contains(&(3 * 8 + 5)));
}
