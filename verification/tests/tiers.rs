use segraph::float::Float32;
use segraph::server::hot_tier::HotTier;
use segraph::server::roster::EntityMeta;
use segraph::server::rows::EdgeRow;
use segraph::server::warm_tier::{decode_entity, encode_entity, is_readable, WarmTier, WarmWrite};

fn f(v: f32) -> Float32 {
    Float32 { bits: v.to_bits() }
}

fn edge(id: u64, source: u64, target: u64, label: u32) -> EdgeRow {
    EdgeRow {
        id,
        source_entity: source,
        target_entity: target,
        label,
    }
}

fn test_tier() -> HotTier {
    HotTier::load(
        &[1, 2, 3],
        &[edge(1, 1, 2, 1), edge(2, 2, 3, 1)],
        &[(1, f(0.0), f(0.0)), (2, f(0.8), f(0.8))],
        1,
    )
}

#[test]
fn loads_graph_from_cold_tier() {
    let hot = test_tier();
    assert_eq!(hot.edge_csr.entity_count(), 3);
    assert!(hot.is_loaded(1));
    assert!(hot.is_loaded(2));
    assert!(hot.spatial_index.is_some());
}

#[test]
fn traversal_works() {
    let hot = test_tier();
    let result = hot.traverse_bfs(1, 2, &[1]);
    assert_eq!(result.len(), 3);
    assert_eq!(result[0], 1);
}

#[test]
fn eviction_frees_memory() {
    let mut hot = test_tier();
    let before = hot.memory_used;
    let evicted = hot.evict_lru(1);
    assert_eq!(evicted.len(), 1);
    assert!(hot.memory_used < before);

    let evicted_rowid = evicted[0].0;
    assert!(!hot.is_loaded(evicted_rowid));
}

#[test]
fn reload_restores_entity() {
    let mut hot = test_tier();
    let evicted = hot.evict_lru(1);
    let rowid = evicted[0].0;

    hot.reload_entity(rowid, Some((f(0.5), f(0.5))));
    assert!(hot.is_loaded(rowid));
    assert_eq!(hot.position_of(rowid), Some((f(0.5), f(0.5))));
}

#[test]
fn least_recently_used_entity_goes_first() {
    let mut hot = test_tier();
    hot.touch_entities(&[1, 2]);
    assert_eq!(hot.evict_lru(1)[0].0, 3);
    hot.get_entity(1);
    assert_eq!(hot.evict_lru(1)[0].0, 2);
    assert_eq!(hot.evict_lru(5).len(), 1);
    assert!(hot.evict_lru(1).is_empty());
}

#[test]
fn access_is_recorded_only_when_asked_for() {
    let mut hot = test_tier();
    let clock = hot.access_clock;
    assert!(hot.get_entity_readonly(1).is_some());
    assert_eq!(hot.access_clock, clock);
    let stamp = hot.get_entity(1).map(|m| m.last_access);
    assert_eq!(stamp, Some(hot.access_clock));
    if let Some(meta) = hot.get_entity_mut(2) {
        meta.position = None;
    }
    assert_eq!(hot.position_of(2), None);
    assert!(hot.get_entity(99).is_none());
    assert!(hot.reload_entity(99, None).is_none());
}

#[test]
fn spatial_queries_only_report_loaded_entities() {
    let mut hot = test_tier();
    let mut found = hot.query_spatial(f(-1.0), f(-1.0), f(1.0), f(1.0), 4);
    found.sort();
    assert_eq!(found, vec![1, 2]);
    hot.touch_entities(&[2, 3]);
    hot.evict_lru(1);
    let mut out = Vec::new();
    hot.query_spatial_into(f(-1.0), f(-1.0), f(1.0), f(1.0), 4, &mut out);
    assert_eq!(out, vec![2]);
    let mut reached = Vec::new();
    hot.traverse_bfs_into(1, 1, &[], &mut reached);
    assert_eq!(reached, vec![1, 2]);
    assert!(!hot.over_threshold());
    assert!(!HotTier::empty(2).is_loaded(1));
}

fn store(file: &mut Vec<u8>, write: &WarmWrite) {
    let end = write.offset + write.bytes.len();
    if file.len() < end {
        file.resize(end, 0);
    }
    file[write.offset..end].copy_from_slice(&write.bytes);
}

fn put(warm: &mut WarmTier, file: &mut Vec<u8>, rowid: u64, meta: &EntityMeta) {
    let write = warm.put(rowid, meta);
    store(file, &write);
    warm.put_done(rowid, &write);
}

fn read(warm: &WarmTier, file: &[u8], rowid: u64) -> Option<EntityMeta> {
    let entry = warm.get(rowid)?;
    let bytes = &file[entry.offset..entry.offset + entry.len];
    if is_readable(bytes) {
        Some(decode_entity(bytes))
    } else {
        None
    }
}

#[test]
fn round_trips_entity_meta() {
    let mut file: Vec<u8> = vec![0; 4096];
    let mut warm = WarmTier::create(4096);
    let meta = EntityMeta {
        position: Some((f(0.5), f(-0.25))),
        last_access: 42,
    };
    put(&mut warm, &mut file, 1, &meta);
    put(
        &mut warm,
        &mut file,
        2,
        &EntityMeta {
            position: None,
            last_access: 7,
        },
    );

    let first = read(&warm, &file, 1).unwrap();
    assert_eq!(first.position, Some((f(0.5), f(-0.25))));
    assert_eq!(first.last_access, 42);

    let second = read(&warm, &file, 2).unwrap();
    assert_eq!(second.position, None);
    assert_eq!(second.last_access, 7);

    assert!(warm.get(99).is_none());
}

#[test]
fn remove_works() {
    let mut file: Vec<u8> = vec![0; 4096];
    let mut warm = WarmTier::create(4096);
    put(
        &mut warm,
        &mut file,
        1,
        &EntityMeta {
            position: None,
            last_access: 0,
        },
    );
    assert!(warm.contains(1));
    assert_eq!(warm.len(), 1);
    warm.remove(1);
    assert!(!warm.contains(1));
    assert_eq!(warm.len(), 0);
}

#[test]
fn entities_have_fixed_byte_forms() {
    let placed = EntityMeta {
        position: Some((f(1.0), f(-2.0))),
        last_access: 3,
    };
    let bytes = encode_entity(258, &placed);
    assert!(is_readable(&bytes));
    let back = decode_entity(&bytes);
    assert_eq!(back.position, placed.position);
    assert_eq!(back.last_access, 3);
    assert!(!is_readable(&bytes[..bytes.len() - 1]));
}

#[test]
fn an_empty_image_opens_to_an_empty_cache() {
    let warm = WarmTier::open(4096, &[]);
    assert_eq!(warm.len(), 0);
    assert!(!warm.contains(1));
}

#[test]
fn a_reopened_file_gives_back_what_was_put() {
    let mut file: Vec<u8> = vec![0; 4096];
    let mut warm = WarmTier::create(4096);
    let placed = EntityMeta {
        position: Some((f(0.5), f(-0.25))),
        last_access: 42,
    };
    let unplaced = EntityMeta {
        position: None,
        last_access: 7,
    };
    put(&mut warm, &mut file, 1, &unplaced);
    put(&mut warm, &mut file, 2, &placed);

    let mut again = WarmTier::open(4096, &file);
    assert_eq!(again.len(), 2);
    assert!(!again.contains(0));
    assert_eq!(again.write_offset, warm.write_offset);
    let first = read(&again, &file, 1).unwrap();
    assert_eq!(first.position, None);
    assert_eq!(first.last_access, 7);
    let second = read(&again, &file, 2).unwrap();
    assert_eq!(second.position, placed.position);
    assert_eq!(second.last_access, 42);

    put(&mut again, &mut file, 1, &placed);
    let last = WarmTier::open(4096, &file);
    assert_eq!(last.len(), 2);
    assert_eq!(read(&last, &file, 1).unwrap().last_access, 42);
    assert_eq!(read(&last, &file, 2).unwrap().last_access, 42);
}

#[test]
fn an_open_stops_at_an_entity_that_is_cut_off() {
    let mut file: Vec<u8> = vec![0; 64];
    let mut warm = WarmTier::create(64);
    let unplaced = EntityMeta {
        position: None,
        last_access: 7,
    };
    put(&mut warm, &mut file, 1, &unplaced);
    put(&mut warm, &mut file, 2, &unplaced);

    let whole = WarmTier::open(64, &file[..50]);
    assert_eq!(whole.len(), 2);
    assert_eq!(whole.write_offset, 58);
    assert_eq!(whole.capacity, 64);
    let cut = WarmTier::open(8, &file[..49]);
    assert_eq!(cut.len(), 1);
    assert!(cut.contains(1));
    assert_eq!(cut.write_offset, 29);
    assert_eq!(cut.capacity, 49);
}

#[test]
fn an_open_stops_where_length_and_flag_do_not_fit() {
    let unplaced = EntityMeta {
        position: None,
        last_access: 7,
    };
    let mut file: Vec<u8> = vec![0; 128];
    let mut warm = WarmTier::create(128);
    put(&mut warm, &mut file, 1, &unplaced);
    put(&mut warm, &mut file, 2, &unplaced);
    put(&mut warm, &mut file, 3, &unplaced);
    file[29 + 12] = 1;
    let flagged = WarmTier::open(128, &file);
    assert_eq!(flagged.len(), 1);
    assert_eq!(flagged.write_offset, 29);
    file[29 + 12] = 0;
    file[29 + 8] = 10;
    assert_eq!(WarmTier::open(128, &file).len(), 1);
    file[29 + 8] = 9;
    assert_eq!(WarmTier::open(128, &file).len(), 3);
}

#[test]
fn starting_over_drops_what_is_overwritten() {
    let mut file: Vec<u8> = vec![0; 96];
    let mut warm = WarmTier::create(96);
    let placed = EntityMeta {
        position: Some((f(1.0), f(2.0))),
        last_access: 9,
    };
    let unplaced = EntityMeta {
        position: None,
        last_access: 7,
    };
    put(&mut warm, &mut file, 1, &unplaced);
    put(&mut warm, &mut file, 2, &unplaced);
    put(&mut warm, &mut file, 3, &unplaced);
    assert_eq!(warm.write_offset, 87);

    put(&mut warm, &mut file, 4, &unplaced);
    assert!(!warm.contains(1));
    assert_eq!(warm.write_offset, 29);
    put(&mut warm, &mut file, 5, &placed);
    assert!(!warm.contains(2));
    assert!(warm.contains(3));
    assert_eq!(read(&warm, &file, 3).unwrap().last_access, 7);
    put(&mut warm, &mut file, 6, &unplaced);
    assert!(!warm.contains(3));
    assert_eq!(warm.len(), 3);
    assert_eq!(read(&warm, &file, 4).unwrap().last_access, 7);
    assert_eq!(read(&warm, &file, 5).unwrap().position, placed.position);
    assert_eq!(read(&warm, &file, 6).unwrap().last_access, 7);
}

#[test]
fn only_reloads_and_evictions_move_slots() {
    let mut hot = HotTier::load(&[1, 2, 3], &[], &[], 1);
    let slots = |hot: &HotTier| -> Vec<Option<(usize, u16)>> {
        hot.roster
            .entity_ptrs
            .iter()
            .map(|p| p.as_ref().map(|p| (p.data.get_index(), p.data.get_epoch())))
            .collect()
    };
    let fresh = vec![Some((0, 0)), Some((1, 0)), Some((2, 0))];
    assert_eq!(slots(&hot), fresh);
    hot.get_entity(1);
    hot.touch_entities(&[2, 3]);
    assert_eq!(slots(&hot), fresh);

    assert!(hot.reload_entity(2, None).is_some());
    assert_eq!(slots(&hot), vec![Some((0, 0)), Some((1, 1)), Some((2, 0))]);

    let memory = hot.memory_used;
    let evicted = hot.evict_lru(1);
    assert_eq!(evicted[0].0, 1);
    assert_eq!(slots(&hot), vec![None, Some((1, 1)), Some((2, 0))]);
    assert_eq!(hot.memory_used, memory - 24);
    assert!(hot.reload_entity(1, Some((f(0.5), f(0.5)))).is_some());
    assert_eq!(slots(&hot), vec![Some((0, 1)), Some((1, 1)), Some((2, 0))]);
    assert_eq!(hot.memory_used, memory);
    assert_eq!(hot.position_of(1), Some((f(0.5), f(0.5))));
    assert!(hot.roster.has_epochs_left());
}
