use segraph::float::{Float32, Float64};
use segraph::proto::messages::{ClientMessage, ServerMessage};
use segraph::proto::types::{
    BlobRef, CodecSet, Direction, GetBlob, GetEdges, GetEntity, IndexQuery, PropertyType,
    Traverse, Value,
};
use segraph::server::cold_tier::{
    blob_range, connection_for, count_from, pool_size, pool_size_for, position_batch_sql,
    stats_from,
};
use segraph::server::dispatch::{
    dispatch_get_edges, dispatch_get_entity, dispatch_search, dispatch_traverse, done_message,
    entity_loaded, entity_response, extract_entity, hello, not_found_text, panic_text,
    property_answers, row_to_value, spatial_answers, BlobReader, ExtractStep, Incoming,
    SearchPlan, Session, SessionStep,
};
use segraph::server::edge_csr::EdgeCsr;
use segraph::server::entity_store::EntityStore;
use segraph::server::graph_index::{edge_memory_of, spatial_bits_for_count, GraphIndex};
use segraph::server::pipeline::{EntityStep, Pipeline, PipelineConfig};
use segraph::server::query_ctx::QueryContext;
use segraph::server::roster::EntityMeta;
use segraph::server::rows::{BlobRow, EdgeRow, GraphStats, PropertyRow};
use segraph::server::sorted::sort_unique;
use segraph::server::warm_tier::WarmTier;

fn f(v: f32) -> Float32 {
    Float32 { bits: v.to_bits() }
}

fn edge(id: u64, source: u64, target: u64, label: u32) -> EdgeRow {
    EdgeRow {
        id,
        source_entity: source,
        target_entity: target,
        label,
    }
}

fn config(threshold: usize, batch: usize) -> PipelineConfig {
    PipelineConfig {
        hot_memory_threshold: threshold,
        warm_cache_capacity: 4096,
        evict_batch_size: batch,
    }
}

fn graph(threshold: usize, batch: usize) -> (Pipeline, EntityStore) {
    Pipeline::load(
        &[1, 2, 3],
        &[edge(1, 1, 2, 1), edge(2, 2, 3, 1), edge(3, 1, 3, 2)],
        &[(1, f(0.0), f(0.0)), (2, f(0.8), f(0.8))],
        config(threshold, batch),
        1,
    )
}

fn ids(messages: &[ServerMessage]) -> Vec<u64> {
    messages
        .iter()
        .map(|m| match m {
            ServerMessage::Entity(e) => e.id,
            _ => panic!("not an entity"),
        })
        .collect()
}

#[test]
fn default_configuration_has_the_documented_limits() {
    let c = PipelineConfig::default();
    assert_eq!(c.evict_batch_size, 256);
    assert!(c.hot_memory_threshold > 0);
    assert!(c.warm_cache_capacity > 0);
}

#[test]
fn edges_are_listed_in_both_directions() {
    let csr = EdgeCsr::load(&[10, 20, 30], &[edge(1, 10, 20, 5), edge(2, 30, 20, 6), edge(3, 10, 99, 7)]);
    assert_eq!(csr.entity_count(), 3);
    let a = csr.find_entity_index(10).unwrap();
    let b = csr.find_entity_index(20).unwrap();
    assert_eq!(csr.entity_rowid(b), 20);
    assert_eq!(csr.outgoing(a).targets, &[b]);
    assert_eq!(csr.outgoing(a).labels, &[5]);
    assert_eq!(csr.outgoing(a).rowids, &[1]);
    let mut into: Vec<u64> = csr.incoming(b).rowids.to_vec();
    into.sort();
    assert_eq!(into, vec![1, 2]);
    assert!(csr.find_entity_index(99).is_none());
    assert_eq!(csr.entity_rowid(9), 0);
    assert_eq!(EdgeCsr::empty().entity_count(), 0);
}

#[test]
fn parallel_edges_are_mirrored_with_their_number() {
    let csr = EdgeCsr::load(
        &[10, 20],
        &[edge(1, 10, 20, 5), edge(1, 10, 20, 5), edge(2, 10, 20, 5), edge(3, 20, 10, 5)],
    );
    let out = csr.outgoing(0);
    let into = csr.incoming(1);
    assert_eq!(out.targets, &[1, 1, 1]);
    assert_eq!(into.sources, &[0, 0, 0]);
    assert_eq!(into.labels, &[5, 5, 5]);
    let mut left: Vec<u64> = out.rowids.to_vec();
    let mut right: Vec<u64> = into.rowids.to_vec();
    left.sort();
    right.sort();
    assert_eq!(left, vec![1, 1, 2]);
    assert_eq!(right, left);
    assert_eq!(csr.incoming(0).rowids, &[3]);
}

#[test]
fn grid_size_follows_the_number_of_nodes() {
    assert_eq!(spatial_bits_for_count(0), spatial_bits_for_count(1));
    let mut last = 0;
    for n in [1usize, 100, 10_000, 1_000_000, 100_000_000] {
        let bits = spatial_bits_for_count(n);
        assert!(bits >= last);
        assert!(bits <= 15);
        last = bits;
    }
}

#[test]
fn index_reports_what_it_holds() {
    let (index, placed, _, _) = GraphIndex::load(
        &[1, 2],
        &[edge(1, 1, 2, 1)],
        &[(2, f(0.5), f(0.5)), (9, f(0.1), f(0.1))],
    );
    assert_eq!(placed.len(), 1);
    assert!(edge_memory_of(&index.edge_csr) > 0);
    let mut ctx = QueryContext::new();
    assert_eq!(index.traverse_bfs(&mut ctx, 1, 5, &[]), vec![1, 2]);
    assert_eq!(index.traverse_bfs(&mut ctx, 1, 5, &[]), vec![1, 2]);
    assert_eq!(index.traverse_bfs(&mut ctx, 1, 5, &[7]), vec![1]);
}

#[test]
fn entities_go_through_memory_cache_and_database() {
    let (pipeline, mut entities) = graph(usize::MAX, 1);
    let warm = WarmTier::create(4096);
    assert!(matches!(
        pipeline.get_entity(&entities, 1),
        EntityStep::Done(Some(_))
    ));
    let gone = entities.evict_lru(1, &pipeline.index);
    let rowid = gone[0].0;
    assert!(matches!(pipeline.get_entity(&entities, rowid), EntityStep::CheckWarm));
    assert!(matches!(pipeline.check_warm(&warm, rowid), EntityStep::ReadCold));
    assert!(pipeline.may_promote(&entities, rowid));
    let meta = pipeline.cold_read(&mut entities, rowid, Some((f(0.25), f(0.5))));
    assert_eq!(meta.unwrap().position, Some((f(0.25), f(0.5))));
    assert!(entities.is_loaded(rowid, &pipeline.index));
    assert_eq!(
        entities.position_of(rowid, &pipeline.index),
        Some((f(0.25), f(0.5)))
    );
}

#[test]
fn a_cached_entity_is_read_back() {
    let (pipeline, mut entities) = graph(usize::MAX, 1);
    let gone = entities.evict_lru(1, &pipeline.index);
    let rowid = gone[0].0;
    let mut warm = WarmTier::create(4096);
    let write = warm.put(rowid, &gone[0].1);
    warm.put_done(rowid, &write);
    assert!(matches!(pipeline.check_warm(&warm, rowid), EntityStep::ReadWarm(_)));
    let meta = EntityMeta {
        position: Some((f(0.1), f(0.2))),
        last_access: 5,
    };
    match pipeline.warm_read(&mut entities, rowid, Some(meta)) {
        EntityStep::Done(Some(m)) => assert_eq!(m.position, meta.position),
        _ => panic!("not found"),
    }
    assert!(matches!(
        pipeline.warm_read(&mut entities, rowid, None),
        EntityStep::ReadCold
    ));
}

#[test]
fn memory_over_the_threshold_is_given_back_in_batches() {
    let (pipeline, mut entities) = graph(1, 2);
    assert!(entities.over_threshold());
    assert!(entities.roster.has_epochs_left());
    assert_eq!(pipeline.maybe_evict(&mut entities).len(), 2);
    let (pipeline, mut entities) = graph(usize::MAX, 2);
    assert!(pipeline.maybe_evict(&mut entities).is_empty());
}

#[test]
fn reloading_gives_an_entity_its_new_position() {
    let (pipeline, mut entities) = graph(usize::MAX, 1);
    assert_eq!(
        entities.reload_entity(3, Some((f(0.3), f(0.3))), &pipeline.index),
        Some(())
    );
    assert_eq!(
        entities.get_entity_readonly(3, &pipeline.index).unwrap().position,
        Some((f(0.3), f(0.3)))
    );
    assert_eq!(entities.reload_entity(77, None, &pipeline.index), None);
}

#[test]
fn edges_follow_direction_labels_and_limit() {
    let (pipeline, _) = graph(usize::MAX, 1);
    let ask = |direction, labels: Vec<u32>, limit| {
        dispatch_get_edges(
            &pipeline,
            4,
            &GetEdges {
                entity_id: 3,
                direction,
                label_filter: labels,
                limit,
            },
        )
    };
    assert!(ask(Direction::Outgoing, vec![], 10).is_empty());
    assert_eq!(ask(Direction::Incoming, vec![], 10).len(), 2);
    assert_eq!(ask(Direction::Both, vec![2], 10).len(), 1);
    assert_eq!(ask(Direction::Incoming, vec![], 1).len(), 1);
    match &ask(Direction::Incoming, vec![2], 10)[0] {
        ServerMessage::Edge(e) => assert_eq!((e.id, e.source, e.target, e.label), (3, 1, 3, 2)),
        _ => panic!("not an edge"),
    }
    let unknown = dispatch_get_edges(
        &pipeline,
        4,
        &GetEdges {
            entity_id: 9,
            direction: Direction::Both,
            label_filter: vec![],
            limit: 10,
        },
    );
    assert_eq!(
        unknown,
        vec![ServerMessage::Error {
            query_id: 4,
            message: "entity not found: 9".to_string()
        }]
    );
}

#[test]
fn traversals_and_searches_name_entities() {
    let (pipeline, entities) = graph(usize::MAX, 1);
    let mut ctx = QueryContext::default();
    let request = |depth, limit| Traverse {
        start_id: 1,
        depth,
        edge_labels: vec![1],
        limit,
    };
    assert_eq!(ids(&dispatch_traverse(&pipeline, &mut ctx, &request(1, 10))), vec![1, 2]);
    assert_eq!(ids(&dispatch_traverse(&pipeline, &mut ctx, &request(2, 10))), vec![1, 2, 3]);
    assert_eq!(ids(&dispatch_traverse(&pipeline, &mut ctx, &request(2, 2))), vec![1, 2]);
    let mut found = ids(&spatial_answers(
        &pipeline, &mut ctx, &entities, f(-1.0), f(-1.0), f(1.0), f(1.0), 10,
    ));
    found.sort();
    assert_eq!(found, vec![1, 2]);
    assert_eq!(
        ids(&spatial_answers(
            &pipeline, &mut ctx, &entities, f(0.5), f(0.5), f(0.9), f(0.9), 10
        )),
        vec![2]
    );
    assert!(spatial_answers(
        &pipeline, &mut ctx, &entities, f(0.5), f(0.5), f(0.9), f(0.9), 0
    )
    .is_empty());
}

#[test]
fn searches_by_property_ignore_the_value() {
    let by_range = dispatch_search(IndexQuery::Range {
        key: "age".to_string(),
        min: Value::Int(1),
        max: Value::Int(2),
        limit: 7,
    });
    match by_range {
        SearchPlan::Property { key, limit } => assert_eq!((key.as_str(), limit), ("age", 7)),
        _ => panic!("not a property search"),
    }
    let wide = Float64 {
        bits: 1.5f64.to_bits(),
    };
    let spatial = dispatch_search(IndexQuery::Spatial {
        min_x: wide,
        min_y: wide,
        max_x: wide,
        max_y: wide,
        limit: 1,
    });
    match spatial {
        SearchPlan::Spatial { min_x, limit, .. } => {
            assert_eq!((f32::from_bits(min_x.bits), limit), (1.5, 1))
        }
        _ => panic!("not a spatial search"),
    }
    assert_eq!(ids(&property_answers(3, Ok(vec![5, 6]))), vec![5, 6]);
    assert_eq!(
        property_answers(3, Err("no table".to_string())),
        vec![ServerMessage::Error {
            query_id: 3,
            message: "no table".to_string()
        }]
    );
}

#[test]
fn requests_for_entities_report_each_failure() {
    let (pipeline, _) = graph(usize::MAX, 1);
    let request = |id| GetEntity {
        id,
        want_properties: true,
        want_blobs: false,
    };
    assert!(matches!(extract_entity(&pipeline, &request(1)), ExtractStep::LoadEntity));
    match extract_entity(&pipeline, &request(44)) {
        ExtractStep::Fail(text) => assert_eq!(text, "entity not found: 44"),
        _ => panic!("found"),
    }
    match entity_loaded(&request(1), Err("disk".to_string())) {
        ExtractStep::Fail(text) => assert_eq!(text, "load entity: disk"),
        _ => panic!("loaded"),
    }
    match entity_loaded(&request(1), Ok(None)) {
        ExtractStep::Fail(text) => assert_eq!(text, "entity slot empty: 1"),
        _ => panic!("loaded"),
    }
    let meta = EntityMeta {
        position: None,
        last_access: 0,
    };
    assert!(matches!(
        entity_loaded(&request(1), Ok(Some(meta))),
        ExtractStep::LoadRows {
            properties: true,
            blobs: false
        }
    ));
    assert_eq!(
        dispatch_get_entity(8, Err("x".to_string())),
        ServerMessage::Error {
            query_id: 8,
            message: "x".to_string()
        }
    );
    assert_eq!(not_found_text(12), "entity not found: 12");
    assert_eq!(panic_text("boom"), "panic: boom");
    assert_eq!(done_message(3), ServerMessage::Done { query_id: 3 });
}

fn property(value_type: u8) -> PropertyRow {
    PropertyRow {
        entity_id: 1,
        key: "k".to_string(),
        value_type,
        value_int: Some(42),
        value_float: Some(Float64 {
            bits: 0.75f64.to_bits(),
        }),
        value_text: Some("test".to_string()),
    }
}

#[test]
fn rows_become_values_by_their_type() {
    assert_eq!(row_to_value(&property(1)), Value::Int(42));
    assert_eq!(
        row_to_value(&property(2)),
        Value::Float(Float64 {
            bits: 0.75f64.to_bits()
        })
    );
    assert_eq!(row_to_value(&property(3)), Value::Text("test".to_string()));
    assert_eq!(row_to_value(&property(4)), Value::Bool(true));
    assert_eq!(row_to_value(&property(5)), Value::Blob(BlobRef::new(42, 0)));
    assert_eq!(row_to_value(&property(9)), Value::Text(String::new()));
    for code in 1..=5u8 {
        assert_eq!(PropertyType::from_u8(code).unwrap().to_u8(), code);
    }
    assert!(PropertyType::from_u8(0).is_none());
    assert!(PropertyType::from_u8(6).is_none());
}

#[test]
fn answers_hold_what_was_asked_for() {
    let blob = BlobRow {
        entity_id: 1,
        key: "data".to_string(),
        hash: 999,
        mime: String::new(),
        size_bytes: 1024,
    };
    let answer = |want_properties, want_blobs| {
        entity_response(
            &GetEntity {
                id: 1,
                want_properties,
                want_blobs,
            },
            &vec![property(1)],
            &vec![blob.clone()],
        )
    };
    assert_eq!(answer(true, false).properties[0].value, Value::Int(42));
    assert!(answer(true, false).blob_refs.is_empty());
    assert_eq!(
        answer(false, true).blob_refs,
        vec![("data".to_string(), BlobRef::new(999, 1024))]
    );
    assert!(answer(false, true).properties.is_empty());
}

#[test]
fn sessions_number_their_requests() {
    let mut session = Session::new();
    let request = || {
        Incoming::Request(ClientMessage::GetBlob(GetBlob {
            hash: 1,
            offset: 0,
            chunk_size: 4,
        }))
    };
    assert!(matches!(session.on_message(request()), SessionStep::Run(0, _)));
    match session.on_message(Incoming::Other) {
        SessionStep::Reply(ServerMessage::Error { query_id, message }) => {
            assert_eq!((query_id, message.as_str()), (0, "expected_binary_rkyv_message"))
        }
        _ => panic!("no error"),
    }
    match session.on_message(Incoming::Undecodable("bad".to_string())) {
        SessionStep::Reply(ServerMessage::Error { message, .. }) => {
            assert_eq!(message, "decode: bad")
        }
        _ => panic!("no error"),
    }
    assert!(matches!(session.on_message(request()), SessionStep::Run(1, _)));
    session.next_query = u32::MAX;
    assert!(matches!(session.on_message(request()), SessionStep::Run(u32::MAX, _)));
    assert_eq!(session.next_query, 0);
}

#[test]
fn the_first_message_gives_the_statistics() {
    let stats = GraphStats {
        entities: 3,
        edges: 2,
        blobs: 1,
        blob_bytes: 4096,
    };
    match hello(&stats) {
        ServerMessage::Hello { stats } => {
            assert_eq!((stats.entities, stats.edges, stats.blob_bytes), (3, 2, 4096));
            assert!(stats.supported_codecs.contains(CodecSet::raw()));
            assert!(stats.supported_codecs.contains(CodecSet::quantized_u16()));
            assert!(stats.supported_codecs.contains(CodecSet::zstd()));
            assert!(!CodecSet::raw().contains(CodecSet::zstd()));
            assert_eq!(CodecSet::default(), CodecSet::all());
        }
        _ => panic!("no greeting"),
    }
}

#[test]
fn blobs_are_passed_on_chunk_by_chunk() {
    let content: Vec<u8> = (0..10).collect();
    let request = GetBlob {
        hash: 0xab,
        offset: 2,
        chunk_size: 3,
    };
    let row = BlobRow {
        entity_id: 1,
        key: String::new(),
        hash: 0xab,
        mime: String::new(),
        size_bytes: 10,
    };
    let mut reader = BlobReader::start(&request, Ok(Some(row))).unwrap();
    let mut got: Vec<u8> = Vec::new();
    while !reader.done {
        let from = reader.offset as usize;
        let to = (from + reader.chunk_size as usize).min(content.len());
        if let Some(ServerMessage::BlobChunk(c)) = reader.take_chunk(Some(content[from..to].to_vec())) {
            assert_eq!((c.hash, c.offset, c.total_size), (0xab, from as u64, 10));
            got.extend_from_slice(&c.data);
        }
    }
    assert_eq!(got, content[2..].to_vec());
    assert_eq!(
        BlobReader::start(&request, Ok(None)).err(),
        Some("blob not found: ab".to_string())
    );
    assert_eq!(
        BlobReader::start(&request, Err("io".to_string())).err(),
        Some("io".to_string())
    );
}

#[test]
fn a_missing_or_empty_chunk_ends_a_blob() {
    let start = || BlobReader {
        hash: 1,
        offset: 0,
        total: 9,
        chunk_size: 3,
        done: false,
    };
    let mut reader = start();
    assert!(reader.take_chunk(None).is_none());
    assert!(reader.done);
    let mut reader = start();
    assert!(reader.take_chunk(Some(vec![])).is_none());
    assert!(reader.done);
}

#[test]
fn statements_and_parameters_have_fixed_forms() {
    assert_eq!(
        position_batch_sql(3),
        "SELECT entity_id, x, y FROM position_component WHERE entity_id IN (?1, ?2, ?3)"
    );
    assert_eq!(blob_range(0, 1024), (1, 1024));
    assert_eq!(blob_range(u64::MAX, 1), (0, 1));
    assert_eq!(count_from(-1), None);
    assert_eq!(count_from(7), Some(7));
    let stats = stats_from(3, 1, 1, 4096).unwrap();
    assert_eq!((stats.entities, stats.edges, stats.blobs, stats.blob_bytes), (3, 1, 1, 4096));
    assert_eq!(stats_from(-1, 1, 1, 1).err(), Some(0));
    assert_eq!(stats_from(1, -1, 1, 1).err(), Some(1));
    assert_eq!(stats_from(1, 1, -1, 1).err(), Some(2));
    assert_eq!(stats_from(1, 1, 1, -1).err(), Some(3));
    assert_eq!((pool_size_for(0), pool_size_for(5), pool_size_for(50)), (1, 5, 8));
    assert_eq!((pool_size(None), pool_size(Some(3)), pool_size(Some(64))), (2, 3, 4));
    assert_eq!(connection_for(7, 3), 1);
}

#[test]
fn numbers_are_sorted_without_repetition() {
    assert_eq!(sort_unique(vec![3, 1, 3, 2, 1]), vec![1, 2, 3]);
    assert!(sort_unique(vec![]).is_empty());
}
