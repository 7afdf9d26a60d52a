use rand::rngs::StdRng;
use rand::SeedableRng;
use segraph::bench::graph_gen::{
    clamp_degree, neighbours, to_csv, EdgeData, EdgeGenerator, GraphConfig, GraphScale, NodeData,
    NodeRow,
};
use segraph::bench::grouping::{comes_before, group_texts};
use segraph::bench::markdown::{line_op, line_text, markdown_plan, report_head, MdLine, Shown};
use segraph::bench::plan::{
    entity_get_result, import_batches, op_label, report_format, sample_ids, scan_ids, start_ids,
    suite, viewports, wants_neo4j, wants_server, warmup_ids, BenchOp, BenchRunner, ReportFormat,
};
use segraph::bench::report::{
    csv_escape, csv_line, format_op_label, group_by_op, label_can_be_cut, op_key, short_label,
    timestamp, SystemInfo, SystemSummary, CSV_HEADER,
};
use segraph::bench::waw_graph::{traverse_2hop, viewport_query, WawGraph};
use segraph::float::Float32;
use segraph::text::{
    decimal, has_start, hexadecimal, joined, optional_decimal, pad_left, pad_right, replace_all,
    same_text,
};

fn f(v: f32) -> Float32 {
    Float32 { bits: v.to_bits() }
}

fn node(id: u64, x: f32, y: f32, cluster: u32) -> NodeData {
    NodeData {
        id,
        x: f(x),
        y: f(y),
        cluster,
    }
}

fn texts(list: &[&str]) -> Vec<String> {
    list.iter().map(|s| s.to_string()).collect()
}

#[test]
fn numbers_become_text() {
    for n in [0u64, 7, 10, 99, 1234567890, u64::MAX] {
        assert_eq!(decimal(n), format!("{n}"));
        assert_eq!(hexadecimal(n), format!("{n:x}"));
    }
    assert_eq!(optional_decimal(None), "");
    assert_eq!(optional_decimal(Some(5)), "5");
    assert_eq!(joined("ab", "cd"), "abcd");
}

#[test]
fn texts_are_padded_compared_and_replaced() {
    assert_eq!(pad_right("ab", 4), "ab  ");
    assert_eq!(pad_left("—", 3), "  —");
    assert_eq!(pad_left("abcd", 3), "abcd");
    assert!(same_text("é", "é"));
    assert!(!same_text("ab", "ac"));
    assert!(has_start("full_scan", "full"));
    assert!(!has_start("fu", "full"));
    for (text, from, to) in [("aaa", "aa", "b"), ("xyx", "x", ""), ("none", "q", "z"), ("", "a", "b")] {
        assert_eq!(replace_all(text, from, to), text.replace(from, to));
    }
}

#[test]
fn texts_are_ordered_by_their_bytes() {
    let words = ["", "a", "ab", "b", "é", "z", "Z", "—"];
    for a in words {
        for b in words {
            assert_eq!(comes_before(a, b), a < b);
        }
    }
}

#[test]
fn equal_texts_are_grouped_in_order() {
    let groups = group_texts(&texts(&["b", "a", "b", "c", "a"]));
    let seen: Vec<(String, Vec<usize>)> = groups.into_iter().map(|g| (g.key, g.members)).collect();
    assert_eq!(
        seen,
        vec![
            ("a".to_string(), vec![1, 4]),
            ("b".to_string(), vec![0, 2]),
            ("c".to_string(), vec![3])
        ]
    );
}

#[test]
fn runner_has_default_counts() {
    let runner = BenchRunner::default();
    assert_eq!((runner.warmup_iterations, runner.measured_iterations), (10, 100));
    let runner = BenchRunner::new(1, 2);
    assert_eq!((runner.warmup_iterations, runner.measured_iterations), (1, 2));
}

#[test]
fn suite_has_fifteen_operations() {
    let ops = suite(100);
    assert_eq!(ops.len(), 15);
    let labels: Vec<String> = ops.iter().map(|&op| op_label(op)).collect();
    assert_eq!(
        labels,
        texts(&[
            "entity_get_0",
            "entity_get_25",
            "entity_get_50",
            "entity_get_75",
            "entity_get_99",
            "spatial_[-1.00_-1.00_1.00_1.00]",
            "spatial_[-0.50_-0.50_0.50_0.50]",
            "spatial_[-0.25_-0.25_0.25_0.25]",
            "spatial_[-1.00_-1.00_0.00_0.00]",
            "spatial_[0.00_0.00_1.00_1.00]",
            "bfs_depth2_from_0",
            "bfs_depth2_from_25",
            "bfs_depth2_from_50",
            "bfs_depth2_from_75",
            "full_scan",
        ])
    );
    assert_eq!(suite(0).len(), 6);
    assert_eq!(suite(1).len(), 15);
    assert_eq!(ops[14], BenchOp::FullScan);
    assert_eq!(viewports().len(), 5);
}

#[test]
fn sampled_entities_are_spread_over_the_graph() {
    assert_eq!(sample_ids(8), vec![0, 2, 4, 6, 7]);
    assert_eq!(start_ids(8), vec![0, 2, 4, 6]);
    assert_eq!(warmup_ids(8), vec![0, 4, 7]);
    assert!(sample_ids(0).is_empty() && warmup_ids(0).is_empty());
    let ids = scan_ids(250);
    assert_eq!(ids.len(), 100);
    assert_eq!((ids[0], ids[1], ids[99]), (0, 2, 247));
    assert_eq!(scan_ids(3), vec![0, 1, 2]);
    assert!(scan_ids(0).is_empty());
}

#[test]
fn a_failed_first_access_is_a_miss() {
    let hit = entity_get_result(4, Some((true, 12)));
    assert!(hit.hit && hit.elapsed_us == 12);
    let miss = entity_get_result(4, None);
    assert!(!miss.hit && miss.elapsed_us == 0 && miss.id == 4);
}

#[test]
fn imports_come_in_batches() {
    assert!(import_batches(0).is_empty());
    assert_eq!(import_batches(4999), vec![(0, 4999)]);
    assert_eq!(import_batches(10001), vec![(0, 5000), (5000, 10000), (10000, 10001)]);
}

#[test]
fn names_choose_systems_formats_and_scales() {
    assert!(wants_server("all") && wants_server("server") && wants_server("waw"));
    assert!(!wants_server("neo4j"));
    assert!(wants_neo4j("all") && wants_neo4j("neo4j") && !wants_neo4j("waw"));
    assert_eq!(report_format("json"), Some(ReportFormat::Json));
    assert_eq!(report_format("csv"), Some(ReportFormat::Csv));
    assert_eq!(report_format("md"), Some(ReportFormat::Markdown));
    assert_eq!(report_format("markdown"), Some(ReportFormat::Markdown));
    assert_eq!(report_format("xml"), None);
    for name in ["1K", "10K", "100K", "1M"] {
        assert_eq!(GraphScale::from_str(name).unwrap().label(), name);
    }
    assert!(GraphScale::from_str("2K").is_none());
    assert_eq!(GraphScale::Nodes100K.config().node_count, 100_000);
    let config = GraphConfig::default();
    assert_eq!((config.node_count, config.avg_degree, config.clusters, config.seed), (10_000, 5, 8, 42));
    assert_eq!(f64::from_bits(config.pareto_shape.bits), 2.0);
    assert_eq!(config.total_edges(), Some(50_000));
}

#[test]
fn degrees_are_clamped() {
    assert_eq!(clamp_degree(0, 100), 1);
    assert_eq!(clamp_degree(7, 100), 7);
    assert_eq!(clamp_degree(700, 100), 50);
    assert_eq!(clamp_degree(7, 1), 1);
}

#[test]
fn generated_edges_join_different_nodes_up_to_the_total() {
    let nodes: Vec<NodeData> = (0..20).map(|i| node(i, 0.0, 0.0, (i % 3) as u32)).collect();
    let mut rng = StdRng::seed_from_u64(42);
    let mut generator = EdgeGenerator::new(nodes.clone(), vec![4; 20], 50);
    let mut coin = false;
    while generator.wants_coin() {
        let before = generator.edges.len();
        let at = generator.node;
        coin = !coin;
        generator.step(coin, &mut rng);
        if coin && generator.edges.len() > before {
            let target = generator.edges[before].target as usize;
            assert_eq!(nodes[target].cluster, nodes[at].cluster);
        }
    }
    let edges = generator.finish();
    assert!(edges.len() <= 50 && edges.len() > 40);
    assert!(edges.iter().all(|e| e.source != e.target && e.target < 20));
    let targets: Vec<u64> = edges.iter().map(|e| e.target).collect();
    assert!(targets.iter().any(|&t| t != targets[0]));
}

#[test]
fn a_try_that_hits_its_own_node_draws_no_edge() {
    let nodes = vec![node(5, 0.0, 0.0, 0), node(6, 0.0, 0.0, 0)];
    assert_eq!(neighbours(&nodes, 0), vec![1]);
    let mut generator = EdgeGenerator::new(nodes, vec![2, 0], 10);
    generator.hit(0);
    assert!(generator.edges.is_empty());
    generator.hit(1);
    assert_eq!(generator.edges, vec![EdgeData { source: 5, target: 6 }]);
    assert!(!generator.wants_coin());
}

#[test]
fn graphs_are_written_as_csv() {
    let (nodes, edges) = to_csv(
        &vec![NodeRow {
            id: 3,
            x: "0.500000".to_string(),
            y: "-0.250000".to_string(),
            cluster: 2,
        }],
        &vec![EdgeData { source: 3, target: 4 }],
    );
    assert_eq!(nodes, "id:ID,x:FLOAT,y:FLOAT,cluster:INT\n3,0.500000,-0.250000,2\n");
    assert_eq!(edges, ":START_ID,:END_ID,:TYPE\n3,4,CONNECTS\n");
}

#[test]
fn viewports_count_the_nodes_inside() {
    let mut seed: u32 = 3;
    let mut step = || {
        seed = seed.wrapping_mul(1664525).wrapping_add(1013904223);
        seed as f32 / u32::MAX as f32 * 2.0 - 1.0
    };
    let nodes: Vec<NodeData> = (0..200)
        .map(|i| {
            let x = step();
            let y = step();
            node(i, x, y, 0)
        })
        .collect();
    let graph = WawGraph::load(&nodes, &[]);
    for (a, b, c, d) in [
        (-1.0f32, -1.0f32, 1.0f32, 1.0f32),
        (-0.5, -0.5, 0.5, 0.5),
        (0.2, -0.9, 0.21, 0.9),
        (0.5, 0.5, -0.5, -0.5),
    ] {
        let expected = nodes
            .iter()
            .filter(|n| n.x.within(f(a), f(c)) && n.y.within(f(b), f(d)))
            .count();
        assert_eq!(viewport_query(&graph, f(a), f(b), f(c), f(d)), expected);
    }
}

#[test]
fn two_hops_count_each_way() {
    let nodes: Vec<NodeData> = (0..4).map(|i| node(i, 0.0, 0.0, 0)).collect();
    let edges = [
        EdgeData { source: 0, target: 1 },
        EdgeData { source: 0, target: 2 },
        EdgeData { source: 1, target: 2 },
        EdgeData { source: 2, target: 0 },
        EdgeData { source: 2, target: 3 },
    ];
    let graph = WawGraph::load(&nodes, &edges);
    assert_eq!(traverse_2hop(&graph, 0), Some(5));
    assert_eq!(traverse_2hop(&graph, 3), Some(0));
    assert_eq!(graph.nodes[0].edges, vec![0, 1]);
    assert_eq!(graph.edges[4].target, 3);
}

#[test]
fn csv_fields_are_quoted_where_needed() {
    assert_eq!(csv_escape("plain"), "plain");
    assert_eq!(csv_escape("a,b"), "\"a,b\"");
    assert_eq!(csv_escape("say \"x\""), "\"say \"\"x\"\"\"");
    assert_eq!(csv_escape("a\nb"), "\"a\nb\"");
}

fn summary(system: &str, scale: &str, labels: &[&str]) -> SystemSummary {
    SystemSummary {
        system: system.to_string(),
        scale_label: scale.to_string(),
        node_count: 10,
        edge_count: 20,
        connection_ms: if system == "waw_server" { Some(3) } else { None },
        import_ms: Some(40),
        labels: texts(labels),
    }
}

#[test]
fn csv_lines_have_a_field_for_each_column() {
    let line = csv_line(&summary("neo4j", "1K", &[]), "full_scan", &texts(&["1", "2", "3", "4", "5", "6", "7", "8"]));
    assert_eq!(line, "1K,neo4j,10,20,,40,full_scan,1,2,3,4,5,6,7,8");
    assert_eq!(line.split(',').count(), CSV_HEADER.split(',').count());
}

#[test]
fn labels_stand_for_kinds_of_operations() {
    assert_eq!(op_key("entity_get_17"), "entity_get");
    assert_eq!(op_key("spatial_[-1.00_-1.00_1.00_1.00]"), "spatial_full_view");
    assert_eq!(op_key("spatial_[-0.50_-0.50_0.50_0.50]"), "spatial_mid");
    assert_eq!(op_key("spatial_[-0.25_-0.25_0.25_0.25]"), "spatial_small");
    assert_eq!(op_key("spatial_[-1.00_-1.00_0.00_0.00]"), "spatial_ll");
    assert_eq!(op_key("spatial_[0.00_0.00_1.00_1.00]"), "spatial_ur");
    assert_eq!(op_key("spatial_x"), "spatial");
    assert_eq!(op_key("bfs_depth2_from_3"), "bfs_depth2");
    assert_eq!(op_key("full_scan"), "full_scan");
    assert_eq!(op_key("other"), "other");
    let groups = group_by_op(&texts(&["full_scan", "entity_get_1", "entity_get_2"]));
    assert_eq!(groups[0].key, "entity_get");
    assert_eq!(groups[0].members, vec![1, 2]);
    assert_eq!(short_label("entity_get_5"), "get#5");
    assert_eq!(short_label("bfs_depth2_from_5"), "bfs#5");
}

#[test]
fn names_of_operations_fill_their_column() {
    assert_eq!(format_op_label("full_scan", 12), "Full scan   ");
    assert_eq!(format_op_label("entity_get", 6), "Entity");
    assert_eq!(format_op_label("whatever", 10), "whatever  ");
    assert_eq!(format_op_label("bfs_depth2", 11), "BFS depth=2");
    assert_eq!(format_op_label("spatial", 13), "Spatial query");
    assert!(label_can_be_cut("ééé", 4));
    assert!(!label_can_be_cut("ééé", 3));
}

#[test]
fn comparison_lists_shared_operations_before_others() {
    let results = vec![
        summary("neo4j", "1K", &["full_scan", "entity_get_3"]),
        summary("waw_server", "1K", &["entity_get_0", "bfs_depth2_from_0", "full_scan"]),
        summary("waw_server", "100K", &["full_scan"]),
        summary("neo4j", "10K", &[]),
    ];
    let plan = markdown_plan(&results);
    assert_eq!(
        plan,
        vec![
            MdLine::Scale { result: 2 },
            MdLine::MetricHead,
            MdLine::Connect { result: 2 },
            MdLine::Import { result: 2, against: None },
            MdLine::SingleHead,
            MdLine::Single { result: 2, sample: 0 },
            MdLine::Scale { result: 3 },
            MdLine::MetricHead,
            MdLine::Scale { result: 0 },
            MdLine::MetricHead,
            MdLine::Connect { result: 1 },
            MdLine::Import { result: 1, against: Some(0) },
            MdLine::PairHead,
            MdLine::Pair { result: 1, op: 1, other: 0, other_op: 0 },
            MdLine::Pair { result: 1, op: 2, other: 0, other_op: 1 },
            MdLine::Only { result: 1, op: 0 },
        ]
    );
    let shown = Shown {
        time: "1.00 ms".to_string(),
        other: "2.00 ms".to_string(),
        speedup: "2.0".to_string(),
    };
    let text = |i: usize| line_text(plan[i], &results, &shown);
    assert_eq!(text(0), "\n## Scale: 100K (10 nodes, 20 edges)\n");
    assert_eq!(text(2), "| Connect     | 3 ms        | —            | —       |");
    assert_eq!(text(3), "| Import      | 40 ms        | —            | —       |");
    assert_eq!(text(11), "| Import      | 40 ms        | 40 ms        | 2.0x   |");
    assert_eq!(
        text(13),
        "| Entity get (hot)      |          1.00 ms |          2.00 ms |      2.0x   |"
    );
    assert_eq!(
        text(14),
        "| Full scan             |          1.00 ms |          2.00 ms |      2.0x   |"
    );
    assert_eq!(
        text(15),
        "| BFS depth=2           |          1.00 ms |                — |          — |"
    );
    assert_eq!(text(5), "| Full scan             |          1.00 ms |");
    assert_eq!(line_op(plan[15], &results), Some("bfs_depth2".to_string()));
    assert_eq!(line_op(plan[0], &results), None);
    assert!(text(1).starts_with("| Metric"));
    assert!(text(12).contains("| Operation              | WAW Server       | Neo4j"));
    assert!(text(4).contains("| Operation              | WAW Server       |"));
}

#[test]
fn reports_describe_their_environment() {
    let info = SystemInfo::gather(Some(8), "linux", "x86_64", None);
    assert_eq!(info.cpu, "8 logical cores");
    assert_eq!(info.os, "linux x86_64");
    assert_eq!(info.rust_version, "unknown");
    assert_eq!(info.memory_mb, 0);
    assert_eq!(
        SystemInfo::gather(None, "a", "b", Some("1.90".to_string())).rust_version,
        "1.90"
    );
    assert_eq!(timestamp(12), "unix_12");
    assert_eq!(
        report_head("unix_12", "abc", &info),
        "\n# Benchmark Report\n\n**Timestamp**: unix_12\n**Git commit**: `abc`\n**System**: linux x86_64 (8 logical cores threads), unknown"
    );
}
