//! Benchmarks of a graph server: what is run, and how results are reported.

pub mod graph_gen;
pub mod graph_laws;
pub mod grouping;
pub mod markdown;
pub mod markdown_laws;
pub mod plan;
pub mod plan_laws;
pub mod report;
pub mod report_laws;
pub mod waw_graph;
