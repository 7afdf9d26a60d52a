//! Graph topology, spatial index, entity tiers and request handling.

pub mod answer_laws;
pub mod cell_walk;
pub mod cold_tier;
pub mod dispatch;
pub mod edge_csr;
pub mod edge_laws;
pub mod entity_store;
pub mod graph_index;
pub mod graph_store;
pub mod hot_tier;
pub mod memory_laws;
pub mod order_laws;
pub mod pipeline;
pub mod pipeline_laws;
pub mod place_laws;
pub mod query_ctx;
pub mod search_laws;
pub mod sorted;
pub mod roster;
pub mod row_laws;
pub mod rows;
pub mod spatial_index;
pub mod spatial_laws;
pub mod store_laws;
pub mod tile_math;
pub mod traversal;
pub mod traversal_laws;
pub mod warm_laws;
pub mod warm_tier;
