//! A verified graph engine: component storage, compressed adjacency, a spatial
//! grid, three storage tiers and the rules of the wire protocol.

pub mod bench;
pub mod client;
pub mod ecs;
pub mod float;
pub mod narrow;
pub mod proto;
pub mod rounding;
pub mod server;
pub mod text;
pub mod text_laws;
