//! Wire protocol: values, messages and the tile frame.

pub mod layout_laws;
pub mod le;
pub mod messages;
pub mod payload;
pub mod tile;
pub mod types;
