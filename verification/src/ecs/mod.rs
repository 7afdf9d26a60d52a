//! Reference-counted component storage with epochs.

pub mod cursor;
pub mod history;
pub mod laws;
pub mod pending;
pub mod pointer;
pub mod slot_laws;
pub mod storage;
pub mod walks;
