//! Key/value table with an ordered expiration index.
pub mod laws;
pub mod storage;

pub use storage::{Entry, State};
