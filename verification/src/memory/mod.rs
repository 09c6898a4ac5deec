//! Project memory.
pub mod classify;
