//! Dashboard API handlers.
pub mod errors;
