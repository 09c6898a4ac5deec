//! Language-server clients.
pub mod manager;
pub mod mock;
