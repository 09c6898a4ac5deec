//! Project dashboard.
pub mod api;
