//! Verified core of a code-exploration agent: AST-aware chunking of source
//! files, file summaries, memory classification and the decisions of the
//! embedding index.
pub mod embed;
pub mod memory;
pub mod text;
pub mod tools;
pub mod dashboard;
pub mod lsp;
pub mod usage;
pub mod logging;
