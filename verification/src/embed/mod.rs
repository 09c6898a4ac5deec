//! Chunking of source files for embedding, and the index bookkeeping around it.
pub mod ast_chunker;
pub mod chunker;
pub mod syntax;
pub mod index;
pub mod drift;
