//! Indexing: which files are images and which of them still need an
//! embedding.
pub mod preprocessor;
pub mod indexer;
