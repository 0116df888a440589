//! A local image search library: the index that maps image ids to file
//! paths, the store of image embeddings, the rules that pick the images to
//! index and the search hits to show, and the state machine that drives
//! indexing and search.
pub mod app;
pub mod db;
pub mod engine;
mod key_index;
pub mod paths;
pub mod ui;
