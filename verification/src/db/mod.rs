//! The image index: which file each image id names, and the stored
//! embeddings.
pub mod assoc;
pub mod metadata;
pub mod vector_store;
