# neptune_lens

A local image search engine: folders of images are indexed with CLIP
embeddings, and a query image finds the most similar indexed images.

The crate is a Verus project.

- `src/` is the verified library:
  - `paths.rs`: the path model (drive, share and verbatim prefixes, components split at `/` or `\`, rooted
    paths, "same path" and "lies under a folder").
  - `db/metadata.rs`: the index from image ids to file paths, the reverse
    lookup, and the indexed folders.
  - `key_index.rs`: a hash index (FNV-1a over path keys) that finds the
    entries of a list of paths by key; the index of images and the choice
    of unindexed files look paths up through it.
  - `db/vector_store.rs`: the stored embeddings (as `f32` bit patterns), the
    next free id, the ranking of entries by score and the choice of search
    hits.
  - `engine/preprocessor.rs`: which files are images.
  - `engine/indexer.rs`: which found files still need indexing, and their
    numbering.
  - `app.rs`: the application state machine (starting and finishing indexing
    runs and searches, clearing, the actions of a frame).
  - `ui.rs`: shortened paths and file names for display.
- `app/` is the desktop program around it: the egui interface, the CLIP model
  (tract), image decoding, similarity scores, folder walking, threads, and the
  JSON/bincode files.
- `tests/` exercises the library.

`Cargo.toml` pins `kstring` to 2.0.0. Nothing here uses it directly: it is
a dependency of the `liquid` templates that `tract-linalg` runs in its build
script, and kstring's later 2.0.x releases ask for rustc 1.96, newer than
the toolchain this crate is built with.
