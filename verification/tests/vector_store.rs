use neptune_lens::db::metadata::ImageMetadata;
use neptune_lens::db::vector_store::{order_key, rank_top, VectorEntry, VectorStore};

/// The score key of a similarity.
fn key(similarity: f32) -> u32 {
    order_key(similarity.to_bits())
}

fn bits(v: &[f32]) -> Vec<u32> {
    v.iter().map(|x| x.to_bits()).collect()
}

fn dot(a: &[f32], b: &[u32]) -> f32 {
    a.iter().zip(b.iter()).map(|(x, y)| x * f32::from_bits(*y)).sum()
}

#[test]
fn test_vector_store_search() {
    let mut store = VectorStore::new();
    let mut meta = ImageMetadata::new();

    store.insert(0, bits(&[1.0, 0.0, 0.0]));
    meta.insert(0, String::from("a.jpg"));

    store.insert(1, bits(&[0.9, 0.1, 0.0]));
    meta.insert(1, String::from("b.jpg"));

    store.insert(2, bits(&[0.0, 1.0, 0.0]));
    meta.insert(2, String::from("c.jpg"));

    let query = [1.0f32, 0.0, 0.0];
    let scores: Vec<u32> = store.entries().iter().map(|e| key(dot(&query, &e.embedding))).collect();
    let results = store.search(&scores, 2, &meta);
    assert_eq!(results.len(), 2);
    assert_eq!(results[0].id, 0);
}

#[test]
fn insert_moves_next_id_past_the_largest_id() {
    let mut store = VectorStore::default();
    assert_eq!(store.next_id(), 0);
    store.insert(4, vec![1, 2]);
    assert_eq!(store.next_id(), 5);
    store.insert(2, vec![3]);
    assert_eq!(store.next_id(), 5);
    assert_eq!(store.len(), 2);
    assert!(!store.is_empty());
    let ids: Vec<usize> = store.entries().iter().map(|e| e.id).collect();
    assert_eq!(ids, vec![4, 2]);
    assert_eq!(store.entries()[1].embedding, vec![3]);
}

#[test]
fn clear_resets_the_store() {
    let mut store = VectorStore::new();
    store.insert(9, vec![0]);
    store.clear();
    assert!(store.is_empty());
    assert_eq!(store.len(), 0);
    assert_eq!(store.next_id(), 0);
}

#[test]
fn parts_keep_entries_and_next_id() {
    let store = VectorStore::from_parts(
        vec![VectorEntry { id: 1, embedding: vec![7] }, VectorEntry { id: 0, embedding: vec![8] }],
        12,
    );
    assert_eq!(store.next_id(), 12);
    let (entries, next) = store.into_parts();
    assert_eq!(next, 12);
    assert_eq!(entries.len(), 2);
    assert_eq!(entries[0].embedding, vec![7]);
}

#[test]
fn ranking_is_best_first_and_stable() {
    let scores = vec![5, 9, 7, 9, 1];
    assert_eq!(rank_top(&scores, 3), vec![1, 3, 2]);
    assert_eq!(rank_top(&scores, 10), vec![1, 3, 2, 0, 4]);
    assert_eq!(rank_top(&scores, 0), Vec::<usize>::new());
    assert_eq!(rank_top(&vec![], 4), Vec::<usize>::new());
    assert_eq!(rank_top(&vec![3, 3, 3], 2), vec![0, 1]);
}

#[test]
fn search_skips_unknown_images_after_taking_the_top() {
    let mut store = VectorStore::new();
    let mut meta = ImageMetadata::new();
    store.insert(10, vec![]);
    store.insert(11, vec![]);
    store.insert(12, vec![]);
    meta.insert(10, String::from("/a.jpg"));
    meta.insert(12, String::from("/c.jpg"));
    // Entry 1 (id 11) ranks best but the index does not know it.
    let hits = store.search(&vec![5, 8, 6], 2, &meta);
    assert_eq!(hits.len(), 1);
    assert_eq!(hits[0].entry, 2);
    assert_eq!(hits[0].id, 12);
    assert_eq!(hits[0].path, String::from("/c.jpg"));
    let all = store.search(&vec![5, 8, 6], 5, &meta);
    let ids: Vec<usize> = all.iter().map(|h| h.id).collect();
    assert_eq!(ids, vec![12, 10]);
}

#[test]
fn search_on_an_empty_store_finds_nothing() {
    let store = VectorStore::new();
    let meta = ImageMetadata::new();
    assert!(store.search(&vec![], 20, &meta).is_empty());
}

#[test]
fn order_key_follows_the_float_order() {
    let floats = [
        f32::NEG_INFINITY,
        -1.0e30,
        -1.0,
        -0.5,
        -1.0e-40,
        0.0,
        1.0e-40,
        0.25,
        1.0,
        3.0e38,
        f32::INFINITY,
    ];
    for (i, a) in floats.iter().enumerate() {
        for (j, b) in floats.iter().enumerate() {
            assert_eq!(key(*a) < key(*b), i < j);
        }
    }
    assert_eq!(key(-0.0), key(0.0));
    assert_eq!(key(0.0), 0x8000_0000);
    assert_eq!(key(f32::NAN), 0);
    assert!(key(f32::NAN) < key(f32::NEG_INFINITY));
    assert_eq!(order_key(0x7fc0_0001), 0);
}
