use neptune_lens::engine::indexer::{image_files, number_images, unindexed_paths, IndexedImage};

fn strings(v: &[&str]) -> Vec<String> {
    v.iter().map(|s| s.to_string()).collect()
}

#[test]
fn image_files_keeps_supported_images_in_order() {
    let files = strings(&["/p/a.jpg", "/p/notes.txt", "/p/B.PNG", "/p/c", "/p/d.webp"]);
    assert_eq!(image_files(files), strings(&["/p/a.jpg", "/p/B.PNG", "/p/d.webp"]));
}

#[test]
fn unindexed_paths_drops_indexed_ones() {
    let found = strings(&["/p/a.jpg", "/p/b.jpg", "/p/c.jpg"]);
    let done = strings(&["/p//b.jpg", "/q/a.jpg"]);
    assert_eq!(unindexed_paths(&found, &done), strings(&["/p/a.jpg", "/p/c.jpg"]));
    assert_eq!(unindexed_paths(&found, &vec![]), found);
}

#[test]
fn unindexed_paths_over_many_files() {
    let found: Vec<String> = (0..4000).map(|i| format!("/photos/{}.png", i)).collect();
    let done: Vec<String> = (0..4000).filter(|i| i % 3 != 0).map(|i| format!("/photos/{}.png", i)).collect();
    let left = unindexed_paths(&found, &done);
    let expected: Vec<String> = (0..4000).filter(|i| i % 3 == 0).map(|i| format!("/photos/{}.png", i)).collect();
    assert_eq!(left, expected);
}

#[test]
fn number_images_counts_up_from_the_first_id() {
    let images = vec![
        IndexedImage { path: String::from("/x.jpg"), embedding: vec![1] },
        IndexedImage { path: String::from("/y.jpg"), embedding: vec![2, 3] },
    ];
    let numbered = number_images(40, images);
    assert_eq!(
        numbered,
        vec![(40, String::from("/x.jpg"), vec![1]), (41, String::from("/y.jpg"), vec![2, 3])]
    );
    assert!(number_images(usize::MAX, vec![]).is_empty());
}
