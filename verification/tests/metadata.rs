use neptune_lens::db::metadata::ImageMetadata;

#[test]
fn test_metadata_insert_and_lookup() {
    let mut meta = ImageMetadata::new();
    let path = String::from("C:\\test\\image.jpg");

    meta.insert(0, path.clone());

    assert_eq!(meta.get_path(0), Some(path.clone()));
    assert_eq!(meta.get_id(&path), Some(0));
    assert!(meta.is_indexed(&path));
    assert_eq!(meta.len(), 1);
}

#[test]
fn test_metadata_remove_folder() {
    let mut meta = ImageMetadata::new();
    let folder = String::from("C:\\photos");
    meta.add_folder(folder.clone());

    meta.insert(0, String::from("C:\\photos\\a.jpg"));
    meta.insert(1, String::from("C:\\photos\\b.jpg"));
    meta.insert(2, String::from("C:\\other\\c.jpg"));

    meta.remove_folder(&folder);

    assert_eq!(meta.len(), 1);
    assert!(meta.get_path(2).is_some());
    assert!(meta.get_path(0).is_none());
}

#[test]
fn insert_same_id_replaces_path() {
    let mut meta = ImageMetadata::new();
    meta.insert(7, String::from("/a/x.png"));
    meta.insert(7, String::from("/a/y.png"));
    assert_eq!(meta.len(), 1);
    assert_eq!(meta.get_path(7), Some(String::from("/a/y.png")));
    // The reverse lookup keeps the old path as well (as a map keyed by path does).
    assert_eq!(meta.get_id("/a/x.png"), Some(7));
    assert_eq!(meta.get_id("/a/y.png"), Some(7));
    assert_eq!(meta.indexed_paths().len(), 2);
}

#[test]
fn same_path_spelled_differently_is_one_path() {
    let mut meta = ImageMetadata::new();
    meta.insert(1, String::from("/photos//a.jpg"));
    meta.insert(2, String::from("/photos/./a.jpg/"));
    // One reverse-lookup entry, keeping the spelling it was first stored under.
    assert_eq!(meta.indexed_paths(), vec![String::from("/photos//a.jpg")]);
    assert_eq!(meta.get_id("/photos/a.jpg"), Some(2));
    assert!(meta.is_indexed("\\photos\\a.jpg"));
    assert!(!meta.is_indexed("photos/a.jpg"));
    assert_eq!(meta.len(), 2);
}

#[test]
fn unknown_lookups_give_nothing() {
    let meta = ImageMetadata::new();
    assert_eq!(meta.get_path(3), None);
    assert_eq!(meta.get_id("a.jpg"), None);
    assert!(!meta.is_indexed("a.jpg"));
    assert!(meta.is_empty());
    assert_eq!(meta.len(), 0);
    assert!(meta.indexed_paths().is_empty());
    assert!(meta.indexed_folders().is_empty());
}

#[test]
fn add_folder_ignores_the_same_folder() {
    let mut meta = ImageMetadata::new();
    meta.add_folder(String::from("/pics"));
    meta.add_folder(String::from("/pics/"));
    meta.add_folder(String::from("\\pics"));
    meta.add_folder(String::from("/other"));
    assert_eq!(meta.indexed_folders(), &vec![String::from("/pics"), String::from("/other")]);
}

#[test]
fn remove_folder_matches_whole_components() {
    let mut meta = ImageMetadata::new();
    meta.add_folder(String::from("/pics"));
    meta.add_folder(String::from("/pics2"));
    meta.insert(0, String::from("/pics/a.jpg"));
    meta.insert(1, String::from("/pics2/b.jpg"));
    meta.insert(2, String::from("/pics/sub/c.jpg"));
    meta.remove_folder("/pics/");
    assert_eq!(meta.len(), 1);
    assert_eq!(meta.get_path(1), Some(String::from("/pics2/b.jpg")));
    assert!(!meta.is_indexed("/pics/a.jpg"));
    assert!(!meta.is_indexed("/pics/sub/c.jpg"));
    assert!(meta.is_indexed("/pics2/b.jpg"));
    assert_eq!(meta.indexed_folders(), &vec![String::from("/pics2")]);
}

#[test]
fn remove_folder_keeps_paths_no_id_names() {
    let mut meta = ImageMetadata::new();
    meta.insert(0, String::from("/pics/a.jpg"));
    // Id 0 moves to another file; the old path stays in the reverse lookup.
    meta.insert(0, String::from("/elsewhere/a.jpg"));
    meta.remove_folder("/pics");
    assert!(meta.is_indexed("/pics/a.jpg"));
    assert_eq!(meta.len(), 1);
}

#[test]
fn folder_counts_per_folder() {
    let mut meta = ImageMetadata::new();
    meta.add_folder(String::from("C:\\photos"));
    meta.add_folder(String::from("C:\\photos\\2024"));
    meta.add_folder(String::from("D:\\empty"));
    meta.insert(0, String::from("C:\\photos\\a.jpg"));
    meta.insert(1, String::from("C:\\photos\\2024\\b.jpg"));
    meta.insert(2, String::from("C:\\photos2\\c.jpg"));
    let counts = meta.folder_image_counts();
    assert_eq!(
        counts,
        vec![
            (String::from("C:\\photos"), 2),
            (String::from("C:\\photos\\2024"), 1),
            (String::from("D:\\empty"), 0),
        ]
    );
}

#[test]
fn clear_empties_everything() {
    let mut meta = ImageMetadata::new();
    meta.add_folder(String::from("/p"));
    meta.insert(0, String::from("/p/a.jpg"));
    meta.clear();
    assert!(meta.is_empty());
    assert!(meta.indexed_paths().is_empty());
    assert!(meta.indexed_folders().is_empty());
    assert_eq!(meta.get_path(0), None);
}

#[test]
fn parts_round_trip() {
    let mut meta = ImageMetadata::default();
    meta.add_folder(String::from("/p"));
    meta.insert(3, String::from("/p/a.jpg"));
    meta.insert(5, String::from("/p/b.jpg"));
    let (ids, paths, folders) = meta.to_parts();
    let again = ImageMetadata::from_parts(ids, paths, folders);
    assert_eq!(again.len(), 2);
    assert_eq!(again.get_path(3), Some(String::from("/p/a.jpg")));
    assert_eq!(again.get_id("/p/b.jpg"), Some(5));
    assert_eq!(again.indexed_folders(), &vec![String::from("/p")]);
}

#[test]
fn from_parts_later_pairs_win() {
    let meta = ImageMetadata::from_parts(
        vec![(1, String::from("/a.jpg")), (1, String::from("/b.jpg"))],
        vec![(String::from("/a.jpg"), 1), (String::from("//a.jpg"), 4)],
        vec![],
    );
    assert_eq!(meta.len(), 1);
    assert_eq!(meta.get_path(1), Some(String::from("/b.jpg")));
    assert_eq!(meta.get_id("/a.jpg"), Some(4));
    assert_eq!(meta.indexed_paths(), vec![String::from("/a.jpg")]);
}

#[test]
fn leading_current_dir_is_part_of_the_path() {
    let mut meta = ImageMetadata::new();
    meta.insert(0, String::from("./a.jpg"));
    assert!(meta.is_indexed(".//a.jpg"));
    assert!(!meta.is_indexed("a.jpg"));
    meta.add_folder(String::from("."));
    meta.insert(1, String::from("b/./c.jpg"));
    assert!(meta.is_indexed("b/c.jpg"));
    assert_eq!(meta.folder_image_counts(), vec![(String::from("."), 1)]);
}

#[test]
fn many_images_are_found_by_id_and_by_path() {
    let mut meta = ImageMetadata::new();
    meta.add_folder(String::from("/lib/even"));
    meta.add_folder(String::from("/lib/odd"));
    for i in 0..3000usize {
        let folder = if i % 2 == 0 { "even" } else { "odd" };
        meta.insert(i, format!("/lib/{}/img{}.jpg", folder, i));
    }
    assert_eq!(meta.len(), 3000);
    for i in (0..3000usize).step_by(7) {
        let folder = if i % 2 == 0 { "even" } else { "odd" };
        let p = format!("/lib/{}/img{}.jpg", folder, i);
        assert_eq!(meta.get_path(i), Some(p.clone()));
        assert_eq!(meta.get_id(&p), Some(i));
        // The same path spelled with the other separator and a repeated one.
        assert_eq!(meta.get_id(&format!("\\lib\\{}//img{}.jpg", folder, i)), Some(i));
    }
    assert!(!meta.is_indexed("/lib/even/img1.jpg"));
    assert_eq!(
        meta.folder_image_counts(),
        vec![(String::from("/lib/even"), 1500), (String::from("/lib/odd"), 1500)]
    );

    meta.remove_folder("/lib/odd");
    assert_eq!(meta.len(), 1500);
    assert_eq!(meta.indexed_paths().len(), 1500);
    assert_eq!(meta.get_path(3), None);
    assert!(!meta.is_indexed("/lib/odd/img3.jpg"));
    assert_eq!(meta.get_id("/lib/even/img2998.jpg"), Some(2998));

    // Entries added after a removal are found too.
    meta.insert(5000, String::from("/lib/odd/img3.jpg"));
    assert_eq!(meta.get_id("/lib/odd/img3.jpg"), Some(5000));
    assert_eq!(meta.get_path(5000), Some(String::from("/lib/odd/img3.jpg")));
    assert_eq!(meta.len(), 1501);
}

#[test]
fn drive_letters_match_in_either_case() {
    let mut meta = ImageMetadata::new();
    meta.add_folder(String::from("c:\\photos"));
    meta.add_folder(String::from("C:\\photos"));
    assert_eq!(meta.indexed_folders().len(), 1);
    meta.insert(0, String::from("c:\\photos\\a.jpg"));
    meta.insert(1, String::from("D:/photos/a.jpg"));
    assert_eq!(meta.get_id("C:/photos/a.jpg"), Some(0));
    assert!(meta.is_indexed("d:\\photos\\a.jpg"));
    // Other components keep their case.
    assert!(!meta.is_indexed("C:\\Photos\\a.jpg"));
    // A drive is a component of its own.
    meta.insert(2, String::from("C:notes.png"));
    assert_eq!(meta.folder_image_counts(), vec![(String::from("c:\\photos"), 1)]);
    meta.remove_folder("C:");
    assert_eq!(meta.len(), 1);
    assert_eq!(meta.get_path(1), Some(String::from("D:/photos/a.jpg")));
}

#[test]
fn lookups_undo_each_other() {
    let mut meta = ImageMetadata::new();
    meta.insert(0, String::from("/pics/a.jpg"));
    meta.insert(1, String::from("/pics/sub/b.jpg"));
    meta.insert(2, String::from("/other/c.jpg"));
    for id in 0..3usize {
        let p = meta.get_path(id).unwrap();
        assert_eq!(meta.get_id(&p), Some(id));
        assert!(meta.is_indexed(&p));
    }
    assert_eq!(meta.get_path(3), None);
    let listed = meta.indexed_paths();
    assert_eq!(listed.len(), meta.len());
    for p in &listed {
        assert!(meta.is_indexed(p));
    }

    meta.remove_folder("/pics");
    assert!(!meta.is_indexed("/pics/a.jpg"));
    assert!(!meta.is_indexed("/pics/sub/b.jpg"));
    assert_eq!(meta.get_id("/other/c.jpg"), Some(2));
    assert_eq!(meta.get_path(2), Some(String::from("/other/c.jpg")));
    assert_eq!(meta.indexed_paths(), vec![String::from("/other/c.jpg")]);
}

#[test]
fn share_and_verbatim_prefixes_are_components_of_their_own() {
    let mut meta = ImageMetadata::new();
    meta.insert(0, String::from("\\\\server\\share\\a.jpg"));
    meta.insert(1, String::from("\\\\?\\C:\\x\\b.jpg"));
    meta.insert(2, String::from("\\server\\share\\c.jpg"));
    // A share is written with either separator, but is not a rooted folder.
    assert_eq!(meta.get_id("//server/share/a.jpg"), Some(0));
    assert!(!meta.is_indexed("\\server\\share\\a.jpg"));
    // A verbatim drive is not the plain drive; its letter still ignores case.
    assert!(!meta.is_indexed("C:\\x\\b.jpg"));
    assert_eq!(meta.get_id("\\\\?\\c:\\x\\b.jpg"), Some(1));
    // In a verbatim path `.` is a component and `/` is no separator.
    assert!(!meta.is_indexed("\\\\?\\C:\\x\\.\\b.jpg"));
    assert!(!meta.is_indexed("\\\\?\\C:\\x/b.jpg"));
    // Without a share name there is no share prefix: a rooted path.
    meta.add_folder(String::from("\\server"));
    assert_eq!(meta.folder_image_counts(), vec![(String::from("\\server"), 1)]);
    meta.remove_folder("\\\\server\\share");
    assert_eq!(meta.get_path(0), None);
    assert_eq!(meta.len(), 2);
}
