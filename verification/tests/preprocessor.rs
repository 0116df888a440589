use neptune_lens::engine::preprocessor::is_supported_image;

#[test]
fn test_is_supported_image() {
    assert!(is_supported_image("test.jpg"));
    assert!(is_supported_image("test.JPEG"));
    assert!(is_supported_image("test.png"));
    assert!(is_supported_image("test.webp"));
    assert!(is_supported_image("test.bmp"));
    assert!(!is_supported_image("test.gif"));
    assert!(!is_supported_image("test.txt"));
    assert!(!is_supported_image("no_extension"));
}

#[test]
fn extension_is_taken_from_the_file_name() {
    assert!(is_supported_image("C:\\photos\\holiday.Png"));
    assert!(is_supported_image("/a/b.c/photo.jpg"));
    assert!(!is_supported_image("/a/b.jpg/photo"));
    assert!(is_supported_image("/a/dir.jpg/"));
    assert!(is_supported_image("archive.tar.bmp"));
    assert!(!is_supported_image("photo.jpg.txt"));
}

#[test]
fn hidden_and_special_names_have_no_extension() {
    assert!(!is_supported_image(".jpg"));
    assert!(!is_supported_image("/pics/.png"));
    assert!(is_supported_image("/pics/..png"));
    assert!(!is_supported_image("photo."));
    assert!(!is_supported_image(""));
    assert!(!is_supported_image("/"));
    assert!(!is_supported_image("a.jpg/.."));
    assert!(is_supported_image("a.jpg/."));
    assert!(!is_supported_image("."));
    assert!(!is_supported_image("./"));
    assert!(is_supported_image("./x.png"));
}

#[test]
fn only_exact_extensions_match() {
    assert!(!is_supported_image("a.jp"));
    assert!(!is_supported_image("a.jpgg"));
    assert!(!is_supported_image("a.jpég"));
    assert!(is_supported_image("a.WebP"));
    assert!(is_supported_image("a.BMP"));
}

#[test]
fn a_bare_prefix_has_no_file_name() {
    assert!(!is_supported_image("C:"));
    assert!(is_supported_image("C:photo.jpg"));
    assert!(!is_supported_image("\\\\server\\share"));
    assert!(is_supported_image("\\\\server\\share\\photo.png"));
    assert!(is_supported_image("\\\\?\\C:\\pics\\photo.BMP"));
    assert!(!is_supported_image("\\\\?\\C:\\pics\\photo.jpg\\."));
    assert!(is_supported_image("C:\\pics\\photo.jpg\\."));
}
