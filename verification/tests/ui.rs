use neptune_lens::ui::{short_name, short_path};

#[test]
fn short_path_keeps_short_paths() {
    let p = "C:\\photos\\2024";
    assert_eq!(short_path(p), p);
    let exactly = "a".repeat(45);
    assert_eq!(short_path(&exactly), exactly);
}

#[test]
fn short_path_keeps_the_last_42_bytes() {
    let p = format!("{}{}", "x".repeat(10), "y".repeat(42));
    assert_eq!(short_path(&p), format!("...{}", "y".repeat(42)));
    let multi = format!("{}{}", "é".repeat(10), "z".repeat(42));
    assert_eq!(short_path(&multi), format!("...{}", "z".repeat(42)));
}

#[test]
fn short_name_keeps_the_first_19_bytes() {
    assert_eq!(short_name("holiday.jpg"), "holiday.jpg");
    assert_eq!(short_name(&"n".repeat(22)), "n".repeat(22));
    assert_eq!(short_name("a_rather_long_file_name_here.jpg"), "a_rather_long_file_...");
    assert_eq!(short_name("ééééééééé_long_name.png"), "ééééééééé_...");
}
