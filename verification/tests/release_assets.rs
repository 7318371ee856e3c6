use goat::release::{select_asset, str_contains};

#[test]
fn substring_search_is_exact() {
    assert!(str_contains("goat-linux-x86_64.tar.gz", "linux"));
    assert!(!str_contains("goat-macos-aarch64.tar.gz", "linux"));
    assert!(str_contains("linux", "linux"));
    assert!(!str_contains("linu", "linux"));
    assert!(str_contains("anything", ""));
    assert!(!str_contains("", "x"));
}

#[test]
fn the_first_matching_asset_is_chosen() {
    let names = vec![
        "goat-macos.tar.gz".to_string(),
        "goat-linux.tar.gz".to_string(),
        "goat-linux-musl.tar.gz".to_string(),
    ];
    assert_eq!(select_asset(&names, "linux"), Some(1));
    assert_eq!(select_asset(&names, "macos"), Some(0));
}

#[test]
fn no_matching_asset_gives_nothing() {
    let names = vec!["goat-macos.tar.gz".to_string()];
    assert_eq!(select_asset(&names, "windows"), None);
    assert_eq!(select_asset(&Vec::new(), "linux"), None);
}
