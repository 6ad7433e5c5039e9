use extcopy::ext::extension_of;
use extcopy::ext::matches_extension;
use extcopy::ext::normalize_extension;
use extcopy::plan::Config;

#[test]
fn extension_is_text_after_last_dot() {
    assert_eq!(extension_of("archive.tar.gz"), Some("gz".to_string()));
    assert_eq!(extension_of("notes.txt"), Some("txt".to_string()));
}

#[test]
fn no_dot_means_no_extension() {
    assert_eq!(extension_of("README"), None);
    assert!(!matches_extension("README", &"txt".to_string()));
}

#[test]
fn trailing_dot_means_empty_extension() {
    assert_eq!(extension_of("file."), Some(String::new()));
}

#[test]
fn matching_is_exact() {
    assert!(matches_extension("archive.tar.gz", &"gz".to_string()));
    assert!(!matches_extension("archive.tar.gz", &"tar.gz".to_string()));
    assert!(!matches_extension("archive.tar.gz", &"z".to_string()));
}

#[test]
fn matching_is_case_sensitive() {
    assert!(!matches_extension("archive.tar.gz", &"GZ".to_string()));
    assert!(!matches_extension("ARCHIVE.TAR.GZ", &"gz".to_string()));
}

#[test]
fn leading_dot_is_stripped() {
    assert_eq!(normalize_extension(".gz"), "gz");
    assert_eq!(normalize_extension("..gz"), "gz");
    assert_eq!(normalize_extension("txt"), "txt");
    assert!(matches_extension("archive.tar.gz", &normalize_extension(".gz")));
}

#[test]
fn config_normalizes_its_extension() {
    let cfg = Config::new(Vec::new(), Vec::new(), ".txt", false);
    assert_eq!(cfg.extension, "txt");
    assert!(!cfg.flatten);
}
