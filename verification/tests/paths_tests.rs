use personas_core::{build_url, validate_relative};
use personas_core::paths::resolve_base_uri;

#[test]
fn build_url_joins_base_and_path() {
    assert_eq!(build_url("https://host/base", "a/b.md"), "https://host/base/a/b.md");
}

#[test]
fn build_url_trims_trailing_slashes() {
    assert_eq!(build_url("https://host/base///", "a.md"), "https://host/base/a.md");
}

#[test]
fn build_url_drops_redundant_segments() {
    assert_eq!(build_url("https://host", "./a//b/../c.md"), "https://host/a/b/c.md");
}

#[test]
fn build_url_with_empty_path_is_the_base() {
    assert_eq!(build_url("https://host/base/", ""), "https://host/base");
}

#[test]
fn validate_relative_accepts_plain_relative_paths() {
    assert!(validate_relative("a/b.md"));
    assert!(validate_relative("BASE_AGENTS.md"));
    assert!(validate_relative("..a/b"));
    assert!(validate_relative("a.../b"));
}

#[test]
fn validate_relative_rejects_absolute_paths() {
    assert!(!validate_relative("/etc/passwd"));
}

#[test]
fn validate_relative_rejects_parent_segments() {
    assert!(!validate_relative(".."));
    assert!(!validate_relative("a/../b"));
    assert!(!validate_relative("../a"));
    assert!(!validate_relative("a/.."));
}

#[test]
fn base_uri_is_relative_to_the_directory_parent() {
    assert_eq!(resolve_base_uri("/repo/personas", "/repo/AGENTS.md"), "AGENTS.md");
    assert_eq!(resolve_base_uri("personas", "AGENTS.md"), "AGENTS.md");
}

#[test]
fn base_uri_falls_back_and_normalizes_separators() {
    assert_eq!(resolve_base_uri("/repo/personas", "/other/AGENTS.md"), "/other/AGENTS.md");
    assert_eq!(resolve_base_uri("/repo/personas", "/repo\\AGENTS.md"), "/repo/AGENTS.md");
}
