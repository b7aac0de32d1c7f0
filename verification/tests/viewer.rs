use md_core::paths::PathStyle;
use std::path::{Path, PathBuf};

use md_core::uri::percent_encode;
use md_core::viewer::{page_url, proto_base, query_path, resolve_root_file};

#[test]
fn test_page_url_encodes_path_and_keeps_fragment() {
    let url = page_url(proto_base(false), "C:\\docs\\my notes.md", Some("top"));
    assert!(url.starts_with(proto_base(false)), "got: {url}");
    assert!(url.contains("/page?p="), "got: {url}");
    assert!(url.contains("%20"), "got: {url}");
    assert!(!url[url.find("p=").unwrap()..].contains(' '), "got: {url}");
    assert!(url.ends_with("#top"), "got: {url}");
}

#[test]
fn test_query_path_roundtrips_through_page_url() {
    let path = "C:\\docs\\my notes.md";
    let url = page_url(proto_base(true), path, None);
    let query = url.split('?').nth(1).unwrap();
    assert_eq!(query_path(query), Some(path.to_string()));
}

#[test]
fn test_query_path_picks_p_among_other_params() {
    assert_eq!(query_path("a=1&p=x.md&b=2"), Some("x.md".to_string()));
    assert_eq!(query_path("a=1&b=2"), None);
    assert_eq!(query_path(""), None);
}

#[test]
fn test_resolve_root_file_joins_segments() {
    let root_enc = percent_encode("C:\\serve root");
    let resolved = resolve_root_file(PathStyle::Unix, &format!("{root_enc}/figures/fig%201.png")).unwrap();
    assert_eq!(
        PathBuf::from(resolved),
        Path::new("C:\\serve root").join("figures").join("fig 1.png")
    );
}

#[test]
fn test_resolve_root_file_rejects_traversal() {
    let root_enc = percent_encode("C:\\serve");
    assert!(resolve_root_file(PathStyle::Unix, &format!("{root_enc}/../secret.txt")).is_none());
    assert!(resolve_root_file(PathStyle::Unix, &format!("{root_enc}/%2E%2E/secret.txt")).is_none());
    assert!(resolve_root_file(PathStyle::Unix, &format!("{root_enc}/a%5Cb.txt")).is_none());
    assert!(resolve_root_file(PathStyle::Unix, &format!("{root_enc}/a%2Fb.txt")).is_none());
}

#[test]
fn resolve_root_file_on_windows_stays_under_the_root() {
    let w = PathStyle::Windows;
    let root_enc = percent_encode("C:\\serve root");
    assert_eq!(
        resolve_root_file(w, &format!("{root_enc}/figures/fig%201.png")),
        Some("C:\\serve root\\figures\\fig 1.png".to_string())
    );
    assert!(resolve_root_file(w, &format!("{root_enc}/a%5Cb.txt")).is_none());
    assert!(resolve_root_file(w, &format!("{root_enc}/%2E%2E/secret.txt")).is_none());
    // A segment that reads as a drive would replace the whole path: refused.
    assert!(resolve_root_file(w, &format!("{root_enc}/D%3Ax.txt")).is_none());
    assert_eq!(
        resolve_root_file(PathStyle::Unix, &format!("{root_enc}/D%3Ax.txt")),
        Some("C:\\serve root/D:x.txt".to_string())
    );
}

#[test]
fn the_error_page_escapes_the_document_and_the_error() {
    assert_eq!(
        md_core::viewer::open_error_page("/d/<x>.md", "No such file & dir"),
        "<!DOCTYPE html><meta charset=\"utf-8\"><h2>Cannot open document</h2><p>/d/&lt;x&gt;.md</p><p>No such file &amp; dir</p>"
    );
}
