use std::path::Path;

use nohrs::engine::{SearchEngine, SearchService};
use nohrs::errors::Error;
use nohrs::scan::RipgrepBackend;
use nohrs::{SearchScope, SearchResult};

fn rt() -> tokio::runtime::Runtime {
    tokio::runtime::Builder::new_current_thread().enable_all().build().unwrap()
}

fn write_file(path: &Path, data: &[u8]) {
    rt().block_on(tokio::fs::write(path, data)).unwrap();
}

fn make_dir(path: &Path) {
    rt().block_on(tokio::fs::create_dir_all(path)).unwrap();
}

fn path_string(path: &Path) -> String {
    path.to_string_lossy().to_string()
}

#[test]
fn end_to_end_home_search() {
    let temp_root = tempfile::tempdir().unwrap();
    let content_root = temp_root.path().join("home");
    let index_root = temp_root.path().join("index");
    make_dir(&content_root.join("src"));
    make_dir(&index_root);
    write_file(&content_root.join("root.txt"), b"hello root");
    write_file(&content_root.join("src").join("lib.rs"), b"hello world");

    let (mut engine, needs_rebuild) = SearchEngine::new_with_paths(
        path_string(&index_root),
        path_string(&content_root),
        path_string(&content_root),
    )
    .unwrap();
    assert!(needs_rebuild, "a fresh index wants a rebuild");
    engine.index_home().unwrap();

    let hits = engine.search(&String::from("hello"), SearchScope::Home).unwrap();
    assert_eq!(hits.len(), 2, "one result per file");
    assert!(hits.iter().all(|r: &SearchResult| r.line_number > 0));
    let mut paths: Vec<String> = hits.iter().map(|r| r.path.clone()).collect();
    paths.sort();
    assert!(paths[0].ends_with("root.txt") || paths[1].ends_with("root.txt"));
    assert!(paths[0].ends_with("lib.rs") || paths[1].ends_with("lib.rs"));

    let none = engine.search(&String::from("nonexistent_token"), SearchScope::Home).unwrap();
    assert_eq!(none.len(), 0);
}

#[test]
fn warm_index_skips_rebuild() {
    let temp_root = tempfile::tempdir().unwrap();
    let content_root = temp_root.path().join("home");
    let index_root = temp_root.path().join("index");
    make_dir(&content_root);
    make_dir(&index_root);
    write_file(&content_root.join("a.txt"), b"warm start");

    let (mut engine, first_needs) = SearchEngine::new_with_paths(
        path_string(&index_root),
        path_string(&content_root),
        path_string(&content_root),
    )
    .unwrap();
    assert!(first_needs);
    engine.index_home().unwrap();
    drop(engine);

    let (_engine, second_needs) = SearchEngine::new_with_paths(
        path_string(&index_root),
        path_string(&content_root),
        path_string(&content_root),
    )
    .unwrap();
    assert!(!second_needs, "a warm index is not rebuilt on startup");
}

#[test]
fn scope_isolation_between_home_and_root() {
    let temp_root = tempfile::tempdir().unwrap();
    let home = temp_root.path().join("home");
    let outside = temp_root.path().join("outside");
    let index_root = temp_root.path().join("index");
    make_dir(&home);
    make_dir(&outside);
    make_dir(&index_root);
    write_file(&home.join("inside.txt"), b"inside sentinel_home");
    write_file(&outside.join("away.txt"), b"outside sentinel_away");

    // Home is indexed under `home`; Root scans the whole temp tree.
    let (mut engine, _) = SearchEngine::new_with_paths(
        path_string(&index_root),
        path_string(&home),
        path_string(temp_root.path()),
    )
    .unwrap();
    engine.index_home().unwrap();

    let home_hits = engine.search(&String::from("sentinel_away"), SearchScope::Home).unwrap();
    assert!(home_hits.is_empty(), "Home never returns matches outside its root");

    let root_hits = engine.search(&String::from("sentinel_away"), SearchScope::Root).unwrap();
    assert!(!root_hits.is_empty(), "Root reaches files outside the Home subtree");
    assert!(root_hits[0].path.ends_with("away.txt"));
    assert_eq!(root_hits[0].line_number, 1);
}

#[test]
fn root_scan_stops_exactly_at_the_cap() {
    let temp_root = tempfile::tempdir().unwrap();
    let root = temp_root.path().join("tree");
    make_dir(&root);
    // 3 files x 50 matching lines = 150 candidate matches, well over the cap.
    let line = "needle line\n".repeat(50);
    write_file(&root.join("a.txt"), line.as_bytes());
    write_file(&root.join("b.txt"), line.as_bytes());
    write_file(&root.join("c.txt"), line.as_bytes());

    let scanner = RipgrepBackend::new(path_string(&root));
    let results = scanner.search("needle").unwrap();
    assert_eq!(results.len(), 100, "exactly the cap, not more");
}

#[test]
fn binary_match_yields_placeholder_line() {
    let temp_root = tempfile::tempdir().unwrap();
    let root = temp_root.path().join("tree");
    make_dir(&root);
    write_file(&root.join("mixed.bin"), b"needle \xff\xfe tail\nplain needle line\n");

    let scanner = RipgrepBackend::new(path_string(&root));
    let mut results = scanner.search("needle").unwrap();
    results.sort_by_key(|r| r.line_number);
    assert_eq!(results.len(), 2);
    assert_eq!(results[0].line_number, 1);
    assert_eq!(results[0].line_content, "<binary>");
    assert_eq!(results[1].line_number, 2);
    assert!(results[1].line_content.starts_with("plain needle line"));
}

#[test]
fn invalid_regex_is_a_typed_error() {
    let temp_root = tempfile::tempdir().unwrap();
    let scanner = RipgrepBackend::new(path_string(temp_root.path()));
    let err = scanner.search("[unclosed").unwrap_err();
    assert!(matches!(err, Error::InvalidQuery(_)));
}

#[test]
fn scanner_skips_hidden_files() {
    let temp_root = tempfile::tempdir().unwrap();
    let root = temp_root.path().join("tree");
    make_dir(&root);
    write_file(&root.join(".hidden.txt"), b"secret needle");
    write_file(&root.join("open.txt"), b"public needle");

    let scanner = RipgrepBackend::new(path_string(&root));
    let results = scanner.search("needle").unwrap();
    assert_eq!(results.len(), 1);
    assert!(results[0].path.ends_with("open.txt"));
}

#[test]
fn service_routes_both_scopes() {
    let temp_root = tempfile::tempdir().unwrap();
    let content_root = temp_root.path().join("home");
    let index_root = temp_root.path().join("index");
    make_dir(&content_root);
    make_dir(&index_root);
    write_file(&content_root.join("doc.txt"), b"service sentinel");

    let (mut service, needs) = SearchService::new_with_paths(
        path_string(&index_root),
        path_string(&content_root),
        path_string(&content_root),
    )
    .unwrap();
    assert!(needs);
    service.index_home().unwrap();

    let home = service.search(&String::from("sentinel"), SearchScope::Home).unwrap();
    assert_eq!(home.len(), 1);
    let root = service.search(&String::from("sentinel"), SearchScope::Root).unwrap();
    assert_eq!(root.len(), 1);

    write_file(&content_root.join("doc.txt"), b"replaced text");
    service.process_changes(&vec![path_string(&content_root.join("doc.txt"))]).unwrap();
    assert!(service.search(&String::from("sentinel"), SearchScope::Home).unwrap().is_empty());
    assert!(!service.search(&String::from("replaced"), SearchScope::Home).unwrap().is_empty());
}

#[test]
fn filename_only_match_reports_line_zero() {
    let temp_root = tempfile::tempdir().unwrap();
    let content_root = temp_root.path().join("home");
    let index_root = temp_root.path().join("index");
    make_dir(&content_root);
    make_dir(&index_root);
    write_file(&content_root.join("uniquename.log"), b"plain body");

    let (mut engine, _) = SearchEngine::new_with_paths(
        path_string(&index_root),
        path_string(&content_root),
        path_string(&content_root),
    )
    .unwrap();
    engine.index_home().unwrap();

    let hits = engine.search(&String::from("uniquename"), SearchScope::Home).unwrap();
    assert_eq!(hits.len(), 1);
    // The file matched only by name (and path line), not by a body line.
    assert!(hits[0].path.ends_with("uniquename.log"));
    assert_eq!(hits[0].line_number, 0);
    assert_eq!(hits[0].line_content, "");
}
