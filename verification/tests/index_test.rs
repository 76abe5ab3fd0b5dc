use std::path::Path;

use nohrs::errors::Error;
use nohrs::store::IndexManager;

fn rt() -> tokio::runtime::Runtime {
    tokio::runtime::Builder::new_current_thread().enable_all().build().unwrap()
}

fn write_file(path: &Path, data: &[u8]) {
    rt().block_on(tokio::fs::write(path, data)).unwrap();
}

fn make_dir(path: &Path) {
    rt().block_on(tokio::fs::create_dir_all(path)).unwrap();
}

fn delete_file(path: &Path) {
    rt().block_on(tokio::fs::remove_file(path)).unwrap();
}

fn path_string(path: &Path) -> String {
    path.to_string_lossy().to_string()
}

fn manager_for(index_root: &Path, content_root: &Path) -> IndexManager {
    IndexManager::new_with_path(path_string(index_root), path_string(content_root)).unwrap()
}

#[test]
fn test_indexing_workflow() {
    let temp_root = tempfile::tempdir().unwrap();
    let content_root = temp_root.path().join("home");
    let index_root = temp_root.path().join("index");
    make_dir(&content_root);
    make_dir(&index_root);

    let test_file = content_root.join("test.txt");
    write_file(&test_file, b"Hello world content");

    let mut manager = manager_for(&index_root, &content_root);

    manager.index_home().expect("Initial indexing failed");
    // One document per walked entry: the root directory and the file.
    assert_eq!(manager.num_docs().unwrap(), 2, "Should have 2 documents indexed");

    let results = manager.search(&String::from("Hello")).unwrap();
    assert!(!results.is_empty(), "Should find 'Hello'");
    assert_eq!(results[0].path, path_string(&test_file));
    assert_eq!(results[0].line_number, 1);
    assert_eq!(results[0].line_content, "Hello world content");

    write_file(&test_file, b"Updated content here");
    manager.update_file(&path_string(&test_file)).unwrap();

    let results_updated = manager.search(&String::from("Updated")).unwrap();
    assert!(!results_updated.is_empty(), "Should find 'Updated'");

    let results_old = manager.search(&String::from("Hello")).unwrap();
    assert!(results_old.is_empty(), "Should NOT find 'Hello' after update");

    manager.remove_file(&path_string(&test_file)).unwrap();
    assert_eq!(manager.num_docs().unwrap(), 1, "Only the root directory should remain");
}

#[test]
fn rebuild_twice_gives_same_count_and_results() {
    let temp_root = tempfile::tempdir().unwrap();
    let content_root = temp_root.path().join("home");
    let index_root = temp_root.path().join("index");
    make_dir(&content_root);
    make_dir(&index_root);
    write_file(&content_root.join("one.txt"), b"alpha beta");
    write_file(&content_root.join("two.txt"), b"beta gamma");

    let mut manager = manager_for(&index_root, &content_root);
    manager.index_home().unwrap();
    let count_first = manager.num_docs().unwrap();
    let mut first: Vec<String> = manager
        .search(&String::from("beta"))
        .unwrap()
        .into_iter()
        .map(|r| format!("{}:{}", r.path, r.line_number))
        .collect();
    first.sort();

    manager.index_home().unwrap();
    let count_second = manager.num_docs().unwrap();
    let mut second: Vec<String> = manager
        .search(&String::from("beta"))
        .unwrap()
        .into_iter()
        .map(|r| format!("{}:{}", r.path, r.line_number))
        .collect();
    second.sort();

    assert_eq!(count_first, count_second);
    assert_eq!(first, second);
    assert_eq!(first.len(), 2);
}

#[test]
fn repeated_upserts_keep_one_entry_per_path() {
    let temp_root = tempfile::tempdir().unwrap();
    let content_root = temp_root.path().join("home");
    let index_root = temp_root.path().join("index");
    make_dir(&content_root);
    make_dir(&index_root);
    let file = content_root.join("note.txt");
    write_file(&file, b"first words");

    let mut manager = manager_for(&index_root, &content_root);
    manager.index_home().unwrap();
    let baseline = manager.num_docs().unwrap();

    manager.update_file(&path_string(&file)).unwrap();
    manager.update_file(&path_string(&file)).unwrap();
    manager.index_home().unwrap();
    assert_eq!(manager.num_docs().unwrap(), baseline);
}

#[test]
fn deleting_a_file_removes_exactly_one_document() {
    let temp_root = tempfile::tempdir().unwrap();
    let content_root = temp_root.path().join("home");
    let index_root = temp_root.path().join("index");
    make_dir(&content_root);
    make_dir(&index_root);
    let keep = content_root.join("keep.txt");
    let gone = content_root.join("gone.txt");
    write_file(&keep, b"keep me around");
    write_file(&gone, b"soon removed marker");

    let mut manager = manager_for(&index_root, &content_root);
    manager.index_home().unwrap();
    let before = manager.num_docs().unwrap();
    assert!(!manager.search(&String::from("marker")).unwrap().is_empty());

    delete_file(&gone);
    manager.process_changes(&vec![path_string(&gone)]).unwrap();

    assert_eq!(manager.num_docs().unwrap(), before - 1);
    assert!(manager.search(&String::from("marker")).unwrap().is_empty());
    assert!(!manager.search(&String::from("around")).unwrap().is_empty());
}

#[test]
fn binary_files_are_skipped_without_aborting() {
    let temp_root = tempfile::tempdir().unwrap();
    let content_root = temp_root.path().join("home");
    let index_root = temp_root.path().join("index");
    make_dir(&content_root);
    make_dir(&index_root);
    write_file(&content_root.join("binary.bin"), b"bin\x00ary");
    write_file(&content_root.join("plain.txt"), b"searchable words");

    let mut manager = manager_for(&index_root, &content_root);
    manager.index_home().unwrap();

    // Root directory plus the one text file; the binary file is excluded.
    assert_eq!(manager.num_docs().unwrap(), 2);
    assert!(!manager.search(&String::from("searchable")).unwrap().is_empty());
}

#[test]
fn oversized_files_are_skipped() {
    let temp_root = tempfile::tempdir().unwrap();
    let content_root = temp_root.path().join("home");
    let index_root = temp_root.path().join("index");
    make_dir(&content_root);
    make_dir(&index_root);
    let big = vec![b'x'; 10 * 1024 * 1024 + 1];
    write_file(&content_root.join("big.txt"), &big);
    write_file(&content_root.join("small.txt"), b"tiny sentinel");

    let mut manager = manager_for(&index_root, &content_root);
    manager.index_home().unwrap();
    assert_eq!(manager.num_docs().unwrap(), 2);
}

#[test]
fn changed_directories_are_reindexed() {
    let temp_root = tempfile::tempdir().unwrap();
    let content_root = temp_root.path().join("home");
    let index_root = temp_root.path().join("index");
    make_dir(&content_root);
    make_dir(&index_root);

    let mut manager = manager_for(&index_root, &content_root);
    manager.index_home().unwrap();
    let before = manager.num_docs().unwrap();

    let sub = content_root.join("newdir");
    make_dir(&sub);
    manager.process_changes(&vec![path_string(&sub)]).unwrap();
    assert_eq!(manager.num_docs().unwrap(), before + 1);
    assert!(!manager.search(&String::from("newdir")).unwrap().is_empty());
}

#[test]
fn paths_outside_the_root_never_enter_the_index() {
    let temp_root = tempfile::tempdir().unwrap();
    let content_root = temp_root.path().join("home");
    let outside = temp_root.path().join("elsewhere");
    let index_root = temp_root.path().join("index");
    make_dir(&content_root);
    make_dir(&outside);
    make_dir(&index_root);
    let stray = outside.join("stray.txt");
    write_file(&stray, b"stray sentinel_outside");

    let mut manager = manager_for(&index_root, &content_root);
    manager.index_home().unwrap();
    let before = manager.num_docs().unwrap();

    // A watcher may deliver paths outside the indexed root; they are ignored.
    manager.process_changes(&vec![path_string(&stray)]).unwrap();
    assert_eq!(manager.num_docs().unwrap(), before);
    assert!(manager.search(&String::from("sentinel_outside")).unwrap().is_empty());
}

#[test]
fn malformed_query_is_a_typed_error() {
    let temp_root = tempfile::tempdir().unwrap();
    let content_root = temp_root.path().join("home");
    let index_root = temp_root.path().join("index");
    make_dir(&content_root);
    make_dir(&index_root);

    let mut manager = manager_for(&index_root, &content_root);
    manager.index_home().unwrap();
    let err = manager.search(&String::from("\"unclosed")).unwrap_err();
    assert!(matches!(err, Error::InvalidQuery(_)));
}

#[test]
fn outdated_schema_is_reported() {
    let temp_root = tempfile::tempdir().unwrap();
    let content_root = temp_root.path().join("home");
    let index_root = temp_root.path().join("index");
    make_dir(&content_root);
    make_dir(&index_root);

    // An index written before the filename field existed.
    let mut builder = tantivy::schema::Schema::builder();
    builder.add_text_field("path", tantivy::schema::STRING | tantivy::schema::STORED);
    builder.add_text_field("content", tantivy::schema::TEXT);
    let old = tantivy::Index::create_in_dir(&index_root, builder.build()).unwrap();
    drop(old);

    let opened =
        IndexManager::new_with_path(path_string(&index_root), path_string(&content_root));
    let err = match opened {
        Ok(_) => panic!("an outdated schema must be rejected"),
        Err(e) => e,
    };
    assert!(matches!(err, Error::SchemaMismatch));
    assert_eq!(err.message(), "index schema is outdated");
}
