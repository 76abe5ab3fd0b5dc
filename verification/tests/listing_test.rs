use nohrs::entries::{get_extension, sort_entries, SortKey};
use nohrs::listing::{list_dir_sync, FileEntryDto, ListParams};

fn entry(name: &str, kind: &str, size: u64, modified: u64) -> FileEntryDto {
    FileEntryDto {
        name: String::from(name),
        path: format!("/tmp/{}", name),
        kind: String::from(kind),
        size,
        modified,
    }
}

#[test]
fn get_extension_keys() {
    assert_eq!(get_extension("photo.JPG", "file"), "jpg");
    assert_eq!(get_extension("archive.tar.gz", "file"), "gz");
    assert_eq!(get_extension("noext", "file"), "zzz_noext");
    assert_eq!(get_extension(".bashrc", "file"), "zzz_noext");
    assert_eq!(get_extension("anything", "dir"), "0_dir");
    assert_eq!(get_extension("x", "symlink"), "symlink");
}

#[test]
fn sort_entries_puts_directories_first() {
    let entries = vec![
        entry("zeta.txt", "file", 10, 5),
        entry("Alpha.txt", "file", 30, 1),
        entry("music", "dir", 0, 2),
        entry("beta.txt", "file", 20, 9),
    ];
    let sorted = sort_entries(entries, SortKey::Name, true);
    let names: Vec<&str> = sorted.iter().map(|e| e.name.as_str()).collect();
    assert_eq!(names, vec!["music", "Alpha.txt", "beta.txt", "zeta.txt"]);
}

#[test]
fn sort_entries_by_size_descending() {
    let entries = vec![
        entry("a.txt", "file", 10, 0),
        entry("b.txt", "file", 30, 0),
        entry("c.txt", "file", 20, 0),
    ];
    let sorted = sort_entries(entries, SortKey::Size, false);
    let sizes: Vec<u64> = sorted.iter().map(|e| e.size).collect();
    assert_eq!(sizes, vec![30, 20, 10]);
}

#[test]
fn sort_entries_by_type_groups_extensions() {
    let entries = vec![
        entry("b.rs", "file", 0, 0),
        entry("a.txt", "file", 0, 0),
        entry("c.rs", "file", 0, 0),
    ];
    let sorted = sort_entries(entries, SortKey::Type, true);
    let exts: Vec<String> =
        sorted.iter().map(|e| get_extension(&e.name, &e.kind)).collect();
    assert_eq!(exts, vec!["rs", "rs", "txt"]);
}

#[test]
fn list_dir_sync_pages_with_cursor() {
    let raw = vec![
        entry("delta", "file", 1, 1),
        entry("alpha", "file", 1, 1),
        entry("echo", "file", 1, 1),
        entry("Bravo", "file", 1, 1),
        entry("charlie", "file", 1, 1),
    ];
    let first = list_dir_sync(
        raw.clone(),
        &ListParams { path: String::from("/tmp"), limit: 2, cursor: None },
    );
    let names: Vec<&str> = first.entries.iter().map(|e| e.name.as_str()).collect();
    assert_eq!(names, vec!["alpha", "Bravo"]);
    assert_eq!(first.next_cursor.as_deref(), Some("2"));

    let second = list_dir_sync(
        raw.clone(),
        &ListParams { path: String::from("/tmp"), limit: 2, cursor: first.next_cursor },
    );
    let names: Vec<&str> = second.entries.iter().map(|e| e.name.as_str()).collect();
    assert_eq!(names, vec!["charlie", "delta"]);
    assert_eq!(second.next_cursor.as_deref(), Some("4"));

    let third = list_dir_sync(
        raw,
        &ListParams { path: String::from("/tmp"), limit: 2, cursor: second.next_cursor },
    );
    let names: Vec<&str> = third.entries.iter().map(|e| e.name.as_str()).collect();
    assert_eq!(names, vec!["echo"]);
    assert!(third.next_cursor.is_none());
}

#[test]
fn list_dir_sync_bad_cursor_starts_over() {
    let raw = vec![entry("a", "file", 1, 1), entry("b", "file", 1, 1)];
    let page = list_dir_sync(
        raw,
        &ListParams { path: String::from("/tmp"), limit: 10, cursor: Some(String::from("oops")) },
    );
    assert_eq!(page.entries.len(), 2);
    assert!(page.next_cursor.is_none());
}
