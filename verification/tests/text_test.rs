use nohrs::text::{
    base_name, concat_lines, contains_nul, dedup_paths, fold_contains, lines_have_nul,
    match_lines, str_contains, str_eq, str_lex_le, str_name_le, strip_eol,
};

#[test]
fn fold_contains_finds_mixed_case() {
    assert!(fold_contains("Hello World", "WORLD"));
    assert!(fold_contains("Hello World", "hello"));
    assert!(fold_contains("Hello World", "o W"));
    assert!(!fold_contains("Hello World", "planet"));
}

#[test]
fn fold_contains_folds_beyond_ascii() {
    assert!(fold_contains("Ärger im Büro", "ärger"));
    assert!(fold_contains("im BÜRO", "büro"));
    assert!(!fold_contains("Ärger", "Ü"));
}

#[test]
fn fold_contains_empty_needle_always_matches() {
    assert!(fold_contains("anything", ""));
    assert!(fold_contains("", ""));
    assert!(!fold_contains("", "x"));
}

#[test]
fn exact_contains_is_case_sensitive() {
    assert!(str_contains("Hello World", "o W"));
    assert!(!str_contains("Hello World", "WORLD"));
    assert!(!str_contains("ab", "abc"));
}

#[test]
fn match_lines_reports_matching_lines_one_based() {
    let lines = vec![
        String::from("Hello\n"),
        String::from("world\n"),
        String::from("HELLO there"),
    ];
    let found = match_lines(&lines, "hello");
    assert_eq!(found.len(), 2);
    assert_eq!(found[0].0, 1);
    assert_eq!(found[0].1, "Hello");
    assert_eq!(found[1].0, 3);
    assert_eq!(found[1].1, "HELLO there");
}

#[test]
fn match_lines_folds_beyond_ascii() {
    let lines = vec![String::from("ÄRGER\n"), String::from("ruhe\n")];
    let found = match_lines(&lines, "ärger");
    assert_eq!(found.len(), 1);
    assert_eq!(found[0].0, 1);
    assert_eq!(found[0].1, "ÄRGER");
}

#[test]
fn match_lines_empty_input() {
    let lines: Vec<String> = Vec::new();
    assert_eq!(match_lines(&lines, "x").len(), 0);
}

#[test]
fn strip_eol_removes_terminators() {
    assert_eq!(strip_eol("line\n"), "line");
    assert_eq!(strip_eol("line\r\n"), "line");
    assert_eq!(strip_eol("line"), "line");
    assert_eq!(strip_eol("\n"), "");
    assert_eq!(strip_eol(""), "");
}

#[test]
fn base_name_takes_text_after_last_slash() {
    assert_eq!(base_name("/home/user/file.txt"), "file.txt");
    assert_eq!(base_name("file.txt"), "file.txt");
    assert_eq!(base_name("/home/user/"), "");
    assert_eq!(base_name("/"), "");
}

#[test]
fn concat_lines_rebuilds_text() {
    let lines = vec![String::from("a\n"), String::from("b\r\n"), String::from("c")];
    assert_eq!(concat_lines(&lines), "a\nb\r\nc");
}

#[test]
fn contains_nul_detects_null_bytes() {
    assert!(contains_nul("bin\u{0}ary"));
    assert!(!contains_nul("plain text"));
    let lines = vec![String::from("ok"), String::from("bad\u{0}")];
    assert!(lines_have_nul(&lines));
    let clean = vec![String::from("ok")];
    assert!(!lines_have_nul(&clean));
}

#[test]
fn name_order_folds_case() {
    assert!(str_name_le("Apple", "banana"));
    assert!(!str_name_le("cherry", "Banana"));
    assert!(str_name_le("same", "SAME"));
    assert!(str_name_le("SAME", "same"));
    assert!(str_name_le("ab", "abc"));
    assert!(!str_name_le("abc", "ab"));
}

#[test]
fn lex_order_compares_codes() {
    assert!(str_lex_le("abc", "abd"));
    assert!(!str_lex_le("b", "a"));
    assert!(str_lex_le("", "a"));
}

#[test]
fn str_eq_compares_text() {
    assert!(str_eq("abc", "abc"));
    assert!(!str_eq("abc", "abd"));
    assert!(!str_eq("abc", "ab"));
}

#[test]
fn dedup_paths_keeps_one_of_each() {
    let paths = vec![
        String::from("/a"),
        String::from("/b"),
        String::from("/a"),
        String::from("/c"),
        String::from("/b"),
    ];
    let unique = dedup_paths(&paths);
    assert_eq!(unique, vec![String::from("/a"), String::from("/b"), String::from("/c")]);
}
