//! The trusted view of the filesystem: walking a tree with ignore rules,
//! probing a single path, and reading a file as text lines.
//!
//! Everything the engine learns about the disk comes through the three
//! trusted functions here. Their results depend on what is on disk, so their
//! contracts state only what holds of every outcome; the verified callers
//! take the returned values as inputs and are proved for all of them.

use vstd::prelude::*;
use crate::text::base_name_spec;

verus! {

/// One entry met while walking a tree: its path, what kind of entry it is,
/// and its size in bytes.
pub struct WalkEntry {
    pub path: String,
    pub is_dir: bool,
    pub is_file: bool,
    pub size: u64,
}

/// `pre` is a prefix of `s`.
pub open spec fn is_prefix(pre: Seq<char>, s: Seq<char>) -> bool {
    pre.len() <= s.len() && s.subrange(0, pre.len() as int) == pre
}

/// The number of path separators in a piece of text.
pub open spec fn slash_count(s: Seq<char>) -> int
    decreases s.len(),
{
    if s.len() == 0 {
        0
    } else if s.last() == '/' {
        slash_count(s.drop_last()) + 1
    } else {
        slash_count(s.drop_last())
    }
}

/// Relies on `ignore::WalkBuilder`: walks `root` recursively, honouring
/// version-control ignore files, optionally skipping hidden entries and
/// bounding the depth. Every yielded path is `root` with one joined
/// component per level, so its text starts with `root` and, under a depth
/// bound, carries at most that many separators after it; with hidden entries
/// skipped, every entry but the root has a name that does not start with a
/// dot. Entries the walker could not read are left out.
#[verifier::external_body]
pub(crate) fn walk_entries(root: &str, skip_hidden: bool, max_depth: Option<usize>) -> (r: Vec<
    WalkEntry,
>)
    ensures
        forall|i: int| 0 <= i < r@.len() ==> is_prefix(root@, #[trigger] r@[i].path@),
        max_depth matches Some(d) ==> forall|i: int|
            0 <= i < r@.len() ==> slash_count(
                (#[trigger] r@[i].path@).skip(root@.len() as int),
            ) <= d,
        skip_hidden ==> forall|i: int|
            0 <= i < r@.len() ==> (#[trigger] r@[i].path@) == root@ || (base_name_spec(
                r@[i].path@,
            ).len() > 0 && base_name_spec(r@[i].path@)[0] != '.'),
{
    let mut out = Vec::new();
    let mut builder = ignore::WalkBuilder::new(root);
    builder.hidden(skip_hidden).git_ignore(true).max_depth(max_depth);
    for e in builder.build().flatten() {
        let ft = e.file_type();
        out.push(WalkEntry {
            path: e.path().to_string_lossy().into_owned(),
            is_dir: ft.map_or(false, |t| t.is_dir()),
            is_file: ft.map_or(false, |t| t.is_file()),
            size: e.metadata().map(|m| m.len()).unwrap_or(0),
        });
    }
    out
}

/// Relies on `ignore::WalkBuilder` with depth 0: yields the path itself when
/// it exists. Returns whether the path is a directory and its size, or `None`
/// when the path does not exist or cannot be inspected.
#[verifier::external_body]
pub(crate) fn probe_path(path: &str) -> (r: Option<(bool, u64)>) {
    let mut it = ignore::WalkBuilder::new(path).max_depth(Some(0)).build();
    match it.next() {
        Some(Ok(e)) => {
            let is_dir = e.file_type().map_or(false, |t| t.is_dir());
            Some((is_dir, e.metadata().map(|m| m.len()).unwrap_or(0)))
        },
        _ => None,
    }
}

/// Relies on `grep_searcher::Searcher` with the `UTF8` sink and an
/// every-line matcher: reads the file at `path` line by line, each line kept
/// with its own terminator. Returns `None` when the file cannot be opened or
/// is not valid UTF-8 text.
#[verifier::external_body]
pub(crate) fn read_lines(path: &str) -> (r: Option<Vec<String>>) {
    let matcher = grep::regex::RegexMatcher::new("").ok()?;
    let mut out: Vec<String> = Vec::new();
    let sink = grep::searcher::sinks::UTF8(|_ln, line: &str| {
        out.push(line.to_string());
        Ok(true)
    });
    match grep::searcher::Searcher::new().search_path(&matcher, path, sink) {
        Ok(()) => Some(out),
        Err(_) => None,
    }
}

} // verus!
