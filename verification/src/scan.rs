//! The live-scan backend: walks a directory tree on demand, regex-matching
//! file contents line by line, bounded by a depth cap and a global
//! result-count cap. No index is built or kept.

use vstd::prelude::*;
use vstd::string::*;
use crate::disk::{is_prefix, slash_count, walk_entries};
use crate::text::pairs_view;
use crate::errors::Error;
use crate::SearchResult;

verus! {

/// The most results one live scan may return, across all files.
pub const MAX_SCAN_RESULTS: usize = 100;

/// How deep below its root a live scan will walk.
pub const MAX_SCAN_DEPTH: usize = 10;

/// One file's contribution to a scan: one result per reported match, in
/// order, each carrying the file's path and the match's line number and text.
pub open spec fn file_block(path: Seq<char>, found: Seq<(int, Seq<char>)>, seg: Seq<SearchResult>) -> bool {
    seg.len() == found.len() && (forall|j: int|
        0 <= j < seg.len() ==> (#[trigger] seg[j]).path@ == path && seg[j].line_number as int
            == found[j].0 && seg[j].line_content@ == found[j].1)
}

/// The whole scan output: a sequence of per-file blocks in walk order, each
/// from a file under the scan root.
pub open spec fn scan_assembled(root: Seq<char>, out: Seq<SearchResult>) -> bool {
    exists|files: Seq<Seq<char>>, founds: Seq<Seq<(int, Seq<char>)>>, bounds: Seq<int>|
        files.len() == founds.len() && bounds.len() == files.len() + 1 && bounds[0] == 0
            && bounds.last() == out.len() && (forall|k: int|
            0 <= k < files.len() ==> (#[trigger] bounds[k]) <= bounds[k + 1] <= out.len()) && (
        forall|k: int| 0 <= k < files.len() ==> is_prefix(root, #[trigger] files[k])) && (forall|
            k: int,
        |
            0 <= k < files.len() ==> file_block(
                #[trigger] files[k],
                founds[k],
                out.subrange(bounds[k], bounds[k + 1]),
            ))
}

/// Appending one file's block keeps every earlier block intact.
#[verifier::rlimit(60)]
proof fn lemma_blocks_extend(
    before: Seq<SearchResult>,
    after: Seq<SearchResult>,
    files: Seq<Seq<char>>,
    founds: Seq<Seq<(int, Seq<char>)>>,
    bounds: Seq<int>,
    root: Seq<char>,
    path: Seq<char>,
    found: Seq<(int, Seq<char>)>,
)
    requires
        files.len() == founds.len(),
        bounds.len() == files.len() + 1,
        bounds[0] == 0,
        bounds.last() == before.len(),
        forall|k: int| 0 <= k < bounds.len() ==> 0 <= #[trigger] bounds[k],
        forall|k: int| 0 <= k < files.len() ==> (#[trigger] bounds[k]) <= bounds[k + 1]
            <= before.len(),
        forall|k: int| 0 <= k < files.len() ==> is_prefix(root, #[trigger] files[k]),
        forall|k: int| 0 <= k < files.len() ==> file_block(
            #[trigger] files[k],
            founds[k],
            before.subrange(bounds[k], bounds[k + 1]),
        ),
        is_prefix(root, path),
        before.len() <= after.len(),
        forall|j: int| 0 <= j < before.len() ==> #[trigger] after[j] == before[j],
        file_block(path, found, after.subrange(before.len() as int, after.len() as int)),
    ensures
        ({
            let files1 = files.push(path);
            let founds1 = founds.push(found);
            let bounds1 = bounds.push(after.len() as int);
            &&& files1.len() == founds1.len()
            &&& bounds1.len() == files1.len() + 1
            &&& bounds1[0] == 0
            &&& bounds1.last() == after.len()
            &&& forall|k: int| 0 <= k < bounds1.len() ==> 0 <= #[trigger] bounds1[k]
            &&& forall|k: int|
                0 <= k < files1.len() ==> (#[trigger] bounds1[k]) <= bounds1[k + 1] <= after.len()
            &&& forall|k: int| 0 <= k < files1.len() ==> is_prefix(root, #[trigger] files1[k])
            &&& forall|k: int|
                0 <= k < files1.len() ==> file_block(
                    #[trigger] files1[k],
                    founds1[k],
                    after.subrange(bounds1[k], bounds1[k + 1]),
                )
        }),
{
    let files1 = files.push(path);
    let founds1 = founds.push(found);
    let bounds1 = bounds.push(after.len() as int);
    assert forall|k: int| 0 <= k < files1.len() implies file_block(
        #[trigger] files1[k],
        founds1[k],
        after.subrange(bounds1[k], bounds1[k + 1]),
    ) && is_prefix(root, files1[k]) && bounds1[k] <= bounds1[k + 1] <= after.len() by {
        if k < files.len() {
            assert(bounds1[k] == bounds[k]);
            assert(bounds1[k + 1] == bounds[k + 1]);
            assert(file_block(files[k], founds[k], before.subrange(bounds[k], bounds[k + 1])));
            assert(bounds[k + 1] <= before.len());
            assert forall|m: int| 0 <= m < bounds[k + 1] - bounds[k] implies #[trigger] after.subrange(
                bounds[k],
                bounds[k + 1],
            )[m] == before.subrange(bounds[k], bounds[k + 1])[m] by {
                assert(after[bounds[k] + m] == before[bounds[k] + m]);
            }
            assert(after.subrange(bounds[k], bounds[k + 1]) =~= before.subrange(
                bounds[k],
                bounds[k + 1],
            ));
        } else {
            assert(after.subrange(bounds1[k], bounds1[k + 1]) =~= after.subrange(
                before.len() as int,
                after.len() as int,
            ));
        }
    }
}

#[verifier::external_type_specification]
#[verifier::external_body]
pub struct ExRegexMatcher(grep::regex::RegexMatcher);

/// Relies on `grep_regex::RegexMatcher::new`: compiles the pattern as a
/// line-oriented regular expression, failing exactly on invalid syntax; a
/// failure comes back as its rendered message.
#[verifier::external_body]
fn regex_new(pattern: &str) -> (r: Result<grep::regex::RegexMatcher, String>) {
    grep::regex::RegexMatcher::new(pattern).map_err(|e| e.to_string())
}

/// Relies on `str::from_utf8`: decodes the bytes as UTF-8 text, `None`
/// exactly when they are not valid UTF-8.
#[verifier::external_body]
fn decode_utf8_text(b: &[u8]) -> (r: Option<String>)
    ensures
        r is Some <==> vstd::utf8::valid_utf8(b@),
        r matches Some(s) ==> vstd::utf8::encode_utf8(s@) == b@,
{
    std::str::from_utf8(b).ok().map(|s| s.to_string())
}

/// Records one reported match, decoded as UTF-8 text or substituted by the
/// binary placeholder line, and says whether the search may continue: only
/// while the quota is not yet full.
fn sink_step(out: &mut Vec<(usize, String)>, line_number: u64, bytes: &[u8], limit: usize) -> (cont:
    bool)
    ensures
        final(out)@.len() == old(out)@.len() + 1,
        forall|j: int| 0 <= j < old(out)@.len() ==> final(out)@[j] == old(out)@[j],
        final(out)@.last().0 == line_number as usize,
        vstd::utf8::valid_utf8(bytes@) ==> vstd::utf8::encode_utf8(final(out)@.last().1@)
            == bytes@,
        !vstd::utf8::valid_utf8(bytes@) ==> final(out)@.last().1@ == "<binary>"@,
        cont == (final(out)@.len() < limit),
{
    let n = line_number as usize;
    let owned = match decode_utf8_text(bytes) {
        Some(s) => s,
        None => String::from_str("<binary>"),
    };
    out.push((n, owned));
    out.len() < limit
}

/// Relies on `grep_searcher::Searcher::search_path` with the `Bytes` sink:
/// runs the compiled pattern over the file at `path` line by line and
/// reports at most `limit` matching lines, each with its one-based line
/// number and text; a matching line that is not valid UTF-8 comes back as
/// the placeholder line. Unreadable files yield nothing.
#[verifier::external_body]
fn grep_file(matcher: &grep::regex::RegexMatcher, path: &str, limit: usize) -> (r: Vec<
    (usize, String),
>)
    ensures
        r@.len() <= limit,
{
    let mut out: Vec<(usize, String)> = Vec::new();
    if limit == 0 {
        return out;
    }
    let sink = grep::searcher::sinks::Bytes(|ln, bytes: &[u8]| Ok(sink_step(&mut out, ln, bytes, limit)));
    let _ = grep::searcher::Searcher::new().search_path(matcher, path, sink);
    out
}

/// Appends one file's matches to the running result list: one result per
/// match, carrying the file's path and the match's line number and text.
fn append_matches(results: &mut Vec<SearchResult>, path: &String, found: &Vec<(usize, String)>)
    ensures
        final(results)@.len() == old(results)@.len() + found@.len(),
        forall|k: int| 0 <= k < old(results)@.len() ==> final(results)@[k] == old(results)@[k],
        file_block(
            path@,
            pairs_view(found@),
            final(results)@.subrange(old(results)@.len() as int, final(results)@.len() as int),
        ),
{
    let n = found.len();
    let mut j: usize = 0;
    while j < n
        invariant
            0 <= j <= n,
            n == found@.len(),
            results@.len() == old(results)@.len() + j,
            forall|k: int| 0 <= k < old(results)@.len() ==> results@[k] == old(results)@[k],
            forall|k: int| 0 <= k < j ==> (#[trigger] results@[old(results)@.len() + k]).path@
                == path@ && results@[old(results)@.len() + k].line_number == found@[k].0
                && results@[old(results)@.len() + k].line_content@ == found@[k].1@,
        decreases n - j,
    {
        let line_number = found[j].0;
        let line_content = found[j].1.clone();
        results.push(SearchResult { path: path.clone(), line_number, line_content });
        j += 1;
    }
    proof {
        let base = old(results)@.len() as int;
        let seg = results@.subrange(base, results@.len() as int);
        assert forall|k: int| 0 <= k < seg.len() implies (#[trigger] seg[k]).path@ == path@
            && seg[k].line_number as int == pairs_view(found@)[k].0 && seg[k].line_content@
            == pairs_view(found@)[k].1 by {
            assert(seg[k] == results@[base + k]);
        }
    }
}

/// The stateless live scanner rooted at one directory. Every call re-walks
/// the tree; nothing is cached between calls.
pub struct RipgrepBackend {
    root: String,
}

impl RipgrepBackend {
    /// The root every scan starts from.
    pub closed spec fn root_path(&self) -> Seq<char> {
        self.root@
    }

    /// A scanner rooted at `root`.
    pub fn new(root: String) -> (r: RipgrepBackend)
        ensures
            r.root_path() == root@,
    {
        RipgrepBackend { root }
    }

    /// Scans the tree under the root for lines matching `query` as a regular
    /// expression, skipping hidden and version-control-ignored entries, at
    /// most `MAX_SCAN_DEPTH` levels deep. Returns at most `MAX_SCAN_RESULTS`
    /// results: per-file blocks in walk order, one result per reported match,
    /// every file under the root; an invalid regular expression is reported
    /// as `Error::InvalidQuery`.
    #[verifier::rlimit(60)]
    pub fn search(&self, query: &str) -> (r: Result<Vec<SearchResult>, Error>)
        ensures
            r matches Ok(v) ==> v@.len() <= MAX_SCAN_RESULTS,
            r matches Ok(v) ==> forall|i: int|
                0 <= i < v@.len() ==> is_prefix(self.root_path(), (#[trigger] v@[i]).path@),
            r matches Ok(v) ==> forall|i: int|
                0 <= i < v@.len() ==> slash_count(
                    (#[trigger] v@[i]).path@.skip(self.root_path().len() as int),
                ) <= MAX_SCAN_DEPTH,
            r matches Ok(v) ==> scan_assembled(self.root_path(), v@),
    {
        let matcher = match regex_new(query) {
            Ok(m) => m,
            Err(msg) => return Err(Error::InvalidQuery(msg)),
        };
        let entries = walk_entries(self.root.as_str(), true, Some(MAX_SCAN_DEPTH));
        let mut results: Vec<SearchResult> = Vec::new();
        let ghost mut files: Seq<Seq<char>> = Seq::empty();
        let ghost mut founds: Seq<Seq<(int, Seq<char>)>> = Seq::empty();
        let ghost mut bounds: Seq<int> = seq![0];
        let n = entries.len();
        let mut i: usize = 0;
        while i < n && results.len() < MAX_SCAN_RESULTS
            invariant
                0 <= i <= n,
                n == entries@.len(),
                results@.len() <= MAX_SCAN_RESULTS,
                files.len() == founds.len(),
                bounds.len() == files.len() + 1,
                bounds[0] == 0,
                bounds.last() == results@.len(),
                forall|k: int| 0 <= k < bounds.len() ==> 0 <= #[trigger] bounds[k],
                forall|k: int| 0 <= k < files.len() ==> (#[trigger] bounds[k]) <= bounds[k + 1]
                    <= results@.len(),
                forall|k: int| 0 <= k < files.len() ==> is_prefix(
                    self.root_path(),
                    #[trigger] files[k],
                ),
                forall|k: int| 0 <= k < files.len() ==> file_block(
                    #[trigger] files[k],
                    founds[k],
                    results@.subrange(bounds[k], bounds[k + 1]),
                ),
                forall|k: int| 0 <= k < n ==> is_prefix(self.root_path(), #[trigger] entries@[k].path@),
                forall|k: int| 0 <= k < n ==> slash_count(
                    (#[trigger] entries@[k]).path@.skip(self.root_path().len() as int),
                ) <= MAX_SCAN_DEPTH,
                forall|k: int| 0 <= k < results@.len() ==> is_prefix(
                    self.root_path(),
                    (#[trigger] results@[k]).path@,
                ) && slash_count(results@[k].path@.skip(self.root_path().len() as int))
                    <= MAX_SCAN_DEPTH,
            decreases n - i,
        {
            let e = &entries[i];
            if e.is_file {
                let remaining = MAX_SCAN_RESULTS - results.len();
                let found = grep_file(&matcher, e.path.as_str(), remaining);
                let ghost before = results@;
                append_matches(&mut results, &e.path, &found);
                proof {
                    let base = before.len() as int;
                    let seg = results@.subrange(base, results@.len() as int);
                    lemma_blocks_extend(
                        before,
                        results@,
                        files,
                        founds,
                        bounds,
                        self.root_path(),
                        entries@[i as int].path@,
                        pairs_view(found@),
                    );
                    files = files.push(e.path@);
                    founds = founds.push(pairs_view(found@));
                    bounds = bounds.push(results@.len() as int);
                    assert forall|k: int| 0 <= k < results@.len() implies is_prefix(
                        self.root_path(),
                        (#[trigger] results@[k]).path@,
                    ) && slash_count(results@[k].path@.skip(self.root_path().len() as int))
                        <= MAX_SCAN_DEPTH by {
                        if k < base {
                            assert(results@[k] == before[k]);
                        } else {
                            assert(results@[k] == seg[k - base]);
                            assert(results@[k].path@ == entries@[i as int].path@);
                        }
                    }
                }
            }
            i += 1;
        }
        proof {
            assert(scan_assembled(self.root_path(), results@)) by {
                assert(files.len() == founds.len() && bounds.len() == files.len() + 1 && bounds[0]
                    == 0 && bounds.last() == results@.len() && (forall|k: int|
                    0 <= k < files.len() ==> (#[trigger] bounds[k]) <= bounds[k + 1]
                        <= results@.len()) && (forall|k: int|
                    0 <= k < files.len() ==> is_prefix(self.root_path(), #[trigger] files[k])) && (
                forall|k: int|
                    0 <= k < files.len() ==> file_block(
                        #[trigger] files[k],
                        founds[k],
                        results@.subrange(bounds[k], bounds[k + 1]),
                    )));
            }
        }
        Ok(results)
    }
}

} // verus!
