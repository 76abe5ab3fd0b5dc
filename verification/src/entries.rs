//! Ordering of directory-listing entries: the sort keys, the extension key
//! used by type-sorting, and a verified sort.
//!
//! String keys are compared lexicographically over their Unicode lowercase
//! foldings (`name_le`), matching how a listing is displayed.

use vstd::prelude::*;
use vstd::string::*;
use crate::listing::FileEntryDto;
use crate::text::{lex_le, lemma_lex_le_total, lemma_lex_le_trans, lower_of, name_le, str_lex_le, str_name_le, str_eq, to_lower};

verus! {

/// What a listing is sorted by.
#[derive(Clone, Copy, PartialEq, Eq, Structural)]
pub enum SortKey {
    Name,
    Size,
    Modified,
    Type,
}

/// The index just after the last `.` of the name, or `0` if the name holds
/// no `.`.
pub open spec fn after_last_dot(p: Seq<char>) -> int
    decreases p.len(),
{
    if p.len() == 0 {
        0
    } else if p[p.len() - 1] == '.' {
        p.len() as int
    } else {
        after_last_dot(p.drop_last())
    }
}

/// A file name has an extension when a `.` stands after its first
/// character; the parent-directory name is the one exception.
pub open spec fn name_has_extension(name: Seq<char>) -> bool {
    after_last_dot(name) >= 2 && name != ".."@
}

/// The text after the last `.` of the name, lowercase-folded.
pub open spec fn extension_of(name: Seq<char>) -> Seq<char> {
    lower_of(name.subrange(after_last_dot(name), name.len() as int))
}

/// The sort key that type-ordering uses: directories first, then files by
/// their lowercased extension (names without one last), other kinds by their
/// kind text.
pub open spec fn extension_key(name: Seq<char>, kind: Seq<char>) -> Seq<char> {
    if kind == "dir"@ {
        "0_dir"@
    } else if kind == "file"@ {
        if name_has_extension(name) {
            extension_of(name)
        } else {
            "zzz_noext"@
        }
    } else {
        kind
    }
}

proof fn lemma_after_last_dot_bounds(p: Seq<char>)
    ensures
        0 <= after_last_dot(p) <= p.len(),
        forall|j: int| after_last_dot(p) <= j < p.len() ==> p[j] != '.',
        after_last_dot(p) > 0 ==> p[after_last_dot(p) - 1] == '.',
    decreases p.len(),
{
    if p.len() > 0 && p[p.len() - 1] != '.' {
        lemma_after_last_dot_bounds(p.drop_last());
        assert(forall|j: int| after_last_dot(p) <= j < p.len() - 1 ==> p.drop_last()[j] == p[j]);
    }
}

/// The suffix of `name` after its last `.`, or `None` when the name has no
/// extension under the library's rule.
pub(crate) fn raw_extension(name: &str) -> (r: Option<&str>)
    ensures
        name_has_extension(name@) ==> (r matches Some(e) && e@ == name@.subrange(
            after_last_dot(name@),
            name@.len() as int,
        )),
        !name_has_extension(name@) ==> r is None,
{
    if str_eq(name, "..") {
        return None;
    }
    let n = name.unicode_len();
    let mut i: usize = n;
    while i > 0
        invariant
            0 <= i <= n,
            n == name@.len(),
            name@ != ".."@,
            forall|j: int| i <= j < n ==> name@[j] != '.',
        decreases i,
    {
        if name.get_char(i - 1) == '.' {
            proof {
                lemma_after_last_dot_bounds(name@);
                assert(after_last_dot(name@) == i) by {
                    if after_last_dot(name@) < i {
                        assert(name@[i - 1] == '.');
                    }
                }
            }
            if i >= 2 {
                return Some(name.substring_char(i, n));
            } else {
                return None;
            }
        }
        i -= 1;
    }
    proof {
        lemma_after_last_dot_bounds(name@);
        assert(after_last_dot(name@) == 0) by {
            if after_last_dot(name@) > 0 {
                assert(name@[after_last_dot(name@) - 1] == '.');
            }
        }
    }
    None
}

/// The type-sort key of one entry: `0_dir` for directories, the lowercased
/// extension (or `zzz_noext`) for files, the kind text otherwise.
pub fn get_extension(name: &str, kind: &str) -> (r: String)
    ensures
        r@ == extension_key(name@, kind@),
{
    if str_eq(kind, "dir") {
        return String::from_str("0_dir");
    }
    if str_eq(kind, "file") {
        return match raw_extension(name) {
            Some(e) => to_lower(e),
            None => String::from_str("zzz_noext"),
        };
    }
    String::from_str(kind)
}

/// Whether entry `a` sorts at or before entry `b`, under one key and
/// direction: directories always first, then the chosen key, reversed when
/// descending.
pub open spec fn entry_le(key: SortKey, asc: bool, dirs_first: bool, a: FileEntryDto, b: FileEntryDto) -> bool {
    let da = a.kind@ == "dir"@;
    let db = b.kind@ == "dir"@;
    if dirs_first && da != db {
        da
    } else if asc {
        key_le(key, a, b)
    } else {
        key_le(key, b, a)
    }
}

/// The underlying ascending order of one key.
pub open spec fn key_le(key: SortKey, a: FileEntryDto, b: FileEntryDto) -> bool {
    match key {
        SortKey::Name => name_le(a.name@, b.name@),
        SortKey::Size => a.size <= b.size,
        SortKey::Modified => a.modified <= b.modified,
        SortKey::Type => lex_le(extension_key(a.name@, a.kind@), extension_key(b.name@, b.kind@)),
    }
}

proof fn lemma_key_le_total(key: SortKey, a: FileEntryDto, b: FileEntryDto)
    ensures
        key_le(key, a, b) || key_le(key, b, a),
{
    match key {
        SortKey::Name => lemma_lex_le_total(lower_of(a.name@), lower_of(b.name@), 0),
        SortKey::Size => {},
        SortKey::Modified => {},
        SortKey::Type => lemma_lex_le_total(
            extension_key(a.name@, a.kind@),
            extension_key(b.name@, b.kind@),
            0,
        ),
    }
}

proof fn lemma_key_le_trans(key: SortKey, a: FileEntryDto, b: FileEntryDto, c: FileEntryDto)
    requires
        key_le(key, a, b),
        key_le(key, b, c),
    ensures
        key_le(key, a, c),
{
    match key {
        SortKey::Name => lemma_lex_le_trans(lower_of(a.name@), lower_of(b.name@), lower_of(c.name@), 0),
        SortKey::Size => {},
        SortKey::Modified => {},
        SortKey::Type => lemma_lex_le_trans(
            extension_key(a.name@, a.kind@),
            extension_key(b.name@, b.kind@),
            extension_key(c.name@, c.kind@),
            0,
        ),
    }
}

/// The entry order is total.
pub proof fn lemma_entry_le_total(
    key: SortKey,
    asc: bool,
    dirs_first: bool,
    a: FileEntryDto,
    b: FileEntryDto,
)
    ensures
        entry_le(key, asc, dirs_first, a, b) || entry_le(key, asc, dirs_first, b, a),
{
    lemma_key_le_total(key, a, b);
}

/// The entry order is transitive.
pub proof fn lemma_entry_le_trans(
    key: SortKey,
    asc: bool,
    dirs_first: bool,
    a: FileEntryDto,
    b: FileEntryDto,
    c: FileEntryDto,
)
    ensures
        entry_le(key, asc, dirs_first, a, b) && entry_le(key, asc, dirs_first, b, c) ==> entry_le(
            key,
            asc,
            dirs_first,
            a,
            c,
        ),
{
    if entry_le(key, asc, dirs_first, a, b) && entry_le(key, asc, dirs_first, b, c) {
        if asc {
            if key_le(key, a, b) && key_le(key, b, c) {
                lemma_key_le_trans(key, a, b, c);
            }
        } else {
            if key_le(key, b, a) && key_le(key, c, b) {
                lemma_key_le_trans(key, c, b, a);
            }
        }
    }
}

/// Whether entry `a` sorts at or before entry `b`.
fn entry_le_exec(key: SortKey, asc: bool, dirs_first: bool, a: &FileEntryDto, b: &FileEntryDto) -> (r:
    bool)
    ensures
        r == entry_le(key, asc, dirs_first, *a, *b),
{
    let da = str_eq(a.kind.as_str(), "dir");
    let db = str_eq(b.kind.as_str(), "dir");
    if dirs_first && da != db {
        da
    } else if asc {
        key_le_exec(key, a, b)
    } else {
        key_le_exec(key, b, a)
    }
}

/// Whether `a` sorts at or before `b` under the key's ascending order.
fn key_le_exec(key: SortKey, a: &FileEntryDto, b: &FileEntryDto) -> (r: bool)
    ensures
        r == key_le(key, *a, *b),
{
    match key {
        SortKey::Name => str_name_le(a.name.as_str(), b.name.as_str()),
        SortKey::Size => a.size <= b.size,
        SortKey::Modified => a.modified <= b.modified,
        SortKey::Type => {
            let ka = get_extension(a.name.as_str(), a.kind.as_str());
            let kb = get_extension(b.name.as_str(), b.kind.as_str());
            str_lex_le(ka.as_str(), kb.as_str())
        },
    }
}

/// The sequence is sorted under the entry order.
pub open spec fn entries_sorted(
    s: Seq<FileEntryDto>,
    key: SortKey,
    asc: bool,
    dirs_first: bool,
) -> bool {
    forall|i: int, j: int| 0 <= i < j < s.len() ==> entry_le(key, asc, dirs_first, s[i], s[j])
}

/// Sorts the entries: the result holds the same entries (as a multiset) in
/// the chosen order, directories first when `dirs_first` is set.
pub fn sort_entries_by(entries: Vec<FileEntryDto>, key: SortKey, asc: bool, dirs_first: bool) -> (r:
    Vec<FileEntryDto>)
    ensures
        r@.to_multiset() == entries@.to_multiset(),
        r@.len() == entries@.len(),
        entries_sorted(r@, key, asc, dirs_first),
{
    broadcast use vstd::seq_lib::to_multiset_insert;
    broadcast use vstd::seq_lib::group_to_multiset_ensures;

    let mut out: Vec<FileEntryDto> = Vec::new();
    let mut src = entries;
    assert(src@.to_multiset() =~= out@.to_multiset().add(src@.to_multiset()));
    let ghost all = src@.to_multiset();
    loop
        invariant
            entries_sorted(out@, key, asc, dirs_first),
            all == out@.to_multiset().add(src@.to_multiset()),
            out@.len() + src@.len() == all.len(),
            all == entries@.to_multiset(),
            all.len() == entries@.len(),
        ensures
            src@.len() == 0,
            entries_sorted(out@, key, asc, dirs_first),
            out@.to_multiset() == all,
            out@.len() == all.len(),
        decreases src@.len(),
    {
        if src.len() == 0 {
            proof {
                broadcast use vstd::multiset::group_multiset_axioms;

                assert forall|e: FileEntryDto|
                    out@.to_multiset().add(src@.to_multiset()).count(e) == out@.to_multiset().count(
                        e,
                    ) by {
                    src@.to_multiset_ensures();
                    assert(!src@.contains(e));
                    assert(src@.to_multiset().count(e) == 0);
                }
                assert(out@.to_multiset().add(src@.to_multiset()) =~= out@.to_multiset());
            }
            break;
        }
        let ghost src_before = src@;
        let x = src.pop().unwrap();
        let ghost popped = src@;
        proof {
            assert(src_before =~= popped.push(x));
        }
        let mut pos: usize = 0;
        while pos < out.len() && entry_le_exec(key, asc, dirs_first, &out[pos], &x)
            invariant
                0 <= pos <= out@.len(),
                forall|k: int| 0 <= k < pos ==> entry_le(key, asc, dirs_first, out@[k], x),
            decreases out@.len() - pos,
        {
            pos += 1;
        }
        let ghost before = out@;
        proof {
            if pos < out@.len() {
                lemma_entry_le_total(key, asc, dirs_first, out@[pos as int], x);
            }
        }
        out.insert(pos, x);
        proof {
            assert forall|i: int, j: int| 0 <= i < j < out@.len() implies entry_le(
                key,
                asc,
                dirs_first,
                out@[i],
                out@[j],
            ) by {
                if i < pos && j == pos {
                } else if i == pos && j > pos {
                    if pos < before.len() {
                        lemma_entry_le_trans(key, asc, dirs_first, x, before[pos as int], before[j - 1]);
                    }
                } else if i < pos && j > pos {
                    assert(entry_le(key, asc, dirs_first, before[i], before[j - 1]));
                } else if i > pos || j < pos {
                    assert(out@[i] == before[if i < pos { i } else { i - 1 }]);
                    assert(out@[j] == before[if j < pos { j } else { j - 1 }]);
                }
            }
            broadcast use vstd::multiset::group_multiset_axioms;

            assert(out@ == before.insert(pos as int, x));
            vstd::seq_lib::to_multiset_insert(before, pos as int, x);
            popped.to_multiset_ensures();
            assert(out@.to_multiset() == before.to_multiset().insert(x));
            assert(popped.push(x).to_multiset() =~= popped.to_multiset().insert(x));
            assert(out@.to_multiset().add(src@.to_multiset()) =~= before.to_multiset().add(
                popped.push(x).to_multiset(),
            ));
        }
    }
    out
}

/// Sorts a listing for display: directories before files, then by the chosen
/// key, ascending or descending.
pub fn sort_entries(entries: Vec<FileEntryDto>, key: SortKey, asc: bool) -> (r: Vec<FileEntryDto>)
    ensures
        r@.to_multiset() == entries@.to_multiset(),
        r@.len() == entries@.len(),
        entries_sorted(r@, key, asc, true),
{
    sort_entries_by(entries, key, asc, true)
}

} // verus!
