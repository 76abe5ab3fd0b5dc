//! Paged directory listing: the entry record handed in by the caller, the
//! paging parameters, and the sort-and-page logic.

use vstd::prelude::*;
use vstd::string::*;
use crate::entries::{entries_sorted, sort_entries_by, SortKey};
use crate::numbers::{all_digits, dec_str, dec_value, fmt_u64, parse_usize};

verus! {

/// One directory entry, with the metadata a listing shows. `kind` is one of
/// `dir`, `file`, `symlink`, `other` or `unknown`.
#[derive(Debug, Clone)]
pub struct FileEntryDto {
    pub name: String,
    pub path: String,
    pub kind: String,
    pub size: u64,
    pub modified: u64,
}

/// How a listing page is selected: the directory, the page size, and the
/// cursor returned by the previous page.
pub struct ListParams {
    pub path: String,
    pub limit: usize,
    pub cursor: Option<String>,
}

/// One page of a listing, and the cursor for the next page when more entries
/// follow.
pub struct ListResult {
    pub entries: Vec<FileEntryDto>,
    pub next_cursor: Option<String>,
}

/// Where the page starts: the cursor parsed as a number (an absent or
/// unparseable cursor means the first page), clamped to the total.
pub open spec fn page_offset(cursor: Option<String>, total: int) -> int {
    match cursor {
        Option::None => 0,
        Option::Some(s) => {
            let v = if s@.len() > 0 && all_digits(s@) && dec_value(s@) <= usize::MAX as int {
                dec_value(s@)
            } else {
                0
            };
            if v > total {
                total
            } else {
                v
            }
        },
    }
}

/// How many entries the page holds: the limit, or what is left after the
/// offset if that is less.
pub open spec fn page_len(limit: int, total: int, offset: int) -> int {
    if limit < total - offset {
        limit
    } else {
        total - offset
    }
}

/// The page is the contiguous slice, at the cursor's offset, of some sorted
/// arrangement of the given entries.
pub open spec fn page_of(
    raw: Seq<FileEntryDto>,
    cursor: Option<String>,
    limit: int,
    page: Seq<FileEntryDto>,
) -> bool {
    exists|s: Seq<FileEntryDto>|
        s.to_multiset() == raw.to_multiset() && s.len() == raw.len() && entries_sorted(
            s,
            SortKey::Name,
            true,
            false,
        ) && ({
            let off = page_offset(cursor, raw.len() as int);
            page =~= s.subrange(off, off + page_len(limit, raw.len() as int, off))
        })
}

/// One entry of `e`'s view.
fn clone_entry(e: &FileEntryDto) -> (r: FileEntryDto)
    ensures
        r == *e,
{
    FileEntryDto {
        name: e.name.clone(),
        path: e.path.clone(),
        kind: e.kind.clone(),
        size: e.size,
        modified: e.modified,
    }
}

/// One page of the directory's entries, sorted by name (case-folded) for
/// stable paging. The page starts at the cursor's offset and holds at most
/// `limit` entries, each one of the given entries; when entries remain, the
/// next cursor is the decimal rendering of the index right after the page.
pub fn list_dir_sync(raw: Vec<FileEntryDto>, params: &ListParams) -> (r: ListResult)
    ensures
        entries_sorted(r.entries@, SortKey::Name, true, false),
        r.entries@.len() == page_len(
            params.limit as int,
            raw@.len() as int,
            page_offset(params.cursor, raw@.len() as int),
        ),
        forall|k: int|
            0 <= k < r.entries@.len() ==> raw@.to_multiset().count(#[trigger] r.entries@[k]) > 0,
        r.next_cursor is Some <==> page_offset(params.cursor, raw@.len() as int) + r.entries@.len()
            < raw@.len(),
        r.next_cursor matches Some(c) ==> c@ == dec_str(
            page_offset(params.cursor, raw@.len() as int) + r.entries@.len(),
        ),
        page_of(raw@, params.cursor, params.limit as int, r.entries@),
{
    broadcast use vstd::seq_lib::group_to_multiset_ensures;

    let ghost raw_view = raw@;
    let sorted = sort_entries_by(raw, SortKey::Name, true, false);
    let total = sorted.len();
    let offset_raw: usize = match &params.cursor {
        None => 0,
        Some(c) => match parse_usize(c.as_str()) {
            Some(v) => v,
            None => 0,
        },
    };
    let offset = if offset_raw > total {
        total
    } else {
        offset_raw
    };
    assert(offset as int == page_offset(params.cursor, raw_view.len() as int));
    let remaining = total - offset;
    let count = if params.limit < remaining {
        params.limit
    } else {
        remaining
    };
    let mut entries: Vec<FileEntryDto> = Vec::new();
    let mut j: usize = 0;
    while j < count
        invariant
            0 <= j <= count,
            count == page_len(params.limit as int, total as int, offset as int),
            offset + count <= total,
            total == sorted@.len(),
            entries@.len() == j,
            entries_sorted(sorted@, SortKey::Name, true, false),
            sorted@.to_multiset() == raw_view.to_multiset(),
            forall|k: int| 0 <= k < j ==> entries@[k] == sorted@[offset + k],
        decreases count - j,
    {
        entries.push(clone_entry(&sorted[offset + j]));
        j += 1;
    }
    proof {
        assert forall|k: int| 0 <= k < entries@.len() implies raw_view.to_multiset().count(
            #[trigger] entries@[k],
        ) > 0 by {
            assert(entries@[k] == sorted@[offset + k]);
            assert(sorted@.contains(sorted@[offset + k]));
            sorted@.to_multiset_ensures();
        }
        assert forall|a: int, b: int| 0 <= a < b < entries@.len() implies crate::entries::entry_le(
            SortKey::Name,
            true,
            false,
            entries@[a],
            entries@[b],
        ) by {
            assert(entries@[a] == sorted@[offset + a]);
            assert(entries@[b] == sorted@[offset + b]);
        }
    }
    proof {
        assert(entries@ =~= sorted@.subrange(offset as int, offset as int + count as int));
        assert(page_of(raw_view, params.cursor, params.limit as int, entries@)) by {
            let off = page_offset(params.cursor, raw_view.len() as int);
            assert(sorted@.to_multiset() == raw_view.to_multiset() && sorted@.len()
                == raw_view.len() && entries_sorted(sorted@, SortKey::Name, true, false) && (
            entries@ =~= sorted@.subrange(off, off + page_len(
                params.limit as int,
                raw_view.len() as int,
                off,
            ))));
        }
    }
    let next_cursor = if offset + count < total {
        Some(fmt_u64((offset + count) as u64))
    } else {
        None
    };
    ListResult { entries, next_cursor }
}

} // verus!
