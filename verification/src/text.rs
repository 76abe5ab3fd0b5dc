//! Character- and line-level text utilities: case folding through the
//! standard library's Unicode tables (named results), substring search, and
//! line assembly.

use vstd::prelude::*;
use vstd::string::*;

verus! {

/// The Unicode lowercase folding of a string, as `str::to_lowercase`
/// computes it. Named only: what it is takes tables to state; it is a
/// function of the characters alone.
pub uninterp spec fn lower_of(s: Seq<char>) -> Seq<char>;

/// The Unicode uppercase folding of a string, as `str::to_uppercase`
/// computes it. Named only, a function of the characters alone.
pub uninterp spec fn upper_of(s: Seq<char>) -> Seq<char>;

/// Relies on `str::to_lowercase`: the Unicode lowercase of the text, a
/// function of the characters alone; an empty string stays empty.
#[verifier::external_body]
pub(crate) fn to_lower(s: &str) -> (r: String)
    ensures
        r@ == lower_of(s@),
        s@.len() == 0 ==> r@.len() == 0,
{
    s.to_lowercase()
}

/// Relies on `str::to_uppercase`: the Unicode uppercase of the text, a
/// function of the characters alone; an empty string stays empty.
#[verifier::external_body]
pub(crate) fn to_upper(s: &str) -> (r: String)
    ensures
        r@ == upper_of(s@),
        s@.len() == 0 ==> r@.len() == 0,
{
    s.to_uppercase()
}

/// `needle` occurs in `hay` at offset `k`, character for character.
pub open spec fn seq_matches_at(hay: Seq<char>, needle: Seq<char>, k: int) -> bool {
    &&& 0 <= k
    &&& k + needle.len() <= hay.len()
    &&& forall|j: int| 0 <= j < needle.len() ==> hay[k + j] == needle[j]
}

/// `needle` occurs somewhere in `hay`, character for character.
pub open spec fn contains_seq(hay: Seq<char>, needle: Seq<char>) -> bool {
    exists|k: int| seq_matches_at(hay, needle, k)
}

/// The line matches the query: the folded query occurs in the folded line.
pub open spec fn line_matches(line: Seq<char>, query: Seq<char>) -> bool {
    contains_seq(lower_of(line), lower_of(query))
}

/// Whether `needle` occurs at offset `k` of `hay`.
fn matches_here(hay: &str, needle: &str, k: usize) -> (r: bool)
    requires
        k + needle@.len() <= hay@.len(),
        hay@.len() <= usize::MAX,
    ensures
        r == seq_matches_at(hay@, needle@, k as int),
{
    let n = needle.unicode_len();
    let mut j: usize = 0;
    while j < n
        invariant
            0 <= j <= n,
            n == needle@.len(),
            k + n <= hay@.len(),
            hay@.len() <= usize::MAX,
            forall|i: int| 0 <= i < j ==> hay@[k + i] == needle@[i],
        decreases n - j,
    {
        if hay.get_char(k + j) != needle.get_char(j) {
            return false;
        }
        j += 1;
    }
    true
}

/// Exact substring search.
pub fn str_contains(hay: &str, needle: &str) -> (r: bool)
    ensures
        r == contains_seq(hay@, needle@),
{
    let hn = hay.unicode_len();
    let nn = needle.unicode_len();
    if nn > hn {
        assert(!contains_seq(hay@, needle@));
        return false;
    }
    let mut k: usize = 0;
    while k <= hn - nn
        invariant
            0 <= k <= hn - nn + 1,
            nn <= hn,
            hn == hay@.len(),
            nn == needle@.len(),
            forall|i: int| 0 <= i < k ==> !seq_matches_at(hay@, needle@, i),
        decreases hn - nn + 1 - k,
    {
        if matches_here(hay, needle, k) {
            return true;
        }
        k += 1;
    }
    assert(forall|i: int| seq_matches_at(hay@, needle@, i) ==> 0 <= i <= hn - nn);
    false
}

/// Case-insensitive substring test: whether the folded needle occurs in the
/// folded hay.
pub fn fold_contains(hay: &str, needle: &str) -> (r: bool)
    ensures
        r == line_matches(hay@, needle@),
{
    let low_hay = to_lower(hay);
    let low_needle = to_lower(needle);
    str_contains(low_hay.as_str(), low_needle.as_str())
}

/// The byte encoding of the string contains a null byte; the crude binary
/// heuristic used to keep binary files out of the index.
pub open spec fn has_nul_byte(s: &str) -> bool {
    s.spec_bytes().contains(0u8)
}

/// Whether the string's byte encoding contains a null byte.
pub fn contains_nul(s: &str) -> (r: bool)
    ensures
        r == has_nul_byte(s),
{
    let bytes = s.as_bytes();
    let n = bytes.len();
    let mut i: usize = 0;
    while i < n
        invariant
            0 <= i <= n,
            n == bytes@.len(),
            bytes@ == s.spec_bytes(),
            forall|j: int| 0 <= j < i ==> bytes@[j] != 0u8,
        decreases n - i,
    {
        if bytes[i] == 0u8 {
            return true;
        }
        i += 1;
    }
    assert(!s.spec_bytes().contains(0u8));
    false
}

/// One trailing line feed, preceded by an optional carriage return, removed.
pub open spec fn strip_eol_spec(s: Seq<char>) -> Seq<char> {
    if s.len() >= 2 && s[s.len() - 2] == '\r' && s[s.len() - 1] == '\n' {
        s.subrange(0, s.len() - 2)
    } else if s.len() >= 1 && s[s.len() - 1] == '\n' {
        s.subrange(0, s.len() - 1)
    } else {
        s
    }
}

/// Removes the line terminator (`\n` or `\r\n`) from the end of a line, if
/// one is present.
pub fn strip_eol(s: &str) -> (r: &str)
    ensures
        r@ == strip_eol_spec(s@),
{
    let n = s.unicode_len();
    if n >= 2 && s.get_char(n - 2) == '\r' && s.get_char(n - 1) == '\n' {
        s.substring_char(0, n - 2)
    } else if n >= 1 && s.get_char(n - 1) == '\n' {
        s.substring_char(0, n - 1)
    } else {
        s
    }
}

/// The concatenation of a sequence of strings.
pub open spec fn concat_seqs(ls: Seq<Seq<char>>) -> Seq<char>
    decreases ls.len(),
{
    if ls.len() == 0 {
        seq![]
    } else {
        concat_seqs(ls.drop_last()) + ls.last()
    }
}

/// Concatenates lines (which carry their own terminators) back into one text.
pub fn concat_lines(lines: &Vec<String>) -> (r: String)
    ensures
        r@ == concat_seqs(lines.deep_view()),
{
    let mut out = String::new();
    let n = lines.len();
    let mut i: usize = 0;
    assert(lines.deep_view().take(0) =~= Seq::<Seq<char>>::empty());
    while i < n
        invariant
            0 <= i <= n,
            n == lines@.len(),
            lines.deep_view().len() == n,
            out@ == concat_seqs(lines.deep_view().take(i as int)),
        decreases n - i,
    {
        out.append(lines[i].as_str());
        proof {
            let dv = lines.deep_view();
            assert(dv.take(i + 1).drop_last() =~= dv.take(i as int));
            assert(dv.take(i + 1).last() == dv[i as int]);
        }
        i += 1;
    }
    proof {
        assert(lines.deep_view().take(n as int) =~= lines.deep_view());
    }
    out
}

/// One string of a sequence of lines contains a null byte in its encoding.
pub open spec fn any_nul_line(lines: Seq<Seq<char>>) -> bool {
    exists|i: int| 0 <= i < lines.len() && vstd::utf8::encode_utf8(#[trigger] lines[i]).contains(
        0u8,
    )
}

/// Whether any of the lines contains a null byte.
pub fn lines_have_nul(lines: &Vec<String>) -> (r: bool)
    ensures
        r == any_nul_line(lines.deep_view()),
{
    let n = lines.len();
    let mut i: usize = 0;
    while i < n
        invariant
            0 <= i <= n,
            n == lines@.len(),
            lines.deep_view().len() == n,
            forall|j: int| 0 <= j < i ==> !vstd::utf8::encode_utf8(
                #[trigger] lines.deep_view()[j],
            ).contains(0u8),
        decreases n - i,
    {
        assert(lines.deep_view()[i as int] == lines@[i as int]@);
        if contains_nul(lines[i].as_str()) {
            return true;
        }
        i += 1;
    }
    false
}

/// The pairs `(line number, line)` for exactly the lines whose text (with
/// its terminator removed) contains the query, compared case-insensitively,
/// in order. Line numbers are one-based.
pub open spec fn matched_pairs(lines: Seq<Seq<char>>, q: Seq<char>) -> Seq<(int, Seq<char>)>
    decreases lines.len(),
{
    if lines.len() == 0 {
        seq![]
    } else {
        let rest = matched_pairs(lines.drop_last(), q);
        let line = strip_eol_spec(lines.last());
        if line_matches(line, q) {
            rest.push((lines.len() as int, line))
        } else {
            rest
        }
    }
}

/// The mathematical view of a vector of numbered lines.
pub open spec fn pairs_view(s: Seq<(usize, String)>) -> Seq<(int, Seq<char>)> {
    s.map_values(|p: (usize, String)| (p.0 as int, p.1@))
}

/// Finds every line of the file that contains the query, compared
/// case-insensitively, each reported with its one-based line number and its
/// text without the line terminator. The query is folded once, each line
/// once, as the match test requires.
pub fn match_lines(lines: &Vec<String>, query: &str) -> (r: Vec<(usize, String)>)
    ensures
        pairs_view(r@) == matched_pairs(lines.deep_view(), query@),
{
    let query_lower = to_lower(query);
    let mut out: Vec<(usize, String)> = Vec::new();
    let n = lines.len();
    let mut i: usize = 0;
    assert(lines.deep_view().take(0) =~= Seq::<Seq<char>>::empty());
    assert(pairs_view(out@) =~= matched_pairs(lines.deep_view().take(0), query@));
    while i < n
        invariant
            0 <= i <= n,
            n == lines@.len(),
            lines.deep_view().len() == n,
            query_lower@ == lower_of(query@),
            pairs_view(out@) == matched_pairs(lines.deep_view().take(i as int), query@),
        decreases n - i,
    {
        assert(lines.deep_view()[i as int] == lines@[i as int]@);
        let stripped = strip_eol(lines[i].as_str());
        let ghost prefix = lines.deep_view().take(i + 1);
        proof {
            assert(prefix.drop_last() =~= lines.deep_view().take(i as int));
            assert(prefix.last() == lines.deep_view()[i as int]);
        }
        let line_lower = to_lower(stripped);
        if str_contains(line_lower.as_str(), query_lower.as_str()) {
            let owned = String::from_str(stripped);
            let ghost ov = owned@;
            let ghost old_out = out@;
            out.push((i + 1, owned));
            proof {
                assert(pairs_view(out@) =~= pairs_view(old_out).push(((i + 1) as int, ov)));
            }
        }
        i += 1;
    }
    proof {
        assert(lines.deep_view().take(n as int) =~= lines.deep_view());
    }
    out
}

/// The index just after the last `/` of the path, or `0` if the path holds
/// no `/`.
pub open spec fn after_last_slash(p: Seq<char>) -> int
    decreases p.len(),
{
    if p.len() == 0 {
        0
    } else if p[p.len() - 1] == '/' {
        p.len() as int
    } else {
        after_last_slash(p.drop_last())
    }
}

/// The final path component: everything after the last `/`.
pub open spec fn base_name_spec(p: Seq<char>) -> Seq<char> {
    p.subrange(after_last_slash(p), p.len() as int)
}

proof fn lemma_after_last_slash_bounds(p: Seq<char>)
    ensures
        0 <= after_last_slash(p) <= p.len(),
        forall|j: int| after_last_slash(p) <= j < p.len() ==> p[j] != '/',
        after_last_slash(p) > 0 ==> p[after_last_slash(p) - 1] == '/',
    decreases p.len(),
{
    if p.len() > 0 && p[p.len() - 1] != '/' {
        lemma_after_last_slash_bounds(p.drop_last());
        assert(forall|j: int|
            after_last_slash(p) <= j < p.len() - 1 ==> p.drop_last()[j] == p[j]);
    }
}

/// The final path component of `p`: the text after its last `/`, or all of
/// `p` when it holds none.
pub fn base_name(p: &str) -> (r: &str)
    ensures
        r@ == base_name_spec(p@),
{
    let n = p.unicode_len();
    let mut i: usize = n;
    while i > 0
        invariant
            0 <= i <= n,
            n == p@.len(),
            forall|j: int| i <= j < n ==> p@[j] != '/',
        decreases i,
    {
        if p.get_char(i - 1) == '/' {
            proof {
                lemma_after_last_slash_bounds(p@);
                assert(after_last_slash(p@) == i) by {
                    if after_last_slash(p@) < i {
                        assert(p@[i - 1] == '/');
                    }
                }
            }
            return p.substring_char(i, n);
        }
        i -= 1;
    }
    proof {
        lemma_after_last_slash_bounds(p@);
        assert(after_last_slash(p@) == 0) by {
            if after_last_slash(p@) > 0 {
                assert(p@[after_last_slash(p@) - 1] == '/');
            }
        }
    }
    let r = p.substring_char(0, n);
    assert(r@ =~= base_name_spec(p@));
    r
}

/// Whether `s` starts with the text `pre`.
pub fn str_starts_with(s: &str, pre: &str) -> (r: bool)
    ensures
        r == (pre@.len() <= s@.len() && s@.subrange(0, pre@.len() as int) == pre@),
{
    let np = pre.unicode_len();
    let ns = s.unicode_len();
    if np > ns {
        return false;
    }
    let mut i: usize = 0;
    while i < np
        invariant
            0 <= i <= np,
            np == pre@.len(),
            np <= ns,
            ns == s@.len(),
            forall|j: int| 0 <= j < i ==> s@[j] == pre@[j],
        decreases np - i,
    {
        if s.get_char(i) != pre.get_char(i) {
            assert(s@.subrange(0, np as int)[i as int] != pre@[i as int]);
            return false;
        }
        i += 1;
    }
    proof {
        assert(s@.subrange(0, np as int) =~= pre@);
    }
    true
}

/// Whether two strings hold the same characters.
pub fn str_eq(a: &str, b: &str) -> (r: bool)
    ensures
        r == (a@ == b@),
{
    let na = a.unicode_len();
    let nb = b.unicode_len();
    if na != nb {
        return false;
    }
    let mut i: usize = 0;
    while i < na
        invariant
            0 <= i <= na,
            na == a@.len(),
            na == b@.len(),
            forall|j: int| 0 <= j < i ==> a@[j] == b@[j],
        decreases na - i,
    {
        if a.get_char(i) != b.get_char(i) {
            return false;
        }
        i += 1;
    }
    proof {
        assert(a@ =~= b@);
    }
    true
}

/// Lexicographic order on character codes, from position `i` on.
pub open spec fn lex_le_from(a: Seq<char>, b: Seq<char>, i: int) -> bool
    decreases a.len() - i,
{
    if i < 0 {
        true
    } else if i >= a.len() {
        true
    } else if i >= b.len() {
        false
    } else if a[i] == b[i] {
        lex_le_from(a, b, i + 1)
    } else {
        (a[i] as u32) < (b[i] as u32)
    }
}

/// `a` sorts at or before `b`, by character codes.
pub open spec fn lex_le(a: Seq<char>, b: Seq<char>) -> bool {
    lex_le_from(a, b, 0)
}

/// The order the library sorts names by: lexicographic over the Unicode
/// lowercase foldings.
pub open spec fn name_le(a: Seq<char>, b: Seq<char>) -> bool {
    lex_le(lower_of(a), lower_of(b))
}

/// Lexicographic order is total.
pub proof fn lemma_lex_le_total(a: Seq<char>, b: Seq<char>, i: int)
    ensures
        lex_le_from(a, b, i) || lex_le_from(b, a, i),
    decreases a.len() - i,
{
    if 0 <= i < a.len() && i < b.len() && a[i] == b[i] {
        lemma_lex_le_total(a, b, i + 1);
    } else if 0 <= i < a.len() && i < b.len() {
        vstd::utf8::char_u32_cast(a[i], a[i] as u32);
        vstd::utf8::char_u32_cast(b[i], b[i] as u32);
    }
}

/// Lexicographic order is transitive.
pub proof fn lemma_lex_le_trans(a: Seq<char>, b: Seq<char>, c: Seq<char>, i: int)
    requires
        lex_le_from(a, b, i),
        lex_le_from(b, c, i),
    ensures
        lex_le_from(a, c, i),
    decreases a.len() - i,
{
    if 0 <= i < a.len() && i < b.len() && i < c.len() && a[i] == b[i] && b[i] == c[i] {
        lemma_lex_le_trans(a, b, c, i + 1);
    }
}

/// Compares two strings by character codes.
pub fn str_lex_le(a: &str, b: &str) -> (r: bool)
    ensures
        r == lex_le(a@, b@),
{
    let na = a.unicode_len();
    let nb = b.unicode_len();
    let mut i: usize = 0;
    while i < na && i < nb
        invariant
            0 <= i,
            i <= na,
            i <= nb,
            na == a@.len(),
            nb == b@.len(),
            lex_le(a@, b@) == lex_le_from(a@, b@, i as int),
        decreases na - i,
    {
        let ca = a.get_char(i);
        let cb = b.get_char(i);
        if ca != cb {
            let ua = ca as u32;
            let ub = cb as u32;
            proof {
                vstd::utf8::char_u32_cast(ca, ua);
                vstd::utf8::char_u32_cast(cb, ub);
            }
            return ua < ub;
        }
        i += 1;
    }
    na <= nb
}

/// Compares two strings in the library's name order: lexicographic over the
/// lowercase foldings.
pub fn str_name_le(a: &str, b: &str) -> (r: bool)
    ensures
        r == name_le(a@, b@),
{
    let low_a = to_lower(a);
    let low_b = to_lower(b);
    str_lex_le(low_a.as_str(), low_b.as_str())
}

/// Every element of `sub`'s view occurs in `all`'s view.
pub open spec fn views_subset(sub: Seq<Seq<char>>, all: Seq<Seq<char>>) -> bool {
    forall|i: int| 0 <= i < sub.len() ==> all.contains(sub[i])
}

/// No two elements of `vs` are equal.
pub open spec fn views_distinct(vs: Seq<Seq<char>>) -> bool {
    forall|i: int, j: int| 0 <= i < j < vs.len() ==> vs[i] != vs[j]
}

fn contains_string(v: &Vec<String>, s: &String) -> (r: bool)
    ensures
        r == v.deep_view().contains(s@),
{
    let n = v.len();
    let mut i: usize = 0;
    while i < n
        invariant
            0 <= i <= n,
            n == v@.len(),
            v.deep_view().len() == n,
            forall|j: int| 0 <= j < i ==> v.deep_view()[j] != s@,
        decreases n - i,
    {
        assert(v.deep_view()[i as int] == v@[i as int]@);
        if v[i].eq(s) {
            return true;
        }
        i += 1;
    }
    false
}

/// The deduplicated batch of changed paths: the same set of paths, each one
/// listed once, in first-seen order.
pub fn dedup_paths(paths: &Vec<String>) -> (r: Vec<String>)
    ensures
        views_distinct(r.deep_view()),
        views_subset(r.deep_view(), paths.deep_view()),
        views_subset(paths.deep_view(), r.deep_view()),
{
    let mut out: Vec<String> = Vec::new();
    let n = paths.len();
    let mut i: usize = 0;
    while i < n
        invariant
            0 <= i <= n,
            n == paths@.len(),
            paths.deep_view().len() == n,
            views_distinct(out.deep_view()),
            views_subset(out.deep_view(), paths.deep_view()),
            forall|j: int| 0 <= j < i ==> out.deep_view().contains(paths.deep_view()[j]),
        decreases n - i,
    {
        let p = &paths[i];
        assert(paths.deep_view()[i as int] == p@);
        if !contains_string(&out, p) {
            let ghost old_out = out.deep_view();
            out.push(p.clone());
            proof {
                assert(out.deep_view() =~= old_out.push(p@));
                assert(forall|j: int| 0 <= j < old_out.len() ==>
                    out.deep_view()[j] == old_out[j]);
                assert(out.deep_view().last() == p@);
                assert forall|j: int| 0 <= j < out.deep_view().len()
                    implies paths.deep_view().contains(out.deep_view()[j]) by {
                    if j < old_out.len() {
                        assert(old_out.contains(old_out[j]));
                    } else {
                        assert(out.deep_view()[j] == p@);
                    }
                }
            }
        }
        proof {
            assert forall|j: int| 0 <= j <= i
                implies out.deep_view().contains(paths.deep_view()[j]) by {
            }
        }
        i += 1;
    }
    out
}

} // verus!
