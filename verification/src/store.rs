//! The persistent inverted index: its mathematical model, the trusted
//! wrappers around the index library, and the verified `IndexManager` that
//! owns them.
//!
//! The on-disk index is modelled by two maps from a path to the documents
//! stored under that path: `staged` is the state all operations so far would
//! produce, `committed` is the state visible to readers. A commit copies
//! `staged` to `committed`. Every insertion first deletes by exact path term,
//! so the library maintains the invariant that each path holds at most one
//! document.

use vstd::prelude::*;
use vstd::string::*;
use crate::disk::{is_prefix, probe_path, read_lines, walk_entries};
use tantivy::schema::{Schema, Value, FAST, STORED, STRING, TEXT};
use crate::errors::Error;
use crate::SearchResult;
use crate::text::{any_nul_line, base_name_spec, base_name, concat_lines, concat_seqs, lines_have_nul, match_lines, matched_pairs, pairs_view};

verus! {

/// The model of one stored document: filename, indexed content, and the
/// directory flag. The path is the key it is stored under.
pub type DocModel = (Seq<char>, Seq<char>, bool);

/// The model of an index state: each path maps to the documents stored
/// under it, in insertion order.
pub type StoreModel = Map<Seq<char>, Seq<DocModel>>;

/// The index library's handle bundle: the index, its single writer, and the
/// schema fields the engine uses. Held opaque; everything Verus knows about
/// it is said by the trusted wrappers below over `staged` and `committed`.
#[verifier::external_body]
pub struct IndexBackend {
    index: tantivy::Index,
    writer: tantivy::IndexWriter,
    path_field: tantivy::schema::Field,
    filename_field: tantivy::schema::Field,
    content_field: tantivy::schema::Field,
    is_directory_field: tantivy::schema::Field,
}

#[verifier::external_type_specification]
#[verifier::external_body]
pub struct ExTantivyError(tantivy::TantivyError);

#[verifier::external_type_specification]
#[verifier::external_body]
pub struct ExTantivyDocument(tantivy::TantivyDocument);

/// The state the backend's operations so far would produce if committed now.
pub uninterp spec fn staged(b: IndexBackend) -> StoreModel;

/// The state visible to readers: what the last successful commit produced.
pub uninterp spec fn committed(b: IndexBackend) -> StoreModel;

/// Whether the index library's default query syntax matches a document
/// stored under `path`. Named only: what it holds is the query language of
/// the index library, a function of the query and the document alone.
pub uninterp spec fn index_match(query: Seq<char>, path: Seq<char>, doc: DocModel) -> bool;

/// Every path holds at most (hence exactly) one document.
pub open spec fn singly(m: StoreModel) -> bool {
    forall|p: Seq<char>| #[trigger] m.dom().contains(p) ==> m[p].len() == 1
}

/// Both model maps have finite domains.
pub open spec fn backend_ok(b: IndexBackend) -> bool {
    staged(b).dom().finite() && committed(b).dom().finite()
}

/// What the index promises of one query hit `(path, is_dir)`: the path is
/// committed and one of its documents carries that directory flag and
/// matches the query.
pub open spec fn hit_ok(m: StoreModel, q: Seq<char>, path: Seq<char>, is_dir: bool) -> bool {
    m.dom().contains(path) && exists|j: int|
        0 <= j < m[path].len() && (#[trigger] m[path][j]).2 == is_dir && index_match(
            q,
            path,
            m[path][j],
        )
}

/// What `search` promises of one returned result: its path is committed,
/// and when every path is single, the document under it matches the query.
pub open spec fn result_ok(m: StoreModel, q: Seq<char>, res: SearchResult) -> bool {
    m.dom().contains(res.path@) && (singly(m) ==> index_match(q, res.path@, m[res.path@][0]))
}

/// The committed paths whose (single) document the query matches.
pub open spec fn matching_paths(m: StoreModel, q: Seq<char>) -> Set<Seq<char>> {
    m.dom().filter(|p: Seq<char>| index_match(q, p, m[p][0]))
}

/// Some hit carries this path.
pub open spec fn hits_have_path(v: Seq<(String, bool)>, p: Seq<char>) -> bool {
    exists|i: int| 0 <= i < v.len() && (#[trigger] v[i]).0@ == p
}

/// Some result carries this path.
pub open spec fn results_have_path(v: Seq<SearchResult>, p: Seq<char>) -> bool {
    exists|i: int| 0 <= i < v.len() && (#[trigger] v[i]).path@ == p
}

/// The single result of a hit with no content lines: line number zero,
/// empty line text.
pub open spec fn zero_block(path: Seq<char>, seg: Seq<SearchResult>) -> bool {
    seg.len() == 1 && seg[0].path@ == path && seg[0].line_number == 0
        && seg[0].line_content@.len() == 0
}

/// One result per matching line, in order, each carrying the hit's path and
/// the line's number and text.
pub open spec fn pairs_block(
    path: Seq<char>,
    pairs: Seq<(int, Seq<char>)>,
    seg: Seq<SearchResult>,
) -> bool {
    seg.len() == pairs.len() && (forall|j: int|
        0 <= j < seg.len() ==> (#[trigger] seg[j]).path@ == path && seg[j].line_number as int
            == pairs[j].0 && seg[j].line_content@ == pairs[j].1)
}

/// One hit's block of results, given what the per-hit re-read returned: a
/// directory, an unreadable file, or a file with no matching line gives the
/// single line-zero result; otherwise one result per matching line.
pub open spec fn hit_block(
    q: Seq<char>,
    path: Seq<char>,
    is_dir: bool,
    read: Option<Seq<Seq<char>>>,
    seg: Seq<SearchResult>,
) -> bool {
    if is_dir {
        zero_block(path, seg)
    } else {
        match read {
            Option::None => zero_block(path, seg),
            Option::Some(lines) => {
                if matched_pairs(lines, q).len() == 0 {
                    zero_block(path, seg)
                } else {
                    pairs_block(path, matched_pairs(lines, q), seg)
                }
            },
        }
    }
}

/// The whole search output: one block per hit, in hit order, each hit a
/// committed document the query matched, each block built from some per-hit
/// read outcome.
pub open spec fn search_assembled(m: StoreModel, q: Seq<char>, out: Seq<SearchResult>) -> bool {
    exists|hits: Seq<(Seq<char>, bool)>, reads: Seq<Option<Seq<Seq<char>>>>, bounds: Seq<int>|
        hits.len() == reads.len() && bounds.len() == hits.len() + 1 && bounds[0] == 0
            && bounds.last() == out.len() && (forall|k: int|
            0 <= k < bounds.len() ==> 0 <= #[trigger] bounds[k]) && (forall|k: int|
            0 <= k < hits.len() ==> (#[trigger] bounds[k]) <= bounds[k + 1] <= out.len()) && (
        forall|k: int| 0 <= k < hits.len() ==> hit_ok(m, q, (#[trigger] hits[k]).0, hits[k].1)) && (
        forall|k: int|
            0 <= k < hits.len() ==> hit_block(
                q,
                (#[trigger] hits[k]).0,
                hits[k].1,
                reads[k],
                out.subrange(bounds[k], bounds[k + 1]),
            ))
}

/// The model of a fresh index: no documents at all.
pub open spec fn empty_store() -> StoreModel {
    Map::empty()
}

/// `d` appended to whatever `m` holds under `p`.
pub open spec fn push_doc(m: StoreModel, p: Seq<char>, d: DocModel) -> StoreModel {
    if m.dom().contains(p) {
        m.insert(p, m[p].push(d))
    } else {
        m.insert(p, seq![d])
    }
}

impl IndexBackend {
    /// Relies on `tantivy::Index::create_in_dir` and `Index::writer`: builds
    /// the schema (exact path term, tokenized filename and content, numeric
    /// last-modified and directory flag) and creates a fresh, empty index in
    /// `dir`. A fresh index holds no documents.
    #[verifier::external_body]
    pub(crate) fn create(dir: &str) -> (r: Result<IndexBackend, tantivy::TantivyError>)
        ensures
            r matches Ok(b) ==> staged(b) == empty_store(),
            r matches Ok(b) ==> committed(b) == empty_store(),
            r matches Ok(b) ==> backend_ok(b),
    {
        let mut builder = Schema::builder();
        let path_field = builder.add_text_field("path", STRING | STORED);
        let filename_field = builder.add_text_field("filename", TEXT | STORED);
        let content_field = builder.add_text_field("content", TEXT);
        builder.add_u64_field("last_modified", FAST);
        let is_directory_field = builder.add_u64_field("is_directory", FAST | STORED);
        let index = tantivy::Index::create_in_dir(dir, builder.build())?;
        let writer = index.writer(50_000_000)?;
        Ok(IndexBackend { index, writer, path_field, filename_field, content_field, is_directory_field })
    }

    /// Relies on `tantivy::Index::open_in_dir`, `Schema::get_field` and
    /// `Index::writer`: opens the index already present in `dir`. Returns
    /// `Ok(None)` when a required schema field is missing (the on-disk format
    /// predates it). A freshly opened writer has no pending operations, so
    /// the staged state equals the committed one.
    #[verifier::external_body]
    pub(crate) fn open(dir: &str) -> (r: Result<Option<IndexBackend>, tantivy::TantivyError>)
        ensures
            r matches Ok(Some(b)) ==> staged(b) == committed(b),
            r matches Ok(Some(b)) ==> backend_ok(b),
    {
        let index = tantivy::Index::open_in_dir(dir)?;
        let schema = index.schema();
        let f = (schema.get_field("path"), schema.get_field("filename"),
            schema.get_field("content"), schema.get_field("is_directory"));
        if let (Ok(path_field), Ok(filename_field), Ok(content_field), Ok(is_directory_field)) = f {
            let writer = index.writer(50_000_000)?;
            Ok(Some(IndexBackend {
                index, writer, path_field, filename_field, content_field, is_directory_field,
            }))
        } else {
            Ok(None)
        }
    }

    /// Relies on `tantivy::directory::MmapDirectory::open` and
    /// `tantivy::Index::exists`: whether `dir` already holds an index (its
    /// metadata descriptor is present).
    #[verifier::external_body]
    pub(crate) fn already_present(dir: &str) -> (r: Result<bool, tantivy::TantivyError>) {
        let d = tantivy::directory::MmapDirectory::open(dir)?;
        Ok(tantivy::Index::exists(&d)?)
    }

    /// Relies on `tantivy::IndexWriter::delete_term`: removes every document
    /// stored under the exact path term, both committed ones and ones staged
    /// earlier; nothing becomes visible to readers until a commit.
    #[verifier::external_body]
    pub(crate) fn delete_path(&mut self, path: &str)
        ensures
            staged(*final(self)) == staged(*old(self)).remove(path@),
            committed(*final(self)) == committed(*old(self)),
            backend_ok(*old(self)) ==> backend_ok(*final(self)),
    {
        self.writer.delete_term(tantivy::Term::from_field_text(self.path_field, path));
    }

    /// Relies on `tantivy::IndexWriter::add_document`: stages one more
    /// document under `path`; nothing becomes visible until a commit. On
    /// failure nothing was added.
    #[verifier::external_body]
    pub(crate) fn add_doc(
        &mut self,
        path: &str,
        filename: &str,
        content: &str,
        is_directory: bool,
    ) -> (r: Result<(), tantivy::TantivyError>)
        ensures
            committed(*final(self)) == committed(*old(self)),
            r is Ok ==> staged(*final(self)) == push_doc(
                staged(*old(self)),
                path@,
                (filename@, content@, is_directory),
            ),
            r is Err ==> staged(*final(self)) == staged(*old(self)),
            backend_ok(*old(self)) ==> backend_ok(*final(self)),
    {
        let mut doc = tantivy::TantivyDocument::default();
        doc.add_text(self.path_field, path);
        doc.add_text(self.filename_field, filename);
        doc.add_text(self.content_field, content);
        doc.add_u64(self.is_directory_field, if is_directory { 1 } else { 0 });
        self.writer.add_document(doc)?;
        Ok(())
    }

    /// Relies on `tantivy::IndexWriter::commit`: makes everything staged so
    /// far durable and visible to new readers, atomically. On failure nothing
    /// new became visible.
    #[verifier::external_body]
    pub(crate) fn commit(&mut self) -> (r: Result<(), tantivy::TantivyError>)
        ensures
            staged(*final(self)) == staged(*old(self)),
            r is Ok ==> committed(*final(self)) == staged(*old(self)),
            r is Err ==> committed(*final(self)) == committed(*old(self)),
            backend_ok(*old(self)) ==> backend_ok(*final(self)),
    {
        self.writer.commit()?;
        Ok(())
    }

    /// Relies on `tantivy::Index::reader` and `Searcher::num_docs`: the
    /// number of live documents in the committed state. When every path
    /// holds exactly one document, that is the number of paths; zero live
    /// documents means the committed store is empty.
    #[verifier::external_body]
    pub(crate) fn num_docs(&self) -> (r: Result<u64, tantivy::TantivyError>)
        ensures
            r matches Ok(n) ==> singly(committed(*self)) ==> n as nat == committed(*self).dom().len(),
            r matches Ok(n) ==> n == 0 ==> committed(*self) == empty_store(),
    {
        let reader = self.index.reader()?;
        Ok(reader.searcher().num_docs())
    }

    /// Relies on `tantivy::query::QueryParser`, `Searcher::search` with a
    /// `TopDocs` collector, and document retrieval: parses `query` against
    /// the filename and content fields and returns at most `limit` hits, each
    /// as the stored path and directory flag of a committed document that the
    /// query matches. The collector keeps the best `limit` of all matching
    /// documents, so when every path is single and at most `limit` paths
    /// match, every matching path is among the hits. A parse failure comes
    /// back as `Err((true, message))`, any other failure as
    /// `Err((false, message))`. The collector demands a limit of at least one.
    #[verifier::external_body]
    pub(crate) fn query_hits(&self, query: &str, limit: usize) -> (r: Result<
        Vec<(String, bool)>,
        (bool, String),
    >)
        requires
            limit >= 1,
        ensures
            r matches Ok(v) ==> v@.len() <= limit,
            r matches Ok(v) ==> ((singly(committed(*self)) && matching_paths(committed(*self), query@).finite() && matching_paths(committed(*self), query@).len() <= limit) ==> (forall|p: Seq<char>| #[trigger] matching_paths(committed(*self), query@).contains(p) ==> hits_have_path(v@, p))),
            r matches Ok(v) ==> forall|i: int|
                0 <= i < v@.len() ==> hit_ok(
                    committed(*self),
                    query@,
                    (#[trigger] v@[i]).0@,
                    v@[i].1,
                ),
            r matches Ok(v) ==> singly(committed(*self)) ==> forall|i: int|
                0 <= i < v@.len() ==> index_match(
                    query@,
                    (#[trigger] v@[i]).0@,
                    committed(*self)[v@[i].0@][0],
                ),
    {
        let fields = vec![self.filename_field, self.content_field];
        let parser = tantivy::query::QueryParser::for_index(&self.index, fields);
        let parsed = parser.parse_query(query).map_err(|e| (true, e.to_string()))?;
        let err = |e: tantivy::TantivyError| (false, e.to_string());
        let searcher = self.index.reader().map_err(err)?.searcher();
        let top = searcher.search(&parsed, &tantivy::collector::TopDocs::with_limit(limit));
        let mut out = Vec::new();
        for (_score, addr) in top.map_err(err)? {
            let doc: tantivy::TantivyDocument = searcher.doc(addr).map_err(err)?;
            out.push(self.hit_fields(&doc));
        }
        Ok(out)
    }

    /// Relies on document field retrieval (`TantivyDocument::get_first`): the
    /// stored path text and directory flag of one retrieved document.
    #[verifier::external_body]
    fn hit_fields(&self, doc: &tantivy::TantivyDocument) -> (String, bool) {
        let path = doc.get_first(self.path_field).and_then(|v| v.as_str()).unwrap_or("");
        let dir = doc.get_first(self.is_directory_field).and_then(|v| v.as_u64()) == Some(1);
        (path.to_string(), dir)
    }
}

/// Relies on the index library's error rendering: the failure as text.
#[verifier::external_body]
pub(crate) fn tantivy_message(e: &tantivy::TantivyError) -> String {
    e.to_string()
}

/// Files larger than this are not indexed.
pub const MAX_FILE_SIZE: u64 = 10 * 1024 * 1024;

/// `m` with exactly the single document `d` under `p`: the effect of an
/// upsert, which first deletes by exact path term and then adds.
pub open spec fn upserted(m: StoreModel, p: Seq<char>, d: DocModel) -> StoreModel {
    m.insert(p, seq![d])
}

/// `m1` is `m0` with at most the path `p` touched: unchanged, or `p`
/// removed, or `p` upserted to one single document.
pub open spec fn touched_only(m0: StoreModel, m1: StoreModel, p: Seq<char>) -> bool {
    ||| m1 == m0
    ||| m1 == m0.remove(p)
    ||| exists|d: DocModel| m1 == upserted(m0, p, d)
}

/// Upserting keeps every path single: the inserted path holds exactly one
/// document and no other path changes.
pub proof fn lemma_upserted_singly(m: StoreModel, p: Seq<char>, d: DocModel)
    requires
        singly(m),
    ensures
        singly(upserted(m, p, d)),
{
    let m1 = upserted(m, p, d);
    assert forall|q: Seq<char>| #[trigger] m1.dom().contains(q) implies m1[q].len() == 1 by {
        if q != p {
            assert(m.dom().contains(q));
        }
    }
}

/// Removing a path keeps every remaining path single.
pub proof fn lemma_removed_singly(m: StoreModel, p: Seq<char>)
    requires
        singly(m),
    ensures
        singly(m.remove(p)),
{
    let m1 = m.remove(p);
    assert forall|q: Seq<char>| #[trigger] m1.dom().contains(q) implies m1[q].len() == 1 by {
        assert(m.dom().contains(q));
    }
}

/// A step that touches at most one path keeps every path single.
pub proof fn lemma_touched_only_singly(m0: StoreModel, m1: StoreModel, p: Seq<char>)
    requires
        singly(m0),
        touched_only(m0, m1, p),
    ensures
        singly(m1),
{
    if m1 == m0.remove(p) {
        lemma_removed_singly(m0, p);
    } else if m1 != m0 {
        let d = choose|d: DocModel| m1 == upserted(m0, p, d);
        lemma_upserted_singly(m0, p, d);
    }
}

/// The document stored for a directory: name-searchable by seeding the
/// content with the directory's own name.
pub open spec fn dir_doc(path: Seq<char>) -> DocModel {
    (base_name_spec(path), base_name_spec(path), true)
}

/// The document stored for a text file: the searchable content is the path
/// followed by the file's text, so the path itself is full-text searchable.
pub open spec fn file_doc(path: Seq<char>, lines: Seq<Seq<char>>) -> DocModel {
    (base_name_spec(path), path + seq!['\n'] + concat_seqs(lines), false)
}

/// The file-indexing policy, applied to one read outcome: a file over the
/// size ceiling, an unreadable or non-text file (`read` is `None`), or one
/// whose text holds a null byte leaves the store unchanged; otherwise the
/// file's document replaces whatever the path held (or, when the add itself
/// failed after the delete, the path is left removed).
pub open spec fn file_indexed_as(
    m0: StoreModel,
    m1: StoreModel,
    p: Seq<char>,
    size: u64,
    read: Option<Seq<Seq<char>>>,
) -> bool {
    if size > MAX_FILE_SIZE {
        m1 == m0
    } else {
        match read {
            Option::None => m1 == m0,
            Option::Some(lines) => {
                if any_nul_line(lines) {
                    m1 == m0
                } else {
                    m1 == upserted(m0, p, file_doc(p, lines)) || m1 == m0.remove(p)
                }
            },
        }
    }
}

/// Some read outcome explains the step as the file-indexing policy.
pub open spec fn file_refreshed(m0: StoreModel, m1: StoreModel, p: Seq<char>, size: u64) -> bool {
    exists|read: Option<Seq<Seq<char>>>| file_indexed_as(m0, m1, p, size, read)
}

/// One change-batch step on `p`, explained by a probe outcome: a missing
/// path is deleted; a directory gets its directory document; a file follows
/// the file-indexing policy (an upsert whose add failed leaves the path
/// removed).
pub open spec fn refreshed_as(
    m0: StoreModel,
    m1: StoreModel,
    p: Seq<char>,
    probe: Option<(bool, u64)>,
) -> bool {
    match probe {
        Option::None => m1 == m0.remove(p),
        Option::Some(pr) => {
            if pr.0 {
                m1 == upserted(m0, p, dir_doc(p)) || m1 == m0.remove(p)
            } else {
                file_refreshed(m0, m1, p, pr.1)
            }
        },
    }
}

/// Some probe outcome explains the step.
pub open spec fn path_refreshed(m0: StoreModel, m1: StoreModel, p: Seq<char>) -> bool {
    exists|probe: Option<(bool, u64)>| refreshed_as(m0, m1, p, probe)
}

/// One step of a change batch: a path under the root is refreshed by its
/// current disk state; a path outside the root is ignored.
pub open spec fn step_refreshed(
    m0: StoreModel,
    m1: StoreModel,
    root: Seq<char>,
    p: Seq<char>,
) -> bool {
    if is_prefix(root, p) {
        path_refreshed(m0, m1, p)
    } else {
        m1 == m0
    }
}

/// The whole effect of one change batch: a chain of stores, one step per
/// batch path in order, each step refreshing that path by its disk state
/// (paths outside the root left alone).
pub open spec fn batch_processed(
    m0: StoreModel,
    m1: StoreModel,
    root: Seq<char>,
    batch: Seq<Seq<char>>,
) -> bool {
    exists|states: Seq<StoreModel>|
        states.len() == batch.len() + 1 && states[0] == m0 && states.last() == m1 && (forall|k: int|
            0 <= k < batch.len() ==> #[trigger] step_refreshed(states[k], states[k + 1], root, batch[k]))
}

/// The persistent index store: one on-disk inverted index with a single
/// writer, addressed by exact path, plus the root of the subtree it indexes.
pub struct IndexManager {
    backend: IndexBackend,
    content_root: String,
}

impl IndexManager {
    /// The staged model state: what a commit would make visible.
    pub closed spec fn staged_docs(&self) -> StoreModel {
        staged(self.backend)
    }

    /// The committed model state: what readers see now.
    pub closed spec fn committed_docs(&self) -> StoreModel {
        committed(self.backend)
    }

    /// The root of the indexed subtree.
    pub closed spec fn root(&self) -> Seq<char> {
        self.content_root@
    }

    /// Type validity: the model maps are finite.
    pub closed spec fn wf(&self) -> bool {
        backend_ok(self.backend)
    }

    /// Opens the index in `index_path`, or creates a fresh one when none is
    /// there yet. Fails with `Error::SchemaMismatch` when an index is present
    /// whose schema predates a required field; the caller must then destroy
    /// the index directory and construct the store anew. Right after
    /// construction nothing is staged but uncommitted.
    pub fn new_with_path(index_path: String, content_root: String) -> (r: Result<
        IndexManager,
        Error,
    >)
        ensures
            r matches Ok(m) ==> m.wf(),
            r matches Ok(m) ==> m.staged_docs() == m.committed_docs(),
            r matches Ok(m) ==> m.root() == content_root@,
    {
        let present = match IndexBackend::already_present(index_path.as_str()) {
            Ok(b) => b,
            Err(e) => return Err(Error::Search(tantivy_message(&e))),
        };
        let backend = if present {
            match IndexBackend::open(index_path.as_str()) {
                Ok(Some(b)) => b,
                Ok(None) => return Err(Error::SchemaMismatch),
                Err(e) => return Err(Error::Search(tantivy_message(&e))),
            }
        } else {
            match IndexBackend::create(index_path.as_str()) {
                Ok(b) => b,
                Err(e) => return Err(Error::Search(tantivy_message(&e))),
            }
        };
        Ok(IndexManager { backend, content_root })
    }

    /// The number of documents visible to readers. When every path is
    /// single, this is the number of indexed paths; zero means the committed
    /// store is empty.
    pub fn num_docs(&self) -> (r: Result<u64, Error>)
        requires
            self.wf(),
        ensures
            r matches Ok(n) ==> singly(self.committed_docs()) ==> n as nat
                == self.committed_docs().dom().len(),
            r matches Ok(n) ==> n == 0 ==> self.committed_docs() == empty_store(),
    {
        match self.backend.num_docs() {
            Ok(n) => Ok(n),
            Err(e) => Err(Error::Search(tantivy_message(&e))),
        }
    }

    /// Stages one document under `path`, replacing whatever was there: a
    /// delete by exact path term followed by one add.
    fn upsert_doc(&mut self, path: &str, filename: &str, content: &str, is_directory: bool) -> (r:
        Result<(), Error>)
        requires
            old(self).wf(),
        ensures
            final(self).wf(),
            final(self).root() == old(self).root(),
            final(self).committed_docs() == old(self).committed_docs(),
            r is Ok ==> final(self).staged_docs() == upserted(
                old(self).staged_docs(),
                path@,
                (filename@, content@, is_directory),
            ),
            r is Err ==> final(self).staged_docs() == old(self).staged_docs().remove(path@),
    {
        let ghost m0 = staged(self.backend);
        self.backend.delete_path(path);
        match self.backend.add_doc(path, filename, content, is_directory) {
            Ok(()) => {
                proof {
                    let d = (filename@, content@, is_directory);
                    assert(!m0.remove(path@).dom().contains(path@));
                    assert(m0.remove(path@).insert(path@, seq![d]) =~= upserted(m0, path@, d));
                }
                Ok(())
            },
            Err(e) => Err(Error::Search(tantivy_message(&e))),
        }
    }

    /// Stages the directory entry for `path`.
    fn upsert_dir(&mut self, path: &str) -> (r: Result<(), Error>)
        requires
            old(self).wf(),
        ensures
            final(self).wf(),
            final(self).root() == old(self).root(),
            final(self).committed_docs() == old(self).committed_docs(),
            r is Ok ==> final(self).staged_docs() == upserted(
                old(self).staged_docs(),
                path@,
                dir_doc(path@),
            ),
            r is Err ==> final(self).staged_docs() == old(self).staged_docs().remove(path@),
            touched_only(old(self).staged_docs(), final(self).staged_docs(), path@),
    {
        let filename = base_name(path);
        self.upsert_doc(path, filename, filename, true)
    }

    /// Applies the file-indexing policy to what was read from disk for
    /// `path`: a file over the size ceiling, an unreadable or non-text file
    /// (`read` is `None`), or one whose text holds a null byte (the binary
    /// heuristic) is skipped and the store is left unchanged; otherwise the
    /// file's document replaces whatever the path held.
    pub fn apply_file_read(&mut self, path: &str, size: u64, read: Option<Vec<String>>) -> (r:
        Result<(), Error>)
        requires
            old(self).wf(),
        ensures
            final(self).wf(),
            final(self).root() == old(self).root(),
            final(self).committed_docs() == old(self).committed_docs(),
            size > MAX_FILE_SIZE ==> r is Ok && final(self).staged_docs() == old(self).staged_docs(),
            size <= MAX_FILE_SIZE && read is None ==> r is Ok && final(self).staged_docs() == old(self).staged_docs(),
            size <= MAX_FILE_SIZE ==> (read matches Some(lines) ==> (if any_nul_line(
                lines.deep_view(),
            ) {
                r is Ok && final(self).staged_docs() == old(self).staged_docs()
            } else {
                (r is Ok ==> final(self).staged_docs() == upserted(
                    old(self).staged_docs(),
                    path@,
                    file_doc(path@, lines.deep_view()),
                )) && (r is Err ==> final(self).staged_docs() == old(self).staged_docs().remove(
                    path@,
                ))
            })),
            touched_only(old(self).staged_docs(), final(self).staged_docs(), path@),
    {
        if size > MAX_FILE_SIZE {
            return Ok(());
        }
        match read {
            None => Ok(()),
            Some(lines) => {
                if lines_have_nul(&lines) {
                    return Ok(());
                }
                let content = concat_lines(&lines);
                let searchable = String::from_str(path).concat("\n").concat(content.as_str());
                proof {
                    reveal_strlit("\n");
                    assert(searchable@ =~= path@ + seq!['\n'] + concat_seqs(lines.deep_view()));
                }
                let filename = base_name(path);
                self.upsert_doc(path, filename, searchable.as_str(), false)
            },
        }
    }

    /// Reads `path` from disk and stages its document, skipping files that
    /// are too large, unreadable, not text, or binary.
    fn index_file(&mut self, path: &str, size: u64) -> (r: Result<(), Error>)
        requires
            old(self).wf(),
        ensures
            final(self).wf(),
            final(self).root() == old(self).root(),
            final(self).committed_docs() == old(self).committed_docs(),
            touched_only(old(self).staged_docs(), final(self).staged_docs(), path@),
            file_refreshed(old(self).staged_docs(), final(self).staged_docs(), path@, size),
    {
        let ghost m0 = self.staged_docs();
        if size > MAX_FILE_SIZE {
            assert(file_indexed_as(m0, self.staged_docs(), path@, size, Option::None));
            return Ok(());
        }
        match read_lines(path) {
            None => {
                let r = self.apply_file_read(path, size, None);
                assert(file_indexed_as(m0, self.staged_docs(), path@, size, Option::None));
                r
            },
            Some(lines) => {
                let ghost lv = lines.deep_view();
                let r = self.apply_file_read(path, size, Some(lines));
                assert(file_indexed_as(m0, self.staged_docs(), path@, size, Option::Some(lv)));
                r
            },
        }
    }

    /// Probes `path` on disk and stages the corresponding change: an upsert
    /// of its directory or file document when it exists, a deletion when it
    /// does not.
    fn refresh_path(&mut self, path: &str) -> (r: Result<(), Error>)
        requires
            old(self).wf(),
        ensures
            final(self).wf(),
            final(self).root() == old(self).root(),
            final(self).committed_docs() == old(self).committed_docs(),
            touched_only(old(self).staged_docs(), final(self).staged_docs(), path@),
            path_refreshed(old(self).staged_docs(), final(self).staged_docs(), path@),
    {
        let ghost m0 = self.staged_docs();
        match probe_path(path) {
            None => {
                self.backend.delete_path(path);
                assert(refreshed_as(m0, self.staged_docs(), path@, Option::None));
                Ok(())
            },
            Some((is_dir, size)) => {
                if is_dir {
                    let r = self.upsert_dir(path);
                    assert(refreshed_as(m0, self.staged_docs(), path@, Option::Some((true, size))));
                    r
                } else {
                    let r = self.index_file(path, size);
                    assert(refreshed_as(m0, self.staged_docs(), path@, Option::Some((false, size))));
                    r
                }
            },
        }
    }

    /// Rebuilds the index from a full walk of the content root: every
    /// directory and regular file found is upserted, then one commit makes
    /// the result visible. Paths that were never walked keep their old
    /// documents; every path the rebuild adds lies under the root.
    pub fn index_home(&mut self) -> (r: Result<(), Error>)
        requires
            old(self).wf(),
        ensures
            final(self).wf(),
            final(self).root() == old(self).root(),
            singly(old(self).staged_docs()) ==> singly(final(self).staged_docs()),
            r is Ok ==> final(self).committed_docs() == final(self).staged_docs(),
            r is Err ==> final(self).committed_docs() == old(self).committed_docs(),
            reindex_of(old(self).staged_docs(), final(self).staged_docs(), old(self).root()),
            forall|p: Seq<char>| #[trigger] final(self).staged_docs().dom().contains(p) ==> old(self).staged_docs().dom().contains(p) || is_prefix(old(self).root(), p),
    {
        let ghost m0 = self.staged_docs();
        let ghost c0 = self.committed_docs();
        let ghost root0 = self.root();
        let ghost mut items: Seq<(Seq<char>, DocAction)> = Seq::empty();
        let entries = walk_entries(self.content_root.as_str(), false, None);
        let n = entries.len();
        let mut i: usize = 0;
        while i < n
            invariant
                0 <= i <= n,
                n == entries@.len(),
                self.wf(),
                self.root() == root0,
                self.committed_docs() == c0,
                singly(m0) ==> singly(self.staged_docs()),
                self.staged_docs() == apply_all(m0, items),
                forall|k: int| 0 <= k < items.len() ==> is_prefix(root0, (#[trigger] items[k]).0)
                    && policy_action(items[k].0, items[k].1),
                forall|k: int| 0 <= k < n ==> is_prefix(root0, #[trigger] entries@[k].path@),
                forall|p: Seq<char>| #[trigger] self.staged_docs().dom().contains(p)
                    ==> m0.dom().contains(p) || is_prefix(root0, p),
            decreases n - i,
        {
            let ghost m_before = self.staged_docs();
            let e = &entries[i];
            if e.is_dir {
                let _ = self.upsert_dir(e.path.as_str());
            } else if e.is_file {
                let _ = self.index_file(e.path.as_str(), e.size);
            }
            proof {
                let m1 = self.staged_docs();
                if m1 != m_before {
                    let p = entries@[i as int].path@;
                    lemma_touched_only_dom(m_before, m1, p);
                    if singly(m0) {
                        lemma_touched_only_singly(m_before, m1, p);
                    }
                    let old_items = items;
                    let a: DocAction = if m1 == m_before.remove(p) {
                        Option::None
                    } else if entries@[i as int].is_dir {
                        Option::Some(dir_doc(p))
                    } else {
                        assert(exists|lines: Seq<Seq<char>>| m1 == upserted(
                            m_before,
                            p,
                            file_doc(p, lines),
                        )) by {
                            let read = choose|read: Option<Seq<Seq<char>>>| file_indexed_as(
                                m_before,
                                m1,
                                p,
                                entries@[i as int].size,
                                read,
                            );
                            match read {
                                Option::None => {},
                                Option::Some(lines) => {
                                    if !any_nul_line(lines) {
                                        assert(m1 == upserted(m_before, p, file_doc(p, lines))
                                            || m1 == m_before.remove(p));
                                    }
                                },
                            }
                        }
                        let lines = choose|lines: Seq<Seq<char>>| m1 == upserted(
                            m_before,
                            p,
                            file_doc(p, lines),
                        );
                        Option::Some(file_doc(p, lines))
                    };
                    items = items.push((p, a));
                    assert(items.drop_last() =~= old_items);
                    assert(items.last() == (p, a));
                    assert(policy_action(p, a));
                    assert(apply_all(m0, items) == m1);
                }
            }
            i += 1;
        }
        let ghost md = self.staged_docs();
        let out = match self.backend.commit() {
            Ok(()) => Ok(()),
            Err(e) => Err(Error::Search(tantivy_message(&e))),
        };
        proof {
            assert forall|p: Seq<char>| #[trigger] self.staged_docs().dom().contains(p)
                implies m0.dom().contains(p) || is_prefix(root0, p) by {
                assert(md.dom().contains(p));
            }
            assert(reindex_of(m0, self.staged_docs(), root0)) by {
                assert(self.staged_docs() == apply_all(m0, items) && (forall|k: int|
                    0 <= k < items.len() ==> is_prefix(root0, (#[trigger] items[k]).0)
                        && policy_action(items[k].0, items[k].1)));
            }
        }
        out
    }

    /// Re-indexes or deletes each path of the batch according to its current
    /// state on disk, then commits once for the whole batch. Paths outside
    /// the batch are untouched.
    pub fn process_changes(&mut self, paths: &Vec<String>) -> (r: Result<(), Error>)
        requires
            old(self).wf(),
        ensures
            final(self).wf(),
            final(self).root() == old(self).root(),
            singly(old(self).staged_docs()) ==> singly(final(self).staged_docs()),
            r is Ok ==> final(self).committed_docs() == final(self).staged_docs(),
            r is Err ==> final(self).committed_docs() == old(self).committed_docs(),
            forall|q: Seq<char>| !paths.deep_view().contains(q) ==> ((
            #[trigger] final(self).staged_docs().dom().contains(q)) <==> old(self).staged_docs().dom().contains(q)),
            forall|q: Seq<char>| !paths.deep_view().contains(q) && old(self).staged_docs().dom().contains(q) ==> #[trigger] final(self).staged_docs()[q] == old(self).staged_docs()[q],
            batch_processed(old(self).staged_docs(), final(self).staged_docs(), old(self).root(), paths.deep_view()),
            forall|p: Seq<char>| #[trigger] final(self).staged_docs().dom().contains(p) ==> old(self).staged_docs().dom().contains(p) || is_prefix(old(self).root(), p),
    {
        let ghost m0 = self.staged_docs();
        let ghost c0 = self.committed_docs();
        let ghost root0 = self.root();
        let ghost dv = paths.deep_view();
        let ghost mut states: Seq<StoreModel> = seq![m0];
        let n = paths.len();
        let mut i: usize = 0;
        while i < n
            invariant
                0 <= i <= n,
                n == paths@.len(),
                dv == paths.deep_view(),
                dv.len() == n,
                self.wf(),
                self.root() == root0,
                self.committed_docs() == c0,
                singly(m0) ==> singly(self.staged_docs()),
                states.len() == i + 1,
                states[0] == m0,
                states.last() == self.staged_docs(),
                forall|k: int| 0 <= k < i ==> #[trigger] step_refreshed(states[k], states[k + 1], root0, dv[k]),
                forall|q: Seq<char>| !dv.take(i as int).contains(q) ==> ((
                #[trigger] self.staged_docs().dom().contains(q)) <==> m0.dom().contains(q)),
                forall|q: Seq<char>| !dv.take(i as int).contains(q) && m0.dom().contains(q)
                    ==> #[trigger] self.staged_docs()[q] == m0[q],
                forall|p: Seq<char>| #[trigger] self.staged_docs().dom().contains(p)
                    ==> m0.dom().contains(p) || is_prefix(root0, p),
            decreases n - i,
        {
            let ghost m_before = self.staged_docs();
            assert(paths.deep_view()[i as int] == paths@[i as int]@);
            let under_root = crate::text::str_starts_with(paths[i].as_str(), self.content_root.as_str());
            if under_root {
                let _ = self.refresh_path(paths[i].as_str());
            }
            proof {
                let p = dv[i as int];
                lemma_touched_only_dom(m_before, self.staged_docs(), p);
                if singly(m0) {
                    lemma_touched_only_singly(m_before, self.staged_docs(), p);
                }
                let ghost old_states = states;
                states = states.push(self.staged_docs());
                assert(step_refreshed(m_before, self.staged_docs(), root0, p));
                assert forall|k: int| 0 <= k < i + 1 implies #[trigger] step_refreshed(
                    states[k],
                    states[k + 1],
                    root0,
                    dv[k],
                ) by {
                    if k < i {
                        assert(states[k] == old_states[k]);
                        assert(states[k + 1] == old_states[k + 1]);
                        assert(step_refreshed(old_states[k], old_states[k + 1], root0, dv[k]));
                    } else {
                        assert(states[k] == m_before);
                        assert(states[k + 1] == self.staged_docs());
                    }
                }
                assert(dv.take(i + 1)[i as int] == p);
                assert(dv.take(i + 1).contains(p));
                assert forall|q: Seq<char>| !dv.take(i + 1).contains(q) implies ((
                #[trigger] self.staged_docs().dom().contains(q)) <==> m0.dom().contains(q)) && (
                m0.dom().contains(q) ==> self.staged_docs()[q] == m0[q]) by {
                    assert(q != p);
                    assert forall|j: int| 0 <= j < i implies dv.take(i as int)[j] != q by {
                        assert(dv.take(i + 1)[j] == dv.take(i as int)[j]);
                        if dv.take(i as int)[j] == q {
                            assert(dv.take(i + 1).contains(q));
                        }
                    }
                    assert(!dv.take(i as int).contains(q));
                }
            }
            i += 1;
        }
        let ghost md = self.staged_docs();
        proof {
            assert(dv.take(n as int) =~= dv);
            assert forall|q: Seq<char>| !dv.contains(q) implies ((#[trigger] md.dom().contains(q))
                <==> m0.dom().contains(q)) && (m0.dom().contains(q) ==> md[q] == m0[q]) by {
                assert(!dv.take(n as int).contains(q));
                assert(self.staged_docs().dom().contains(q) <==> m0.dom().contains(q));
                if m0.dom().contains(q) {
                    assert(self.staged_docs()[q] == m0[q]);
                }
            }
        }
        let out = match self.backend.commit() {
            Ok(()) => Ok(()),
            Err(e) => Err(Error::Search(tantivy_message(&e))),
        };
        proof {
            assert forall|q: Seq<char>| !paths.deep_view().contains(q) implies ((
            #[trigger] self.staged_docs().dom().contains(q)) <==> m0.dom().contains(q)) by {
                assert(md.dom().contains(q) <==> m0.dom().contains(q));
            }
            assert forall|q: Seq<char>| !paths.deep_view().contains(q) && m0.dom().contains(q)
                implies #[trigger] self.staged_docs()[q] == m0[q] by {
                assert(md[q] == m0[q]);
            }
            assert forall|p: Seq<char>| #[trigger] self.staged_docs().dom().contains(p)
                implies m0.dom().contains(p) || is_prefix(root0, p) by {
                assert(md.dom().contains(p));
            }
            assert(batch_processed(m0, self.staged_docs(), root0, dv)) by {
                assert(states.len() == dv.len() + 1 && states[0] == m0 && states.last()
                    == self.staged_docs() && (forall|k: int|
                    0 <= k < dv.len() ==> #[trigger] step_refreshed(
                        states[k],
                        states[k + 1],
                        root0,
                        dv[k],
                    )));
            }
        }
        out
    }

    /// Deletes the document stored under `path` and commits. When the path
    /// was indexed, the number of indexed paths drops by exactly one.
    pub fn remove_file(&mut self, path: &str) -> (r: Result<(), Error>)
        requires
            old(self).wf(),
        ensures
            final(self).wf(),
            final(self).root() == old(self).root(),
            final(self).staged_docs() == old(self).staged_docs().remove(path@),
            singly(old(self).staged_docs()) ==> singly(final(self).staged_docs()),
            r is Ok ==> final(self).committed_docs() == final(self).staged_docs(),
            r is Err ==> final(self).committed_docs() == old(self).committed_docs(),
            old(self).staged_docs().dom().contains(path@) ==> final(self).staged_docs().dom().len() + 1 == old(self).staged_docs().dom().len(),
    {
        let ghost m0 = self.staged_docs();
        self.backend.delete_path(path);
        proof {
            if singly(m0) {
                lemma_removed_singly(m0, path@);
            }
            assert(m0.remove(path@).dom() =~= m0.dom().remove(path@));
            if m0.dom().contains(path@) {
                vstd::set::axiom_set_remove_len(m0.dom(), path@);
            }
        }
        match self.backend.commit() {
            Ok(()) => Ok(()),
            Err(e) => Err(Error::Search(tantivy_message(&e))),
        }
    }

    /// Re-indexes one path: the single-path batch form of `process_changes`.
    pub fn update_file(&mut self, path: &String) -> (r: Result<(), Error>)
        requires
            old(self).wf(),
        ensures
            final(self).wf(),
            final(self).root() == old(self).root(),
            singly(old(self).staged_docs()) ==> singly(final(self).staged_docs()),
            r is Ok ==> final(self).committed_docs() == final(self).staged_docs(),
            forall|q: Seq<char>| q != path@ ==> ((#[trigger] final(self).staged_docs().dom().contains(q)) <==> old(self).staged_docs().dom().contains(q)),
            forall|q: Seq<char>| q != path@ && old(self).staged_docs().dom().contains(q)
                ==> #[trigger] final(self).staged_docs()[q] == old(self).staged_docs()[q],
            batch_processed(old(self).staged_docs(), final(self).staged_docs(), old(self).root(), seq![path@]),
    {
        let batch = vec![path.clone()];
        assert(batch.deep_view() =~= seq![path@]);
        let r = self.process_changes(&batch);
        proof {
            assert forall|q: Seq<char>| q != path@ implies !batch.deep_view().contains(q) by {
                if batch.deep_view().contains(q) {
                    assert(batch.deep_view()[0] == path@);
                }
            }
        }
        r
    }

    /// Searches the committed index for `query` and returns one block of
    /// results per hit, in hit order: directory hits and filename-only hits
    /// come back as a single result with line number zero, file hits with
    /// content matches come back once per matching line, re-read from disk
    /// so the line text is always fresh. Every result names an indexed path
    /// whose document the query matched; and when every path is single and
    /// at most the hit limit of paths match, every matching path appears in
    /// the results.
    #[verifier::rlimit(100)]
    pub fn search(&self, query: &String) -> (r: Result<Vec<SearchResult>, Error>)
        requires
            self.wf(),
        ensures
            r matches Ok(v) ==> forall|i: int|
                0 <= i < v@.len() ==> result_ok(self.committed_docs(), query@, #[trigger] v@[i]),
            r matches Ok(v) ==> search_assembled(self.committed_docs(), query@, v@),
            r matches Ok(v) ==> ((singly(self.committed_docs()) && matching_paths(self.committed_docs(), query@).finite() && matching_paths(self.committed_docs(), query@).len() <= 50) ==> (forall|p: Seq<char>| #[trigger] matching_paths(self.committed_docs(), query@).contains(p) ==> results_have_path(v@, p))),
    {
        let hits = match self.backend.query_hits(query.as_str(), 50) {
            Ok(h) => h,
            Err((parse, msg)) => {
                return Err(
                    if parse {
                        Error::InvalidQuery(msg)
                    } else {
                        Error::Search(msg)
                    },
                );
            },
        };
        let ghost m = self.committed_docs();
        let mut results: Vec<SearchResult> = Vec::new();
        let ghost mut hseq: Seq<(Seq<char>, bool)> = Seq::empty();
        let ghost mut reads: Seq<Option<Seq<Seq<char>>>> = Seq::empty();
        let ghost mut bounds: Seq<int> = seq![0];
        let n = hits.len();
        let mut i: usize = 0;
        while i < n
            invariant
                0 <= i <= n,
                n == hits@.len(),
                m == self.committed_docs(),
                hseq.len() == i,
                reads.len() == i,
                bounds.len() == i + 1,
                bounds[0] == 0,
                bounds.last() == results@.len(),
                forall|k: int| 0 <= k < bounds.len() ==> 0 <= #[trigger] bounds[k],
                forall|k: int| 0 <= k < i ==> (#[trigger] bounds[k]) <= bounds[k + 1]
                    <= results@.len(),
                forall|k: int| 0 <= k < i ==> #[trigger] hseq[k] == (hits@[k].0@, hits@[k].1),
                forall|k: int| 0 <= k < i ==> hit_ok(m, query@, (#[trigger] hseq[k]).0, hseq[k].1),
                forall|k: int| 0 <= k < i ==> hit_block(
                    query@,
                    (#[trigger] hseq[k]).0,
                    hseq[k].1,
                    reads[k],
                    results@.subrange(bounds[k], bounds[k + 1]),
                ),
                forall|k: int| 0 <= k < i ==> results_have_path(results@, (#[trigger] hits@[k]).0@),
                forall|k: int| 0 <= k < results@.len() ==> result_ok(
                    m,
                    query@,
                    #[trigger] results@[k],
                ),
                forall|k: int| 0 <= k < n ==> hit_ok(m, query@, (#[trigger] hits@[k]).0@, hits@[k].1),
            decreases n - i,
        {
            let hit_path = &hits[i].0;
            let hit_is_dir = hits[i].1;
            let ghost before = results@;
            proof {
                assert(hit_ok(m, query@, hits@[i as int].0@, hits@[i as int].1));
                if singly(m) {
                    let p = hits@[i as int].0@;
                    let j = choose|j: int|
                        0 <= j < m[p].len() && (#[trigger] m[p][j]).2 == hits@[i as int].1
                            && index_match(query@, p, m[p][j]);
                    assert(m.dom().contains(p));
                    assert(m[p].len() == 1);
                    assert(j == 0);
                }
            }
            let ghost read_view: Option<Seq<Seq<char>>>;
            if hit_is_dir {
                proof {
                    read_view = Option::None;
                }
                results.push(
                    SearchResult {
                        path: hit_path.clone(),
                        line_number: 0,
                        line_content: String::new(),
                    },
                );
            } else {
                let matched = match read_lines(hit_path.as_str()) {
                    None => {
                        proof {
                            read_view = Option::None;
                        }
                        Vec::new()
                    },
                    Some(lines) => {
                        proof {
                            read_view = Option::Some(lines.deep_view());
                        }
                        match_lines(&lines, query.as_str())
                    },
                };
                if matched.len() == 0 {
                    results.push(
                        SearchResult {
                            path: hit_path.clone(),
                            line_number: 0,
                            line_content: String::new(),
                        },
                    );
                } else {
                    let mn = matched.len();
                    let mut j: usize = 0;
                    while j < mn
                        invariant
                            0 <= j <= mn,
                            mn == matched@.len(),
                            m == self.committed_docs(),
                            m.dom().contains(hit_path@),
                            singly(m) ==> index_match(query@, hit_path@, m[hit_path@][0]),
                            results@.len() == before.len() + j,
                            forall|k: int| 0 <= k < before.len() ==> results@[k] == before[k],
                            forall|k: int| 0 <= k < j ==> (#[trigger] results@[before.len() + k]).path@
                                == hit_path@ && results@[before.len() + k].line_number
                                == matched@[k].0 && results@[before.len() + k].line_content@
                                == matched@[k].1@,
                            forall|k: int| 0 <= k < results@.len() ==> result_ok(
                                m,
                                query@,
                                #[trigger] results@[k],
                            ),
                        decreases mn - j,
                    {
                        let line_number = matched[j].0;
                        let line_content = matched[j].1.clone();
                        results.push(
                            SearchResult { path: hit_path.clone(), line_number, line_content },
                        );
                        j += 1;
                    }
                }
            }
            proof {
                let p = hits@[i as int].0@;
                let base = before.len() as int;
                let seg = results@.subrange(base, results@.len() as int);
                assert(hit_block(query@, p, hits@[i as int].1, read_view, seg)) by {
                    if hits@[i as int].1 {
                        assert(seg.len() == 1 && seg[0] == results@[base]);
                    } else {
                        match read_view {
                            Option::None => {
                                assert(seg.len() == 1 && seg[0] == results@[base]);
                            },
                            Option::Some(lines) => {
                                let pairs = matched_pairs(lines, query@);
                                if pairs.len() == 0 {
                                    assert(seg.len() == 1 && seg[0] == results@[base]);
                                } else {
                                    assert forall|k: int| 0 <= k < seg.len() implies (
                                    #[trigger] seg[k]).path@ == p && seg[k].line_number as int
                                        == pairs[k].0 && seg[k].line_content@ == pairs[k].1 by {
                                        assert(seg[k] == results@[base + k]);
                                    }
                                }
                            },
                        }
                    }
                }
                lemma_hit_blocks_extend(
                    before,
                    results@,
                    query@,
                    hseq,
                    reads,
                    bounds,
                    (p, hits@[i as int].1),
                    read_view,
                );
                hseq = hseq.push((p, hits@[i as int].1));
                reads = reads.push(read_view);
                bounds = bounds.push(results@.len() as int);
                assert(seg.len() >= 1 && seg[0].path@ == p) by {
                    if !hits@[i as int].1 {
                        match read_view {
                            Option::None => {},
                            Option::Some(lines) => {
                                if matched_pairs(lines, query@).len() != 0 {
                                    assert(pairs_block(p, matched_pairs(lines, query@), seg));
                                    assert(seg[0].path@ == p);
                                }
                            },
                        }
                    }
                }
                assert(results@[base] == seg[0]);
                assert(results_have_path(results@, p));
                assert forall|k: int| 0 <= k < i + 1 implies results_have_path(
                    results@,
                    (#[trigger] hits@[k]).0@,
                ) by {
                    if k < i {
                        lemma_result_paths_persist(before, results@, hits@[k].0@);
                    }
                }
            }
            i += 1;
        }
        proof {
            assert(search_assembled(m, query@, results@)) by {
                assert(hseq.len() == reads.len() && bounds.len() == hseq.len() + 1 && bounds[0]
                    == 0 && bounds.last() == results@.len() && (forall|k: int|
                    0 <= k < bounds.len() ==> 0 <= #[trigger] bounds[k]) && (forall|k: int|
                    0 <= k < hseq.len() ==> (#[trigger] bounds[k]) <= bounds[k + 1]
                        <= results@.len()) && (forall|k: int|
                    0 <= k < hseq.len() ==> hit_ok(m, query@, (#[trigger] hseq[k]).0, hseq[k].1))
                    && (forall|k: int|
                    0 <= k < hseq.len() ==> hit_block(
                        query@,
                        (#[trigger] hseq[k]).0,
                        hseq[k].1,
                        reads[k],
                        results@.subrange(bounds[k], bounds[k + 1]),
                    )));
            }
            if singly(m) && matching_paths(m, query@).finite() && matching_paths(
                m,
                query@,
            ).len() <= 50 {
                assert forall|p: Seq<char>| #[trigger] matching_paths(m, query@).contains(p)
                    implies results_have_path(results@, p) by {
                    assert(hits_have_path(hits@, p));
                    let k = choose|k: int| 0 <= k < hits@.len() && (#[trigger] hits@[k]).0@ == p;
                    assert(results_have_path(results@, hits@[k].0@));
                }
            }
        }
        Ok(results)
    }
}

/// One per-path step of an indexing pass: a new single document stored
/// under the path, or the path deleted.
pub type DocAction = Option<DocModel>;

/// One step applied: an upsert (delete-by-term then add) or a deletion.
pub open spec fn apply_action(m: StoreModel, p: Seq<char>, a: DocAction) -> StoreModel {
    match a {
        Option::Some(d) => upserted(m, p, d),
        Option::None => m.remove(p),
    }
}

/// The pure effect of one indexing pass: each `(path, action)` step applied
/// in order. `index_home` and `process_changes` promise that the store they
/// leave is `apply_all` of some such pass over the store they started from.
pub open spec fn apply_all(m: StoreModel, items: Seq<(Seq<char>, DocAction)>) -> StoreModel
    decreases items.len(),
{
    if items.len() == 0 {
        m
    } else {
        apply_action(apply_all(m, items.drop_last()), items.last().0, items.last().1)
    }
}

/// The last action the pass takes on `p`, if the pass touches `p` at all.
pub open spec fn last_action_for(items: Seq<(Seq<char>, DocAction)>, p: Seq<char>) -> Option<
    DocAction,
>
    decreases items.len(),
{
    if items.len() == 0 {
        Option::None
    } else if items.last().0 == p {
        Option::Some(items.last().1)
    } else {
        last_action_for(items.drop_last(), p)
    }
}

/// One step of an indexing pass keeps to the policy: it removes the path
/// (an upsert whose add failed), or stores its directory document, or stores
/// the file document built from some read outcome.
pub open spec fn policy_action(p: Seq<char>, a: DocAction) -> bool {
    ||| a is None
    ||| a == Option::Some(dir_doc(p))
    ||| exists|lines: Seq<Seq<char>>| a == Option::Some(file_doc(p, lines))
}

/// The store `m1` is what some indexing pass leaves of `m0`: every step on a
/// path under `root`, every step an action the per-entry policy allows.
pub open spec fn reindex_of(m0: StoreModel, m1: StoreModel, root: Seq<char>) -> bool {
    exists|items: Seq<(Seq<char>, DocAction)>|
        m1 == apply_all(m0, items) && (forall|k: int|
            0 <= k < items.len() ==> is_prefix(root, (#[trigger] items[k]).0) && policy_action(
                items[k].0,
                items[k].1,
            ))
}

/// What one indexing pass leaves under each path: the pass's own last action
/// decides the paths it touches, the starting store decides the rest.
pub proof fn lemma_apply_all_at(m: StoreModel, items: Seq<(Seq<char>, DocAction)>, p: Seq<char>)
    ensures
        last_action_for(items, p) matches Some(a) ==> (a matches Some(d)
            ==> apply_all(m, items).dom().contains(p) && apply_all(m, items)[p] == seq![d]),
        last_action_for(items, p) matches Some(a) ==> (a is None ==> !apply_all(
            m,
            items,
        ).dom().contains(p)),
        last_action_for(items, p) is None ==> (apply_all(m, items).dom().contains(p)
            <==> m.dom().contains(p)),
        last_action_for(items, p) is None && m.dom().contains(p) ==> apply_all(m, items)[p] == m[p],
    decreases items.len(),
{
    if items.len() > 0 {
        lemma_apply_all_at(m, items.drop_last(), p);
    }
}

/// Idempotent rebuild: running the same indexing pass twice leaves exactly
/// the store that running it once leaves, whatever store it started from.
pub proof fn lemma_apply_all_idempotent(m: StoreModel, items: Seq<(Seq<char>, DocAction)>)
    ensures
        apply_all(apply_all(m, items), items) == apply_all(m, items),
{
    let once = apply_all(m, items);
    let twice = apply_all(once, items);
    assert forall|p: Seq<char>| #[trigger] twice.dom().contains(p) implies once.dom().contains(
        p,
    ) by {
        lemma_apply_all_at(m, items, p);
        lemma_apply_all_at(once, items, p);
    }
    assert forall|p: Seq<char>| #[trigger] once.dom().contains(p) implies twice.dom().contains(
        p,
    ) && twice[p] == once[p] by {
        lemma_apply_all_at(m, items, p);
        lemma_apply_all_at(once, items, p);
    }
    assert(twice =~= once);
}

/// Upsert uniqueness: an indexing pass over a store in which every path
/// holds one document leaves every path holding one document. Together with
/// the empty fresh store, every store this library builds is single at every
/// path.
pub proof fn lemma_apply_all_singly(m: StoreModel, items: Seq<(Seq<char>, DocAction)>)
    requires
        singly(m),
    ensures
        singly(apply_all(m, items)),
    decreases items.len(),
{
    if items.len() > 0 {
        lemma_apply_all_singly(m, items.drop_last());
        let prev = apply_all(m, items.drop_last());
        match items.last().1 {
            Option::Some(d) => lemma_upserted_singly(prev, items.last().0, d),
            Option::None => lemma_removed_singly(prev, items.last().0),
        }
    }
}

/// Deletion, search side: a search result always names an indexed path, so
/// once a path is gone from the committed store no later result names it.
pub proof fn lemma_absent_path_never_returned(
    m: StoreModel,
    q: Seq<char>,
    p: Seq<char>,
    res: SearchResult,
)
    requires
        !m.dom().contains(p),
        result_ok(m, q, res),
    ensures
        res.path@ != p,
{
}

/// Freshness after mutation, search side: in a store where every path is
/// single, a result for a freshly upserted path means the query matched the
/// new document; nothing of the replaced document can produce a hit.
pub proof fn lemma_fresh_content_searched(
    m: StoreModel,
    q: Seq<char>,
    p: Seq<char>,
    d: DocModel,
    res: SearchResult,
)
    requires
        singly(upserted(m, p, d)),
        result_ok(upserted(m, p, d), q, res),
        res.path@ == p,
    ensures
        index_match(q, p, d),
{
    assert(upserted(m, p, d)[p] == seq![d]);
}

/// Scope isolation, Home side: when every indexed path lies under the root,
/// every search result lies under the root too.
pub proof fn lemma_home_results_under_root(
    m: StoreModel,
    q: Seq<char>,
    root: Seq<char>,
    res: SearchResult,
)
    requires
        forall|p: Seq<char>| #[trigger] m.dom().contains(p) ==> is_prefix(root, p),
        result_ok(m, q, res),
    ensures
        is_prefix(root, res.path@),
{
}

/// A fresh store is single at every path.
pub proof fn lemma_empty_singly()
    ensures
        singly(empty_store()),
{
}

/// Freshness after mutation: after an upsert of `p`, the store holds exactly
/// the new document under `p`; nothing of any earlier document under `p`
/// remains visible to a search over the model.
pub proof fn lemma_upsert_replaces(m: StoreModel, p: Seq<char>, d: DocModel)
    ensures
        upserted(m, p, d).dom().contains(p),
        upserted(m, p, d)[p] == seq![d],
{
}

/// A path with a result keeps its result when the list only grows.
proof fn lemma_result_paths_persist(before: Seq<SearchResult>, after: Seq<SearchResult>, p: Seq<char>)
    requires
        before.len() <= after.len(),
        forall|j: int| 0 <= j < before.len() ==> #[trigger] after[j] == before[j],
        results_have_path(before, p),
    ensures
        results_have_path(after, p),
{
    let j = choose|j: int| 0 <= j < before.len() && (#[trigger] before[j]).path@ == p;
    assert(after[j].path@ == p);
}

/// Appending one hit's block keeps every earlier block intact.
#[verifier::rlimit(60)]
proof fn lemma_hit_blocks_extend(
    before: Seq<SearchResult>,
    after: Seq<SearchResult>,
    q: Seq<char>,
    hseq: Seq<(Seq<char>, bool)>,
    reads: Seq<Option<Seq<Seq<char>>>>,
    bounds: Seq<int>,
    hit: (Seq<char>, bool),
    read: Option<Seq<Seq<char>>>,
)
    requires
        hseq.len() == reads.len(),
        bounds.len() == hseq.len() + 1,
        bounds[0] == 0,
        bounds.last() == before.len(),
        forall|k: int| 0 <= k < bounds.len() ==> 0 <= #[trigger] bounds[k],
        forall|k: int| 0 <= k < hseq.len() ==> (#[trigger] bounds[k]) <= bounds[k + 1]
            <= before.len(),
        forall|k: int| 0 <= k < hseq.len() ==> hit_block(
            q,
            (#[trigger] hseq[k]).0,
            hseq[k].1,
            reads[k],
            before.subrange(bounds[k], bounds[k + 1]),
        ),
        before.len() <= after.len(),
        forall|j: int| 0 <= j < before.len() ==> #[trigger] after[j] == before[j],
        hit_block(q, hit.0, hit.1, read, after.subrange(before.len() as int, after.len() as int)),
    ensures
        ({
            let h1 = hseq.push(hit);
            let r1 = reads.push(read);
            let b1 = bounds.push(after.len() as int);
            &&& b1.len() == h1.len() + 1
            &&& b1[0] == 0
            &&& b1.last() == after.len()
            &&& forall|k: int| 0 <= k < b1.len() ==> 0 <= #[trigger] b1[k]
            &&& forall|k: int|
                0 <= k < h1.len() ==> (#[trigger] b1[k]) <= b1[k + 1] <= after.len()
            &&& forall|k: int|
                0 <= k < h1.len() ==> hit_block(
                    q,
                    (#[trigger] h1[k]).0,
                    h1[k].1,
                    r1[k],
                    after.subrange(b1[k], b1[k + 1]),
                )
        }),
{
    let h1 = hseq.push(hit);
    let r1 = reads.push(read);
    let b1 = bounds.push(after.len() as int);
    assert forall|k: int| 0 <= k < h1.len() implies hit_block(
        q,
        (#[trigger] h1[k]).0,
        h1[k].1,
        r1[k],
        after.subrange(b1[k], b1[k + 1]),
    ) && b1[k] <= b1[k + 1] <= after.len() by {
        if k < hseq.len() {
            assert(b1[k] == bounds[k]);
            assert(b1[k + 1] == bounds[k + 1]);
            assert(hit_block(
                q,
                hseq[k].0,
                hseq[k].1,
                reads[k],
                before.subrange(bounds[k], bounds[k + 1]),
            ));
            assert(bounds[k + 1] <= before.len());
            assert forall|mm: int| 0 <= mm < bounds[k + 1] - bounds[k] implies #[trigger] after.subrange(
                bounds[k],
                bounds[k + 1],
            )[mm] == before.subrange(bounds[k], bounds[k + 1])[mm] by {
                assert(after[bounds[k] + mm] == before[bounds[k] + mm]);
            }
            assert(after.subrange(bounds[k], bounds[k + 1]) =~= before.subrange(
                bounds[k],
                bounds[k + 1],
            ));
        } else {
            assert(after.subrange(b1[k], b1[k + 1]) =~= after.subrange(
                before.len() as int,
                after.len() as int,
            ));
        }
    }
}

/// A step that touches at most one path changes no other path's presence or
/// document.
pub proof fn lemma_touched_only_dom(m0: StoreModel, m1: StoreModel, p: Seq<char>)
    requires
        touched_only(m0, m1, p),
    ensures
        forall|q: Seq<char>| q != p ==> ((#[trigger] m1.dom().contains(q)) <==> m0.dom().contains(
            q,
        )),
        forall|q: Seq<char>| q != p && m0.dom().contains(q) ==> #[trigger] m1[q] == m0[q],
        forall|q: Seq<char>| #[trigger] m1.dom().contains(q) ==> m0.dom().contains(q) || q == p,
{
    if m1 == m0 {
    } else if m1 == m0.remove(p) {
    } else {
        let d = choose|d: DocModel| m1 == upserted(m0, p, d);
        assert(m1 == m0.insert(p, seq![d]));
    }
}

} // verus!
