//! The composition root: one `IndexManager` for the pre-indexed Home scope,
//! one `RipgrepBackend` for the live Root scope, and the dispatcher that
//! routes each query to the right backend.

use vstd::prelude::*;
use crate::disk::is_prefix;
use crate::errors::Error;
use crate::scan::{scan_assembled, RipgrepBackend, MAX_SCAN_RESULTS};
use crate::store::{batch_processed, empty_store, matching_paths, reindex_of, result_ok, results_have_path, search_assembled, singly, IndexManager, StoreModel};
use crate::{SearchResult, SearchScope};

verus! {

/// The search engine: owns the index store and the live scanner and routes
/// each query by scope.
pub struct SearchEngine {
    index_manager: IndexManager,
    ripgrep_backend: RipgrepBackend,
}

impl SearchEngine {
    /// The staged state of the Home index.
    pub closed spec fn home_staged(&self) -> StoreModel {
        self.index_manager.staged_docs()
    }

    /// The committed state of the Home index.
    pub closed spec fn home_committed(&self) -> StoreModel {
        self.index_manager.committed_docs()
    }

    /// The root of the indexed Home subtree.
    pub closed spec fn home_root(&self) -> Seq<char> {
        self.index_manager.root()
    }

    /// The root the live scanner starts from.
    pub closed spec fn scan_root(&self) -> Seq<char> {
        self.ripgrep_backend.root_path()
    }

    /// Type validity.
    pub closed spec fn wf(&self) -> bool {
        self.index_manager.wf()
    }

    /// Builds the engine: opens or creates the index under `index_path` for
    /// the subtree `content_root`, and roots the live scanner at `scan_root`.
    /// The second component of the pair says whether the index is empty and a
    /// full rebuild is wanted; a warm index is left as it is. Fails with
    /// `Error::SchemaMismatch` when the on-disk schema predates a required
    /// field; the caller then destroys the index directory and retries.
    pub fn new_with_paths(index_path: String, content_root: String, scan_root: String) -> (r:
        Result<(SearchEngine, bool), Error>)
        ensures
            r matches Ok(pair) ==> pair.0.wf(),
            r matches Ok(pair) ==> pair.0.home_staged() == pair.0.home_committed(),
            r matches Ok(pair) ==> pair.0.home_root() == content_root@,
            r matches Ok(pair) ==> pair.0.scan_root() == scan_root@,
            r matches Ok(pair) ==> singly(pair.0.home_committed()) ==> (pair.1 <==> pair.0.home_committed().dom().len() == 0),
            r matches Ok(pair) ==> pair.1 ==> pair.0.home_staged() == empty_store() && singly(pair.0.home_staged()),
    {
        let index_manager = match IndexManager::new_with_path(index_path, content_root) {
            Ok(m) => m,
            Err(e) => return Err(e),
        };
        let docs = match index_manager.num_docs() {
            Ok(n) => n,
            Err(e) => return Err(e),
        };
        let ripgrep_backend = RipgrepBackend::new(scan_root);
        Ok((SearchEngine { index_manager, ripgrep_backend }, docs == 0))
    }

    /// Rebuilds the Home index from a full walk of its root.
    pub fn index_home(&mut self) -> (r: Result<(), Error>)
        requires
            old(self).wf(),
        ensures
            final(self).wf(),
            final(self).home_root() == old(self).home_root(),
            final(self).scan_root() == old(self).scan_root(),
            singly(old(self).home_staged()) ==> singly(final(self).home_staged()),
            r is Ok ==> final(self).home_committed() == final(self).home_staged(),
            reindex_of(old(self).home_staged(), final(self).home_staged(), old(self).home_root()),
            forall|p: Seq<char>| #[trigger] final(self).home_staged().dom().contains(p) ==> old(self).home_staged().dom().contains(p) || is_prefix(old(self).home_root(), p),
    {
        self.index_manager.index_home()
    }

    /// Re-indexes or deletes each path of a watcher batch; paths outside the
    /// batch are untouched.
    pub fn process_changes(&mut self, paths: &Vec<String>) -> (r: Result<(), Error>)
        requires
            old(self).wf(),
        ensures
            final(self).wf(),
            final(self).home_root() == old(self).home_root(),
            final(self).scan_root() == old(self).scan_root(),
            singly(old(self).home_staged()) ==> singly(final(self).home_staged()),
            r is Ok ==> final(self).home_committed() == final(self).home_staged(),
            forall|q: Seq<char>| !paths.deep_view().contains(q) ==> ((#[trigger] final(self).home_staged().dom().contains(q)) <==> old(self).home_staged().dom().contains(q)),
            forall|q: Seq<char>| !paths.deep_view().contains(q) && old(self).home_staged().dom().contains(q) ==> #[trigger] final(self).home_staged()[q] == old(self).home_staged()[q],
            batch_processed(old(self).home_staged(), final(self).home_staged(), old(self).home_root(), paths.deep_view()),
            forall|p: Seq<char>| #[trigger] final(self).home_staged().dom().contains(p) ==> old(self).home_staged().dom().contains(p) || is_prefix(old(self).home_root(), p),
    {
        self.index_manager.process_changes(paths)
    }

    /// The number of documents in the committed Home index.
    pub fn num_docs(&self) -> (r: Result<u64, Error>)
        requires
            self.wf(),
        ensures
            r matches Ok(n) ==> singly(self.home_committed()) ==> n as nat
                == self.home_committed().dom().len(),
    {
        self.index_manager.num_docs()
    }

    /// Routes one query: `Home` to the index store, `Root` to the live
    /// scanner. A Home result always names an indexed path whose document
    /// matched the query; a Root result list is capped and stays under the
    /// scan root.
    pub fn search(&self, query: &String, scope: SearchScope) -> (r: Result<
        Vec<SearchResult>,
        Error,
    >)
        requires
            self.wf(),
        ensures
            scope == SearchScope::Home ==> (r matches Ok(v) ==> forall|i: int|
                0 <= i < v@.len() ==> result_ok(self.home_committed(), query@, #[trigger] v@[i])),
            scope == SearchScope::Home ==> (r matches Ok(v) ==> search_assembled(self.home_committed(), query@, v@)),
            scope == SearchScope::Home ==> (r matches Ok(v) ==> ((singly(self.home_committed()) && matching_paths(self.home_committed(), query@).finite() && matching_paths(self.home_committed(), query@).len() <= 50) ==> (forall|p: Seq<char>| #[trigger] matching_paths(self.home_committed(), query@).contains(p) ==> results_have_path(v@, p)))),
            scope == SearchScope::Root ==> (r matches Ok(v) ==> v@.len() <= MAX_SCAN_RESULTS),
            scope == SearchScope::Root ==> (r matches Ok(v) ==> forall|i: int|
                0 <= i < v@.len() ==> is_prefix(self.scan_root(), (#[trigger] v@[i]).path@)),
            scope == SearchScope::Root ==> (r matches Ok(v) ==> scan_assembled(self.scan_root(), v@)),
    {
        match scope {
            SearchScope::Home => self.index_manager.search(query),
            SearchScope::Root => self.ripgrep_backend.search(query.as_str()),
        }
    }
}

/// The caller-facing handle around one engine.
pub struct SearchService {
    engine: SearchEngine,
}

impl SearchService {
    /// The staged state of the Home index.
    pub closed spec fn home_staged(&self) -> StoreModel {
        self.engine.home_staged()
    }

    /// The committed state of the Home index.
    pub closed spec fn home_committed(&self) -> StoreModel {
        self.engine.home_committed()
    }

    /// The root of the indexed Home subtree.
    pub closed spec fn home_root(&self) -> Seq<char> {
        self.engine.home_root()
    }

    /// The root the live scanner starts from.
    pub closed spec fn scan_root(&self) -> Seq<char> {
        self.engine.scan_root()
    }

    /// Type validity.
    pub closed spec fn wf(&self) -> bool {
        self.engine.wf()
    }

    /// Builds the service; the boolean says whether a full rebuild is wanted.
    pub fn new_with_paths(index_path: String, content_root: String, scan_root: String) -> (r:
        Result<(SearchService, bool), Error>)
        ensures
            r matches Ok(pair) ==> pair.0.wf(),
            r matches Ok(pair) ==> pair.0.home_staged() == pair.0.home_committed(),
            r matches Ok(pair) ==> pair.0.home_root() == content_root@,
            r matches Ok(pair) ==> pair.0.scan_root() == scan_root@,
            r matches Ok(pair) ==> pair.1 ==> pair.0.home_staged() == empty_store() && singly(pair.0.home_staged()),
    {
        match SearchEngine::new_with_paths(index_path, content_root, scan_root) {
            Ok((engine, needs)) => Ok((SearchService { engine }, needs)),
            Err(e) => Err(e),
        }
    }

    /// Routes one query to the engine.
    pub fn search(&self, query: &String, scope: SearchScope) -> (r: Result<
        Vec<SearchResult>,
        Error,
    >)
        requires
            self.wf(),
        ensures
            scope == SearchScope::Home ==> (r matches Ok(v) ==> forall|i: int|
                0 <= i < v@.len() ==> result_ok(self.home_committed(), query@, #[trigger] v@[i])),
            scope == SearchScope::Home ==> (r matches Ok(v) ==> search_assembled(self.home_committed(), query@, v@)),
            scope == SearchScope::Home ==> (r matches Ok(v) ==> ((singly(self.home_committed()) && matching_paths(self.home_committed(), query@).finite() && matching_paths(self.home_committed(), query@).len() <= 50) ==> (forall|p: Seq<char>| #[trigger] matching_paths(self.home_committed(), query@).contains(p) ==> results_have_path(v@, p)))),
            scope == SearchScope::Root ==> (r matches Ok(v) ==> v@.len() <= MAX_SCAN_RESULTS),
            scope == SearchScope::Root ==> (r matches Ok(v) ==> forall|i: int|
                0 <= i < v@.len() ==> is_prefix(self.scan_root(), (#[trigger] v@[i]).path@)),
            scope == SearchScope::Root ==> (r matches Ok(v) ==> scan_assembled(self.scan_root(), v@)),
    {
        self.engine.search(query, scope)
    }

    /// Rebuilds the Home index.
    pub fn index_home(&mut self) -> (r: Result<(), Error>)
        requires
            old(self).wf(),
        ensures
            final(self).wf(),
            final(self).home_root() == old(self).home_root(),
            final(self).scan_root() == old(self).scan_root(),
            singly(old(self).home_staged()) ==> singly(final(self).home_staged()),
            r is Ok ==> final(self).home_committed() == final(self).home_staged(),
            reindex_of(old(self).home_staged(), final(self).home_staged(), old(self).home_root()),
            forall|p: Seq<char>| #[trigger] final(self).home_staged().dom().contains(p) ==> old(self).home_staged().dom().contains(p) || is_prefix(old(self).home_root(), p),
    {
        self.engine.index_home()
    }

    /// Applies one watcher batch to the Home index.
    pub fn process_changes(&mut self, paths: &Vec<String>) -> (r: Result<(), Error>)
        requires
            old(self).wf(),
        ensures
            final(self).wf(),
            final(self).home_root() == old(self).home_root(),
            final(self).scan_root() == old(self).scan_root(),
            singly(old(self).home_staged()) ==> singly(final(self).home_staged()),
            r is Ok ==> final(self).home_committed() == final(self).home_staged(),
            batch_processed(old(self).home_staged(), final(self).home_staged(), old(self).home_root(), paths.deep_view()),
            forall|p: Seq<char>| #[trigger] final(self).home_staged().dom().contains(p) ==> old(self).home_staged().dom().contains(p) || is_prefix(old(self).home_root(), p),
    {
        self.engine.process_changes(paths)
    }
}

} // verus!
