//! The library's error type.

use vstd::prelude::*;
use vstd::string::*;

verus! {

/// What can go wrong inside the search engine. Every variant carries a plain
/// message; nothing here is fatal to the owning process.
#[derive(Debug, Clone)]
pub enum Error {
    /// The index library reported a failure.
    Search(String),
    /// The query could not be parsed (malformed query syntax or an invalid
    /// regular expression).
    InvalidQuery(String),
    /// The on-disk index predates a required schema field; the index
    /// directory must be destroyed and rebuilt.
    SchemaMismatch,
}

impl Error {
    /// A human-readable description of the error.
    pub fn message(&self) -> (r: String)
        ensures
            self is Search ==> r@ == "search error: "@ + self->Search_0@,
            self is InvalidQuery ==> r@ == "invalid query: "@ + self->InvalidQuery_0@,
            self is SchemaMismatch ==> r@ == "index schema is outdated"@,
    {
        match self {
            Error::Search(m) => String::from_str("search error: ").concat(m.as_str()),
            Error::InvalidQuery(m) => String::from_str("invalid query: ").concat(m.as_str()),
            Error::SchemaMismatch => String::from_str("index schema is outdated"),
        }
    }
}

} // verus!
