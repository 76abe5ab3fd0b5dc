//! Plain data records shared with the presentation layer.

use vstd::prelude::*;

verus! {

/// One filesystem entry as shown to a user.
#[derive(Debug, Clone)]
pub struct FileEntry {
    pub name: String,
    pub path: String,
    pub kind: FileKind,
    pub size: u64,
}

/// The kind of a filesystem entry.
#[derive(Debug, Clone, Copy, PartialEq, Eq, Structural)]
pub enum FileKind {
    File,
    Dir,
    Link,
}

} // verus!
