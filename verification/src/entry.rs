//! What a traversal reports of one file-system entry.

use vstd::prelude::*;

verus! {

/// One entry of a directory tree, with what the file system said of it.
///
/// `size` and `content` are filled in on demand: `None` stands for metadata
/// or a content that could not be read, or that nobody asked for.
pub struct Entry {
    /// The path of the entry, the root of the traversal included.
    pub path: String,
    /// Whether the path names a directory.
    pub is_dir: bool,
    /// Whether the path names a regular file.
    pub is_file: bool,
    /// The size of the file in bytes.
    pub size: Option<u64>,
    /// The bytes of the file.
    pub content: Option<Vec<u8>>,
}

} // verus!
