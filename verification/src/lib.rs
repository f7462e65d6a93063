//! BM25 retrieval index: tokenization, term statistics, snippets and ranking,
//! with their contracts proved by Verus.

use vstd::prelude::*;

pub mod index;
pub mod model;
pub mod query;
pub mod rank;
pub mod text;

pub use index::Retriever;
pub use query::{CorpusStats, SearchHit};
pub use rank::rank;

verus! {

/// A single file entry offered to the index.
#[derive(Debug)]
pub struct FileEntry {
    /// Absolute path to the file.
    pub path: String,
    /// Relative path from the index root.
    pub rel_path: String,
    /// Number of words in the file (estimated).
    pub words: usize,
}

impl Clone for FileEntry {
    fn clone(&self) -> (r: Self)
        ensures
            r == *self,
    {
        FileEntry { path: self.path.clone(), rel_path: self.rel_path.clone(), words: self.words }
    }
}

} // verus!
