//! The store of documents, the index in memory, and the search.

pub mod brain;
pub mod matching;
pub mod storage;
