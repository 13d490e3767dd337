//! A knowledge store and retrieval engine for documents: a chunker that cuts text into
//! chunks of a bounded number of tokens, the protocol of an append-only store of chunks
//! under a key/value backend, and the search that picks the chunk that answers a query
//! best, with the chunks around it.
//!
//! The library holds no floating-point numbers and does no input or output. An
//! embedding vector is held by the bit patterns of its components, a score is a
//! fixed-point number, and what is to be read or written is handed out as keys and
//! values.

pub mod chunk_file;
pub mod knowledge;
pub mod text;
pub mod tokenizer;
