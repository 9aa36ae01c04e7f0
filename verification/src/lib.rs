//! Extraction core for lexical relations read out of wiki markup: a
//! recursive template scanner, an argument decoder, an incremental
//! partitioner that merges word identifiers into clusters, a word-interning
//! table, and the handlers that feed relations into the shared data model.

pub mod assoc;
pub mod bytes;
pub mod closure;
pub mod decode;
pub mod handlers;
pub mod model;
pub mod partitioner;
pub mod template;
pub mod words;
