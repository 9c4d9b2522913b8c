//! In-memory indexing core and disjunction scoring core of an inverted-index
//! search engine: pooled slice arenas, term interning, postings encoding,
//! multi-way merging of document iterators, and doc-values adapters.

pub mod error;
pub mod index;
pub mod search;
pub mod util;
