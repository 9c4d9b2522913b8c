//! Building the inverted index in memory, and reading per-document columns.

pub mod doc_values;
pub mod field;
pub mod freq_prox;
pub mod posting_codes;
pub mod postings_array;
pub mod term_vector;
pub mod terms_hash;
pub mod terms_hash_per_field;
