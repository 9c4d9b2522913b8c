//! Iterating over the documents that match a query.

pub mod disjunction_scorer;
pub mod doc_iterator;
