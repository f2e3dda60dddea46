//! Query execution for disjunctive multi-term queries over segmented
//! postings: a per-term cursor, a k-way union of cursors, a fixed-point
//! TF-IDF scorer with query coordination, a tree of timing spans, and the
//! per-segment search and explain steps of a multi-term query.
pub mod postings;
pub mod query;
pub mod scorer;
pub mod timer;
pub mod union;
