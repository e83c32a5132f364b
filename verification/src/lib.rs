//! Indexing core of an in-memory triple store.
//!
//! Terms (opaque, comparable values) are replaced by compact handles through a
//! reference-counted interning table; handle-triples are kept consistent with
//! per-component secondary indices through a pair of cascade-reporting index
//! maintenance operations.

pub mod graph;
pub mod index;
pub mod term;
pub mod term_index;
pub mod wrap;
