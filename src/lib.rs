//! A small in-memory reactive data layer: mutable source cells, lazily
//! recomputed lowercase transforms that sources invalidate by notification,
//! and a scanning index that queries any of them by exact value.
pub mod graph;
pub mod index;
pub mod value;
