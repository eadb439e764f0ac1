//! A sorted list collection: `(key, value)` entries ordered by key, then by
//! insertion order among values that share a key, with duplicate pairs
//! rejected.

pub mod model;
pub mod store;
pub mod traverse;
pub mod laws;

pub use model::Bound;
pub use store::SortedList;
pub use traverse::Range;
pub use traverse::Tuples;
pub use traverse::ValuesOf;
