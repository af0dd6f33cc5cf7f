//! Character-frequency statistics over a text string.
//!
//! [`ICharsCounter`] turns a `&str` into a sorted list of [`CharsCounter`]
//! entries, one per distinct character that passes an inclusion predicate,
//! each carrying that character's number of occurrences. The list is sorted
//! by descending count and, among equal counts, by ascending code point,
//! which makes the output deterministic. [`ICharCounterExt`] answers derived
//! questions over such a list: the most and least frequent entries, lookup
//! by count, and lookup by character.
//!
//! The spec functions that the contracts use live in [`model`]; properties
//! relating the counter and the queries are stated and proved in [`laws`].

pub mod classify;
pub mod counter;
pub mod laws;
pub mod model;
pub mod queries;

pub use counter::ICharsCounter;
pub use model::CharsCounter;
pub use queries::ICharCounterExt;
