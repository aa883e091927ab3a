//! In-place removal of adjacent equivalent elements from a `Vec`, with the
//! equivalence decided by a caller-supplied predicate.

pub mod model;
pub mod compact;

pub use compact::NewDedup;
