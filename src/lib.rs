//! Walker-Vose alias tables: weighted random sampling in constant time
//! after a linear-time construction.
//!
//! Weights are non-negative integers and every probability is kept as an
//! exact fraction over the total weight, so the table reproduces the input
//! distribution exactly rather than up to rounding.

pub mod entry;
mod random;
pub mod sampler;
pub mod table;

pub use entry::AliasEntry;
pub use sampler::AliasTableIterator;
pub use table::{AliasTable, BuildError};
