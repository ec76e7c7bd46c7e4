//! Two small numeric algorithms with machine-checked contracts: a bounded
//! prime sieve and a stable merge sort over any ordered, copyable element type.

pub mod order;
pub mod sieve;
pub mod sort;

pub use crate::sieve::Sieve;
pub use crate::sort::merge_sort;
