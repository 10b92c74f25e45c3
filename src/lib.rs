//! Positional lists: an abstract interface addressed by position, generic
//! algorithms built on it, and a bounded list over fixed-capacity storage.

pub mod inversions;
pub mod laws;
pub mod linear_list;
pub mod stack;

pub use linear_list::{Combine, LinearList, LinearListError, LinearListResult};
pub use stack::{Stack, MEMORY_SIZE};
