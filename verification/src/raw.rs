//! The slot arena every bounded container is built on.

pub mod raw_array;

pub use raw_array::RawArray;
