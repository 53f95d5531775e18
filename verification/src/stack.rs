//! Stacks.

pub mod vec_stack;

pub use vec_stack::VecStack;
