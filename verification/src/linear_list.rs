//! Lists: a bounded array list and an unbounded linked list.

pub mod linked_list;
mod node_arena;
pub mod sequence_list;
pub mod sorted;

pub use linked_list::LinkedList;
pub use sequence_list::SequenceList;
