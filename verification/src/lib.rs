//! Fixed-capacity and linked containers over index-addressed slot arenas.

pub mod deque;
pub mod linear_list;
pub mod raw;
pub mod stack;
pub mod trace;
