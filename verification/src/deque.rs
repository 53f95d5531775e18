//! Queues: a bounded ring-buffer deque and a linked FIFO queue.

pub mod linked_queue;
pub mod ring_deque;

pub use linked_queue::LinkedQueue;
pub use ring_deque::RingDeque;
