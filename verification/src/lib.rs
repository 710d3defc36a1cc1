//! A sequence-backed binary heap used as a priority queue.
//!
//! The heap is parameterized by an order predicate (a strict weak
//! ordering) that decides which of two elements must sit nearer the
//! root.  `MinOrder` and `MaxOrder` give the usual min- and max-heaps
//! over any totally ordered key type.

pub mod heap;
pub mod order;

pub use heap::Heap;
pub use heap::MaxHeap;
pub use heap::MinHeap;
pub use order::Comparator;
pub use order::MaxOrder;
pub use order::MinOrder;
pub use order::TotalOrder;
