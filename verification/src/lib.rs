//! A lazily-consolidated multi-way-tree heap (Fibonacci-heap family) over
//! `u64` keys: amortized O(1) insert and merge, O(1) find-minimum, amortized
//! O(log n) extract-minimum, and O(n) bulk construction.
//!
//! The heap's contents are modelled as a `Multiset<u64>`; every public
//! operation carries a contract over that view, and draining the heap is
//! proved to return the contents in sorted order.

pub mod consolidate;
pub mod heap;
pub mod laws;
pub mod node;

pub use heap::is_min_of;
pub use heap::sorted;
pub use heap::FibonacciHeap;
