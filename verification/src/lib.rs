//! A binary heap whose priority order is a comparison function handed in by
//! the caller. The item that the comparison ranks highest leaves first.

pub mod order;
pub mod tree;
pub mod sift;
pub mod laws;
pub mod comparator;
pub mod heap;

pub use heap::BinaryHeapCompare;
