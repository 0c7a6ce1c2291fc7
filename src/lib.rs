//! A min-Fibonacci heap over an arena of nodes, with handles that stay
//! meaningful after the element they name has left the heap.
use vstd::prelude::*;

pub mod order;
mod ring;
pub mod slots;
pub mod heap;
pub mod laws;

pub use heap::{FibonacciHeap, NodePtr};

verus! {

} // verus!
