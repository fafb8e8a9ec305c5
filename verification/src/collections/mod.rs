//! Generic data structures for kernel usage.
pub mod arc_swap;
pub mod handle_allocator;
pub mod handle_map;

pub use arc_swap::ArcSwap;
pub use handle_allocator::{Error as HandleAllocatorError, HandleAllocator};
pub use handle_map::{Handle, HandleMap};
