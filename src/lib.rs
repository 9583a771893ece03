//! A fixed-capacity bump allocator whose cursor is a single atomic value.

pub mod align;
pub mod bump;
pub mod allocator;

pub use align::align_up;
pub use allocator::BumpAllocator;
pub use bump::{after_exchange, next_block};
