//! A best-fit allocator over a caller-provided byte buffer.

pub mod allocator;
pub mod block;
pub mod heap;
pub mod laws;
pub mod layout;
pub mod list;
pub mod lock;
pub mod meaning;
pub mod memory;
pub mod rounding;

pub use allocator::Allocator;
pub use layout::Layout;
