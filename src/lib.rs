//! Heap allocation for a freestanding kernel: an alignment helper, a bump
//! allocator with whole-heap reset, and a first-fit free-list allocator, each
//! stated over a model of plain address ranges and proved against it; with the
//! task queue of a simple executor and the choice of physical frames from the
//! bootloader's memory map.

pub mod align;
pub mod bump;
pub mod linked_list;
pub mod memory;
pub mod task;

pub use align::align_up;
pub use bump::BumpAllocator;
pub use linked_list::LinkedListAllocator;
pub use memory::{usable_frame, EmptyFrameAllocator, MemoryRegion};
pub use task::SimpleExecutor;
