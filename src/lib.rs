//! Memory-management core of a freestanding 64-bit kernel: a bitmap allocator
//! over physical frames, and address spaces built from four-level page
//! tables whose intermediate tables are allocated on demand and released,
//! with every frame the address space owns, when it is torn down.

pub mod addrspace;
pub mod allocator;
pub mod bits;
pub mod frame;
pub mod page;
pub mod tables;

pub use addrspace::AddressSpace;
pub use allocator::{InitError, MemoryRegion, PhysicalFrameAllocator};
pub use frame::Frame;
pub use page::Page;
pub use tables::{PageEntry, PageEntryFlags, PageLevel, PageTable};
