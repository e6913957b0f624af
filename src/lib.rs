//! Physical memory management for the kernel: the firmware memory map, a
//! binary buddy allocator per usable region, the allocator over all of those
//! zones, a first-fit free-list heap that draws its pages from it, and the
//! spin locks that guard them.

pub mod addr;
pub mod block;
pub mod map;
pub mod pmm;
pub mod slob;
pub mod sync;
pub mod tree;
pub mod zone;
