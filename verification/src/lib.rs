//! Physical and virtual memory management for an x86-64 kernel at early boot:
//! a bitmap frame allocator, a 4-level page-table manager with a recursive
//! self-reference, and a linked-list kernel heap that grows on demand.
//!
//! The structures here model the machine state with owned data: the frame
//! bitmap is a byte vector, the paging hierarchy is an arena of tables keyed
//! by their physical frame, and the heap's free list records the node that
//! would sit at the start of each free region. The hardware edges (reading
//! the boot loader's memory map, writing `CR3`, `INVLPG`) stay outside.

use vstd::prelude::*;

pub mod frame_allocator;
pub mod heap;
pub mod paging;
pub mod utils;

verus! {

/// Size in bytes of one physical frame and of one virtual page.
pub const FRAME_SIZE: u64 = 4096;

/// Virtual address at which the kernel image is remapped.
pub const KERNEL_OFFSET: u64 = 0xffffffff80000000;

/// Upper bound on the kernel heap, in bytes.
pub const MAX_HEAP: u64 = 0x100000000;

/// First virtual address of the kernel heap region.
pub const HEAP_OFFSET: u64 = KERNEL_OFFSET - MAX_HEAP;

} // verus!
