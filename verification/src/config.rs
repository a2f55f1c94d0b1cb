//! Constants of the kernel configuration.
use vstd::prelude::*;

verus! {

/// Size of a page in bytes.
pub const PAGE_SIZE: usize = 4096;

/// Number of bits of the offset inside a page.
pub const PAGE_SIZE_BITS: usize = 12;

/// End of the physical memory that the kernel maps identically.
pub const MEMORY_END: usize = 0x8800_0000;

/// Highest page of the address space, holding the trampoline code.
pub const TRAMPOLINE: usize = usize::MAX - PAGE_SIZE + 1;

/// The page just below the trampoline, holding the trap context.
pub const TRAP_CONTEXT_BASE: usize = TRAMPOLINE - PAGE_SIZE;

/// Size of a user stack in bytes.
pub const USER_STACK_SIZE: usize = 8192;

/// Number of distinct system call numbers that are counted.
pub const MAX_SYSCALL_NUM: usize = 500;

/// The constant that a task's pass is divided by its priority to make its stride.
pub const BIG_STRIDE: u64 = 0x10_0000;

/// Largest distance between two passes that still compares in the natural
/// direction; a larger distance means that the larger pass has wrapped around.
pub const STRIDE_LIMIT: u64 = 0x8_0000;

} // verus!
