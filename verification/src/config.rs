//! Layout constants of the kernel and of user address spaces.
use vstd::prelude::*;

verus! {

/// Size of a user stack in bytes.
pub const USER_STACK_SIZE: usize = 8192;

/// End of the physical memory the kernel maps.
pub const MEMORY_END: usize = 0x8080_0000;

/// Start of the highest page of every address space, where the trampoline lives.
pub const TRAMPOLINE: usize = usize::MAX - 4096 + 1;

/// Start of the page below the trampoline, where a task's trap context lives.
pub const TRAP_CONTEXT: usize = usize::MAX - 4096 + 1 - 4096;

} // verus!
