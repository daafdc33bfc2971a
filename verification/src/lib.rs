//! Virtual-memory bookkeeping of a small teaching kernel: page ranges that a task has
//! mapped, the areas of its address space, and the task table that the scheduler walks.
pub mod address;
pub mod config;
pub mod elf;
pub mod range_manager;
pub mod memory_set;
pub mod task;

use vstd::prelude::*;

verus! {

} // verus!
