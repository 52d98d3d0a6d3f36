//! Process-and-memory core of a small teaching kernel for a 64-bit RISC
//! machine with three-level paging: the physical frame allocator, the page
//! table, per-task address spaces and the cooperative task scheduler.
//!
//! Physical memory and every piece of kernel state are explicit values that
//! are handed to the functions that use them.

use vstd::prelude::*;

pub mod config;
pub mod mm;
pub mod syscall;
pub mod task;
pub mod trap;

