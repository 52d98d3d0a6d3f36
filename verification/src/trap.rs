//! The boundary between user mode and the kernel.

pub mod context;
