//! Memory management: addresses, physical memory, the frame allocator, the
//! page table and address spaces.

pub mod address;
pub mod area;
pub mod elf;
pub mod frame_allocator;
pub mod memory;
pub mod memory_set;
pub mod page_table;
pub mod pte;
pub mod regions;
pub mod user;
pub mod walk;
