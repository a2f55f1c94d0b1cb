//! Memory management: addresses, page tables, frames and address spaces.
pub mod address;
pub mod area_map;
pub mod elf;
pub mod frame_allocator;
pub mod memory_set;
pub mod page_table;
pub mod user_space;
