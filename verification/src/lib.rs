//! Physical-memory and address-translation core for a 64-bit kernel with a
//! three-level, 4 KiB-page translation scheme (Sv39).
//!
//! The crate turns a raw memory map into a pool of allocatable physical page
//! frames and provides a page-table structure on which virtual-to-physical
//! mappings are established.

pub mod addresses;
pub mod frame_allocator;
pub mod memory_init;
pub mod page_table;
pub mod tlsf;
