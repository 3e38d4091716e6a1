//! Memory management: addresses, physical frames and page tables.
pub mod address;
pub mod pte;
pub mod frame;
pub mod page_table;
pub mod user;
pub mod memory_set;
