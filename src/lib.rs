//! A physical-page buddy allocator over one memory region, with its bookkeeping
//! kept in index-linked free lists.
pub mod inplace_list;
pub mod frame;
pub mod memory_map;
pub mod single;
