pub mod buddy_allocator;
pub mod vmm;
pub mod frame_allocator;
pub mod free_list;
pub mod swap;
