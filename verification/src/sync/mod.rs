pub mod atomic;
pub mod condvar;
pub mod handle_table;
pub mod monitor;
pub mod resource;
pub mod resource_table;
pub mod spinlock;
