pub mod pid;
pub mod task;
pub mod table;
pub mod lifecycle;
pub mod signal;
pub mod loader;
