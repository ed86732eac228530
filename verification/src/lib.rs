pub mod arch;
pub mod fs;
pub mod io;
pub mod ipc;
pub mod memory;
pub mod process;
pub mod scheduler;
pub mod security;
pub mod sync;
pub mod syscall;
