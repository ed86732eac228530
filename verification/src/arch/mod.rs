pub mod syscall;
pub mod interrupts;
