pub mod crc;
pub mod device;
pub mod disk;
pub mod scheduler;
pub mod console;
