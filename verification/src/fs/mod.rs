pub mod fat;
pub mod fat_check;
pub mod fcb;
pub mod fd_table;
pub mod overlay;
pub mod stat;
pub mod system_domain;
pub mod vfs;
pub mod volume;
