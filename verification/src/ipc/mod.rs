pub mod channel;
pub mod msg_queue;
pub mod pipe;
pub mod shm;
pub mod table;
