//! The buffer pool and the policies that choose which frame to give up.

pub mod buffer_manager;
pub mod replacer;

pub use buffer_manager::{Buffer, BufferManager};
pub use replacer::EvictionPolicy;
