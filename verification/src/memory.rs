//! The buffer: pages held in memory.
pub mod frame;
