//! An embedded relational storage engine: an ordered B+ tree index and a
//! bitmap-driven page allocator over partition files.
pub mod catalog;
pub mod concurrency;
pub mod datatypes;
pub mod error;
pub mod memory;
pub mod options;
pub mod table;
pub mod utils;
