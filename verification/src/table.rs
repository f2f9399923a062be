//! Tables: their pages on disk and their indexes.
pub mod cache;
pub mod index;
pub mod manifest;
pub mod metadata;
pub mod page;
pub mod schema;
