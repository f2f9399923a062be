//! Small building blocks shared by the storage layers.
pub mod bitmap;
pub mod checksum;
pub mod compression;
