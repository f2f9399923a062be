//! The values that tables hold.
pub mod array;
pub mod record;
