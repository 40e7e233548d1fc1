//! Byte stores and the skip lists kept in them.
pub mod error;
pub mod store_io;
pub mod skip_list;
