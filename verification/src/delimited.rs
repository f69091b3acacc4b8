//! Delimited text: comma-separated and tab-separated tables.

pub mod canon;
pub mod laws;
pub mod read;
pub mod syntax;
pub mod write;
