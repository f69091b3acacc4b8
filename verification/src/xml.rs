//! XML: reading a document into a value.

pub mod canon;
pub mod read;
pub mod syntax;
