//! YAML: reading a block-style document into a value and writing a value
//! as a block-style document.

pub mod canon;
pub mod laws;
pub mod lines;
pub mod read;
pub mod syntax;
pub mod write;
