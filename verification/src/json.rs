//! JSON: reading a text into a value and writing a value as compact text.

pub mod canon;
pub mod laws;
pub mod read;
pub mod syntax;
pub mod write;
