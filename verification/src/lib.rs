//! Conversion of structured data between textual formats, with output tuned
//! for a small token count.

pub mod delimited;
pub mod detect;
pub mod error;
pub mod filters;
pub mod json;
pub mod laws;
pub mod message;
pub mod number;
pub mod pipeline;
pub mod sort;
pub mod text;
pub mod toon;
pub mod value;
pub mod xml;
pub mod yaml;
