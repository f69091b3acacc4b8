//! Filters: transforms from one value tree to another, applied in the order
//! in which they were configured.

pub mod max_depth;
pub mod path;
pub mod select;
