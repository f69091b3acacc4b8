//! TOON: the token-efficient notation. An array of objects that all have
//! the same keys and hold scalars only is written as a table: one header
//! with the keys, then one short row for each object. An array of scalars
//! is written on one line. All else is written as nested lines, two
//! blanks for each level.

pub mod write;
