//! Expansion of a restricted glob pattern into the strings it denotes.
//!
//! A pattern is made of ASCII letters and digits, character sets in square
//! brackets, and the markers `*` (repeat) and `?` (optional), each of which
//! binds to the token directly before it. [`Glob::parse`] turns a pattern into
//! tokens, [`expand`] turns tokens into strings, and [`generate_from_glob`]
//! does both. [`str_len`] and [`str_counts`] estimate the size of an expansion
//! without building it.

pub mod charset;
pub mod estimate;
pub mod expand;
pub mod glob;
pub mod text;

pub use charset::CharSet;
pub use estimate::{str_counts, str_len};
pub use expand::{expand, generate_from_glob};
pub use glob::{Glob, ParseError};
