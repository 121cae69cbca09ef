//! Fixed-length binary identifiers and their reversible text encodings.

pub mod identifier;
pub mod util;
