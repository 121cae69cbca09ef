//! Helpers shared by the domain types.

pub mod base58;
pub mod base64;
pub mod radix;
pub mod string_encoding;
pub mod text;
