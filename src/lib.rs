//! A 64-bit network identifier: an 8-bit kind, a 16-bit node and a 40-bit
//! counter packed into one word, with its byte and text encodings.
pub mod digits;
pub mod layout;
pub mod text;

pub use layout::{NetId64, Triple};
pub use text::ParseError;
