//! A Base64 codec over the standard alphabet with `=` padding.
//!
//! The codec turns the UTF-8 bytes of a string into groups of four symbols
//! and back.  Every executable function carries a contract over the
//! mathematical model in [`model`]; the relations between encoding and
//! decoding are proved in [`laws`].

pub mod alphabet;
pub mod base64;
pub mod laws;
pub mod model;
pub mod text;

pub use alphabet::{ALPHABET, PADDING};
pub use base64::{Base64, Base64Error};
