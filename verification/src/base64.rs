//! The base64 text encoding of bytes, with the standard alphabet.

pub mod decode;
pub mod encode;
pub mod laws;
