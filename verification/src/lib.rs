//! Byte buffers as hexadecimal text, and back.
//!
//! Encoding turns a byte buffer into lowercase hex digits behind the marker
//! `0x`, either keeping every byte or trimming leading zeros the way unsigned
//! integers are written. Decoding reads such text, with or without the
//! marker and with blanks between digits, into a buffer of exactly the
//! length the digits call for. Every function is specified against a small
//! mathematical model of text as a sequence of bytes.

pub mod adapter;
pub mod decode;
pub mod encode;
pub mod error;
pub mod laws;
pub mod length;
pub mod message;
pub mod text;

pub use crate::adapter::{deserialize, deserialize_check_len, Content, Representation};
pub use crate::decode::{from_hex, from_hex_raw};
pub use crate::encode::{serialize, serialize_raw, serialize_uint, to_hex, to_hex_raw};
pub use crate::error::FromHexError;
pub use crate::length::{ExpectedLen, LengthBound};
