//! A reversible packing of 7-bit bytes into multi-byte UTF-8 code points.
//!
//! Two bytes of ASCII text become one code point of three or four bytes; an
//! odd trailing byte becomes a code point of its own, marked by a flag bit.
//! This is no cryptography: the packing has no key, and anyone can undo it.
//!
//! There are three families of layouts, each with its own trait:
//!
//! - [`algorithm`]: layouts that take the two bytes of a pair apart, driven
//!   by the struct [`algorithm::Cipher`] and by [`encrypt::Encrypter`] and
//!   [`decrypt::Decrypter`]. A unit of one byte keeps the seventh bit of
//!   that byte in the lowest bit of its lead.
//! - [`cipher`]: layouts that take a pair as one value, with the transforms
//!   as methods of the trait [`cipher::Cipher`]. A unit of one byte keeps
//!   the seventh bit where a unit of two bytes has that of its first byte.
//!   The two families agree on every unit of two bytes.
//! - [`cipherv2`]: layouts that pack a pair into one character of any
//!   width, and mark nothing: a zero byte stands in for a missing one.
//!
//! [`transform`] states what packing and unpacking a whole input give, and
//! proves what holds of them for every layout of the first two families.

pub mod algorithm;
pub mod cipher;
pub mod cipherv2;
pub mod decrypt;
pub mod encrypt;
pub mod error;
pub mod sink;
pub mod source;
pub mod text;
pub mod transform;
