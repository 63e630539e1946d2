//! Reader for the PLY polygon file format: a text header that declares
//! elements and their typed properties, followed by a payload in ASCII or in
//! big- or little-endian binary, decoded according to that header.

pub mod ascii;
pub mod binary;
pub mod canonical;
pub mod error;
pub mod grammar;
pub mod header;
pub mod key_map;
pub mod parser;
pub mod ply;
pub mod stream;
pub mod util;
