//! Packed binary record layouts: a small schema language, a layout table
//! with recursive size computation, and a little-endian value codec.
//!
//! - `syntax` and `parser`: schema text to a layout table (`Expr::parse`).
//! - `layout`: the table, name and id lookups, recursive sizes.
//! - `value`: the value tree and its encoding.
//! - `decode`: reading a value of a layout from bytes.
//! - `builder`: building a value of a layout from its leaves.
//! - `laws`: how encoding, decoding and sizes fit together.
//! - `hex`: hexadecimal rendering of bytes.

pub mod hex;
pub mod layout;
pub mod value;
pub mod decode;
pub mod laws;
pub mod syntax;
pub mod parser;
pub mod builder;
