//! A verified codec for a tag-based binary tree format: a document is one
//! named compound whose entries map names to tagged values, framed on the
//! wire with big-endian integers and length prefixes.
//!
//! The mathematical model lives in `value` (the `Val` model of a tree),
//! `enc` (the canonical encoding and the shape predicates) and `dec` (the
//! meaning of decoding). The executable decoder (`decode`), encoder
//! (`encode`) and pretty printer (`render`) are proved to return exactly
//! what those specifications say. `laws` proves the round-trip facts that
//! tie the two directions together: decoding reads back exactly the
//! canonical encoding of what it returns, every well-formed tree decodes
//! from its own encoding, and a document cut off mid-field always fails
//! with a truncation error.

pub mod be;
pub mod dec;
pub mod decode;
pub mod enc;
pub mod encode;
pub mod err;
pub mod laws;
pub mod render;
pub mod utf8;
pub mod value;

pub use decode::ReadWrapper;
pub use encode::DEFAULT_MAX_DEPTH;
pub use err::NbtError;
pub use value::NBT;
pub use value::Val;
