//! The error taxonomy shared by the decoder, the encoder and the accessors.

use vstd::prelude::*;

verus! {

/// Everything that can go wrong while decoding bytes into a tree, encoding a
/// tree into bytes, or narrowing a value to the wrong variant.
#[derive(Clone, Copy, Debug, PartialEq, Eq, Structural)]
pub enum NbtError {
    /// An underlying read or write failed. The in-memory codec never
    /// produces this; callers that feed it from files or sockets map their
    /// transport failures to this variant.
    Io,
    /// Fewer bytes were available than a fixed-width field or a declared
    /// length demanded.
    Truncated,
    /// A name or string payload was not valid UTF-8.
    InvalidText,
    /// A tag id outside the known range stood where a value was expected,
    /// or an end marker stood where a value was expected.
    UnknownTag,
    /// Two entries of one compound shared a name.
    DuplicateKey,
    /// An accessor was used against a value of the wrong variant, or a
    /// non-compound value was given as a document root.
    TypeMismatch,
    /// A list held elements that do not all share the list's element tag.
    HeterogeneousList,
    /// The nesting of compounds and lists exceeded the permitted depth.
    DepthLimit,
}

} // verus!
