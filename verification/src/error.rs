//! The ways in which decoding or encoding a container can fail.

use vstd::prelude::*;

verus! {

/// A recoverable failure of a codec operation.
#[derive(Clone, Copy, Debug, PartialEq, Eq, Structural)]
pub enum Error {
    /// The input ended before the bytes that a field needs were available.
    UnexpectedEof,
    /// A null-terminated string is not valid UTF-8.
    InvalidText,
    /// A four-byte format tag does not hold the expected magic.
    BadMagic,
    /// A face record declares a vertex count other than 3 or 4.
    BadVertexCount,
    /// A metadata marker header stands somewhere else than in first position.
    MisplacedExtensions,
    /// A payload is longer than a 32-bit size field can record.
    PayloadTooLarge,
}

} // verus!
