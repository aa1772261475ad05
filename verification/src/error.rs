//! The error taxonomy of the store.

use vstd::prelude::*;

verus! {

/// Everything that can go wrong while encoding, decoding or looking up an
/// object.
#[derive(Clone, Copy, PartialEq, Eq, Structural, Debug)]
pub enum StoreError {
    /// The requested identifier has no stored object.
    NotFound,
    /// An object header is missing its NUL terminator or its space separator.
    CorruptHeader,
    /// The type token of an object header is not one of the known tags.
    UnknownKind,
    /// The size token of an object header is not a decimal number that fits.
    InvalidSize,
    /// A tree entry is missing its separator or its 20 hash bytes.
    CorruptEntry,
    /// The payload held fewer bytes than the header declared.
    SizeMismatch,
    /// A source delivered more bytes than the remaining declared limit.
    Overrun,
    /// The compressed stream could not be read back.
    IoFailure,
}

} // verus!
