//! The errors that the store reports.

use vstd::prelude::*;

verus! {

/// Why a byte string is not a well-formed log frame.
#[derive(Clone, Copy, Debug, PartialEq, Eq, Structural)]
pub enum WalError {
    /// Fewer bytes than a frame header remain.
    TooShort,
    /// The declared frame length is not the length of the bytes at hand.
    LengthMismatch,
    /// The kind byte names neither an insert nor a remove.
    InvalidKind,
    /// The header and the declared key and value lengths do not add up to
    /// the declared frame length.
    FieldMismatch,
}

/// What can go wrong in the store.
#[derive(Clone, Copy, Debug, PartialEq, Eq, Structural)]
pub enum Error {
    /// A malformed frame was met while the log was replayed.
    Corruption(WalError),
    /// The write buffer's membership filter reports the key as present.
    /// Only the buffer's `set` returns it: the engine's writes go through
    /// the ordered map and replace.
    AlreadyExists,
    /// No table holds the key.
    NotFound,
    /// The entry does not fit into what is left of the block.
    BlockFull,
}

impl WalError {
    /// A short description of the defect.
    pub fn message(&self) -> (text: &'static str)
        ensures
            text@ == (match *self {
                WalError::InvalidKind => "Invalid entry kind value"@,
                _ => "Invalid serialized data length"@,
            }),
    {
        match self {
            WalError::InvalidKind => "Invalid entry kind value",
            _ => "Invalid serialized data length",
        }
    }
}

impl Error {
    /// A short description of the error.
    pub fn message(&self) -> (text: &'static str)
        ensures
            text@ == (match *self {
                Error::Corruption(WalError::InvalidKind) => "Invalid entry kind value"@,
                Error::Corruption(_) => "Invalid serialized data length"@,
                Error::AlreadyExists => "key already exists"@,
                Error::NotFound => "Key not found in SSTable"@,
                Error::BlockFull => "Block is full"@,
            }),
    {
        match self {
            Error::Corruption(defect) => defect.message(),
            Error::AlreadyExists => "key already exists",
            Error::NotFound => "Key not found in SSTable",
            Error::BlockFull => "Block is full",
        }
    }
}

} // verus!
