//! The ways a store operation can fail, apart from the caller's own I/O errors.

use vstd::prelude::*;

verus! {

/// Why a store operation failed.
#[derive(Clone, Copy, Debug, PartialEq, Eq, Structural)]
pub enum StoreError {
    /// The type has not been registered in this store.
    NotRegistered,
    /// The type's file holds no bytes.
    Empty,
    /// The position names no complete record of the file.
    OutOfRange,
    /// The payload's size differs from the one the type was registered with.
    SizeMismatch,
    /// A record of this payload size would not fit a machine word's range.
    TooLarge,
}

} // verus!
