use vstd::prelude::*;

verus! {

/// What a storage read, or the reading of an outside value, can fail with.
#[derive(Clone, Copy, Debug, PartialEq, Eq, Structural)]
pub enum Error {
    /// A store failed an I/O read.
    StorageUnavailable,
    /// A relay record could not be decoded.
    CorruptRelayRecord,
    /// A string is no relay URL.
    InvalidUrl,
    /// A string is no public key.
    InvalidPublicKey,
    /// A tag is not of the kind it was read as.
    TagMismatch,
}

} // verus!
