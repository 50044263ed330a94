use vstd::prelude::*;

verus! {

/// Failure taxonomy for wallet operations.
///
/// Nothing is recovered silently: every operation that can fail reports one
/// of these kinds and the caller aborts. `DecryptionFailed` deliberately does
/// not distinguish a wrong password from a corrupted ciphertext.
#[derive(Clone, Copy, Debug, PartialEq, Eq, Structural)]
pub enum Error {
    /// Unrecognized or corrupt on-disk tag or parameters.
    FormatError,
    /// Authentication failure: wrong password or corrupted ciphertext.
    DecryptionFailed,
    /// Checksum or vocabulary failure in a seed phrase.
    InvalidMnemonic,
    /// Fewer distinct shares than the recovery threshold requires.
    InsufficientShares,
    /// A malformed or duplicate-index share.
    InvalidShare,
    /// Filesystem or other resource failure.
    IoError,
    /// Refusal to overwrite an existing file without force.
    AlreadyExists,
}

impl Error {
    /// A short description, for callers that render errors.
    pub fn message(&self) -> &'static str {
        match self {
            Error::FormatError => "unrecognized or corrupt wallet format",
            Error::DecryptionFailed => "decryption failed",
            Error::InvalidMnemonic => "invalid seed phrase",
            Error::InsufficientShares => "not enough key shares",
            Error::InvalidShare => "invalid key share",
            Error::IoError => "io error",
            Error::AlreadyExists => "file already exists",
        }
    }
}

} // verus!
