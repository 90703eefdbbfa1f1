//! The failures of the library's operations.

use vstd::prelude::*;

verus! {

/// Which precondition an operation found broken.
#[derive(Debug, Clone, Copy, PartialEq, Eq, Structural)]
pub enum BcryptError {
    /// A cost outside `4..=31` asked of salt generation.
    InvalidRounds,
    /// A version tag that salt generation does not offer.
    InvalidPrefix,
    /// A salt or hash string that does not parse.
    InvalidSalt,
    /// A password of more than 72 bytes.
    PasswordTooLong,
    /// A key-derivation parameter out of range.
    InvalidInput,
    /// The entropy source could not fill the salt.
    EntropyError,
}

} // verus!
