//! The outcomes of vault operations that a caller can tell apart.
use vstd::prelude::*;

verus! {

/// Why a vault operation did not succeed.
///
/// A wrong master secret and a damaged blob give the same variant on purpose:
/// the answer must not tell an attacker which of the two happened.
#[derive(Clone, Copy, Debug, PartialEq, Eq, Structural)]
pub enum VaultError {
    /// The vault file, or the record asked for, does not exist.
    NotFound,
    /// A vault is already stored where a new one was to be created.
    AlreadyExists,
    /// The blob did not authenticate under the key: wrong master secret,
    /// truncated blob, or altered bytes.
    AuthenticationFailed,
    /// The authenticated plaintext is not an encoding of records.
    MalformedRecords,
    /// The key derivation function refused its inputs.
    KeyDerivationFailed,
    /// The plaintext is longer than the cipher accepts.
    PlaintextTooLarge,
    /// Reading, writing or renaming the vault file failed.
    IoFailure,
}

impl VaultError {
    /// A fixed message for the variant. It never holds secret material.
    pub fn message(&self) -> (text: &'static str)
        ensures
            text@ == Self::message_of(*self),
    {
        match self {
            VaultError::NotFound => "not found",
            VaultError::AlreadyExists => "a vault already exists at this path",
            VaultError::AuthenticationFailed => "authentication failed",
            VaultError::MalformedRecords => "the vault's records are malformed",
            VaultError::KeyDerivationFailed => "key derivation failed",
            VaultError::PlaintextTooLarge => "the records are too large to seal",
            VaultError::IoFailure => "reading or writing the vault file failed",
        }
    }

    /// The text of [`VaultError::message`].
    pub open spec fn message_of(e: VaultError) -> Seq<char> {
        match e {
            VaultError::NotFound => "not found"@,
            VaultError::AlreadyExists => "a vault already exists at this path"@,
            VaultError::AuthenticationFailed => "authentication failed"@,
            VaultError::MalformedRecords => "the vault's records are malformed"@,
            VaultError::KeyDerivationFailed => "key derivation failed"@,
            VaultError::PlaintextTooLarge => "the records are too large to seal"@,
            VaultError::IoFailure => "reading or writing the vault file failed"@,
        }
    }
}

} // verus!
