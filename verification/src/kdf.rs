//! From master secret and salt to the key of the cipher.
//!
//! The function is Argon2id, version 0x13, with 19 MiB of memory, two passes
//! and one lane, and an output of 32 bytes. These parameters belong to the
//! format: a vault sealed under them opens under no others.
use vstd::prelude::*;
use vstd::utf8::*;
use vstd::string::StringSliceAdditionalSpecFns;

use crate::error::VaultError;

verus! {

/// The length of a key, in bytes.
pub const KEY_LEN: usize = 32;

/// The shortest salt that the key derivation accepts, in bytes.
pub const MIN_SALT_LEN: usize = 8;

/// The longest secret and the longest salt that the key derivation accepts, in bytes.
pub const MAX_INPUT_LEN: u64 = 0xFFFF_FFFF;

#[verifier::external_type_specification]
#[verifier::external_body]
pub struct ExArgon2Error(argon2::Error);

/// The 32 bytes that Argon2id gives for a secret and a salt under the
/// parameters of this format. Equal inputs give equal bytes.
pub uninterp spec fn argon2id_output(secret: Seq<u8>, salt: Seq<u8>) -> Seq<u8>;

/// The lengths of secret and salt that Argon2 accepts.
pub open spec fn accepted_by_argon2(secret_len: nat, salt_len: nat) -> bool {
    &&& secret_len <= MAX_INPUT_LEN
    &&& MIN_SALT_LEN <= salt_len <= MAX_INPUT_LEN
}

/// `argon2::Argon2::hash_password_into` on `Argon2::default()`, with an output
/// of 32 bytes.
///
/// Believed of it: it refuses a secret or a salt of more than `0xFFFF_FFFF`
/// bytes and a salt of fewer than 8, and nothing else; what it writes depends
/// on the secret and the salt alone.
#[verifier::external_body]
fn argon2id_hash(secret: &[u8], salt: &[u8]) -> (hashed: Result<[u8; 32], argon2::Error>)
    ensures
        hashed is Ok <==> accepted_by_argon2(secret@.len(), salt@.len()),
        hashed matches Ok(out) ==> out@ == argon2id_output(secret@, salt@),
{
    let mut out = [0u8; 32];
    argon2::Argon2::default().hash_password_into(secret, salt, &mut out)?;
    Ok(out)
}

/// A key of the cipher: 32 bytes. It cannot be printed.
#[derive(PartialEq, Eq)]
pub struct Key {
    bytes: [u8; 32],
}

impl View for Key {
    type V = Seq<u8>;

    closed spec fn view(&self) -> Seq<u8> {
        self.bytes@
    }
}

impl Key {
    /// The key made of `bytes`.
    pub fn from_bytes(bytes: [u8; 32]) -> (key: Self)
        ensures
            key@ == bytes@,
            key@.len() == KEY_LEN,
    {
        Key { bytes }
    }

    /// The bytes of the key.
    pub fn as_bytes(&self) -> (bytes: &[u8; 32])
        ensures
            bytes@ == self@,
    {
        &self.bytes
    }
}

/// The key derivation accepts `secret` and `salt`.
pub open spec fn derivable(secret: Seq<char>, salt: Seq<u8>) -> bool {
    accepted_by_argon2(encode_utf8(secret).len(), salt.len())
}

/// The key that belongs to `secret` and `salt`.
pub open spec fn derived_key(secret: Seq<char>, salt: Seq<u8>) -> Seq<u8> {
    argon2id_output(encode_utf8(secret), salt)
}

/// The key in what the hash function gave, or `KeyDerivationFailed` where it refused.
pub fn key_from_hash(hashed: Result<[u8; 32], argon2::Error>) -> (key: Result<Key, VaultError>)
    ensures
        match hashed {
            Ok(out) => key matches Ok(k) && k@ == out@,
            Err(_) => key matches Err(e) && e == VaultError::KeyDerivationFailed,
        },
{
    match hashed {
        Ok(out) => Ok(Key { bytes: out }),
        Err(_) => Err(VaultError::KeyDerivationFailed),
    }
}

/// The key that belongs to `secret` and `salt`: the same key on every call.
///
/// `KeyDerivationFailed` where the salt is shorter than 8 bytes, or the salt
/// or the UTF-8 form of the secret is longer than `0xFFFF_FFFF` bytes.
pub fn derive_key(secret: &str, salt: &[u8]) -> (key: Result<Key, VaultError>)
    ensures
        key is Ok <==> derivable(secret@, salt@),
        key matches Ok(k) ==> k@ == derived_key(secret@, salt@),
        key matches Err(e) ==> e == VaultError::KeyDerivationFailed,
{
    key_from_hash(argon2id_hash(secret.as_bytes(), salt))
}

} // verus!
