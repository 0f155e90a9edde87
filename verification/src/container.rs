//! The sealed blob: `salt || nonce || ciphertext || tag`.
//!
//! The salt (16 bytes) and the nonce (12 bytes) stand in the clear; the rest
//! is what AES-256-GCM makes of the plaintext under the key and the nonce,
//! the 16-byte tag last. Nothing else is in the blob.
use vstd::prelude::*;

use aes_gcm::aead::{Aead, KeyInit};
use rand::RngCore;

use crate::error::VaultError;
use crate::kdf::Key;

verus! {

/// The length of the salt at the start of a blob, in bytes.
pub const SALT_LEN: usize = 16;

/// The length of the nonce that follows the salt, in bytes.
pub const NONCE_LEN: usize = 12;

/// The length of the tag that ends a blob, in bytes.
pub const TAG_LEN: usize = 16;

/// The length of the shortest blob: salt, nonce, and the tag of an empty plaintext.
pub const MIN_BLOB_LEN: usize = 44;

/// The length of the longest plaintext that the cipher seals, in bytes.
pub const MAX_PLAINTEXT_LEN: u64 = 0x10_0000_0000;

#[verifier::external_type_specification]
#[verifier::external_body]
pub struct ExCipherError(aes_gcm::Error);

/// What AES-256-GCM makes of a plaintext under a key and a nonce, without
/// associated data: the ciphertext followed by the tag.
pub uninterp spec fn aes256_gcm_sealed(key: Seq<u8>, nonce: Seq<u8>, plaintext: Seq<u8>) -> Seq<u8>;

/// The plaintext that AES-256-GCM gives back for a ciphertext with its tag
/// under a key and a nonce, or nothing where it does not authenticate.
pub uninterp spec fn aes256_gcm_opened(key: Seq<u8>, nonce: Seq<u8>, sealed: Seq<u8>) -> Option<
    Seq<u8>,
>;

/// `aes_gcm::aead::Aead::encrypt` on `Aes256Gcm`, without associated data.
///
/// Believed of it: it refuses a plaintext of more than 2^36 bytes and nothing
/// else; what it returns depends on key, nonce and plaintext alone, is 16
/// bytes longer than the plaintext, and decrypts under the same key and nonce
/// to the plaintext.
#[verifier::external_body]
fn aes256_gcm_encrypt(key: &[u8; 32], nonce: &[u8; 12], plaintext: &[u8]) -> (sealed: Result<
    Vec<u8>,
    aes_gcm::Error,
>)
    ensures
        sealed is Ok <==> plaintext@.len() <= MAX_PLAINTEXT_LEN,
        sealed matches Ok(s) ==> s@ == aes256_gcm_sealed(key@, nonce@, plaintext@),
        sealed matches Ok(s) ==> s@.len() == plaintext@.len() + TAG_LEN,
        sealed matches Ok(s) ==> aes256_gcm_opened(key@, nonce@, s@) == Some(plaintext@),
{
    let cipher = aes_gcm::Aes256Gcm::new(key.into());
    cipher.encrypt(nonce.into(), plaintext)
}

/// `aes_gcm::aead::Aead::decrypt` on `Aes256Gcm`, without associated data.
///
/// Believed of it: whether it returns a plaintext, and which, depends on key,
/// nonce and input alone; a plaintext that it returns is 16 bytes shorter
/// than the input.
#[verifier::external_body]
fn aes256_gcm_decrypt(key: &[u8; 32], nonce: &[u8; 12], sealed: &[u8]) -> (opened: Result<
    Vec<u8>,
    aes_gcm::Error,
>)
    ensures
        match aes256_gcm_opened(key@, nonce@, sealed@) {
            Some(plaintext) => opened matches Ok(p) && p@ == plaintext,
            None => opened is Err,
        },
        opened matches Ok(p) ==> p@.len() + TAG_LEN == sealed@.len(),
{
    let cipher = aes_gcm::Aes256Gcm::new(key.into());
    cipher.decrypt(nonce.into(), sealed)
}

/// `rand::RngCore::fill_bytes` on `rand::thread_rng()`: `N` bytes from the
/// thread's cryptographically secure generator. Nothing is known of them.
#[verifier::external_body]
pub(crate) fn random_bytes<const N: usize>() -> [u8; N] {
    let mut out = [0u8; N];
    rand::thread_rng().fill_bytes(&mut out);
    out
}

/// The salt of a blob: its first 16 bytes.
pub open spec fn blob_salt(blob: Seq<u8>) -> Seq<u8> {
    blob.subrange(0, SALT_LEN as int)
}

/// The nonce of a blob: the 12 bytes after the salt.
pub open spec fn blob_nonce(blob: Seq<u8>) -> Seq<u8> {
    blob.subrange(SALT_LEN as int, SALT_LEN + NONCE_LEN)
}

/// What the cipher made: the bytes of a blob after salt and nonce.
pub open spec fn blob_sealed(blob: Seq<u8>) -> Seq<u8> {
    blob.subrange(SALT_LEN + NONCE_LEN, blob.len() as int)
}

/// The blob made of its three parts.
pub open spec fn framed(salt: Seq<u8>, nonce: Seq<u8>, sealed: Seq<u8>) -> Seq<u8> {
    salt + nonce + sealed
}

/// The blob that holds `plaintext` sealed under `key` and `nonce`, with `salt` in front.
pub open spec fn seal_spec(salt: Seq<u8>, nonce: Seq<u8>, key: Seq<u8>, plaintext: Seq<u8>) -> Seq<
    u8,
> {
    framed(salt, nonce, aes256_gcm_sealed(key, nonce, plaintext))
}

/// The plaintext of a blob under `key`, or nothing where the blob is too
/// short to hold a tag or does not authenticate.
pub open spec fn open_spec(blob: Seq<u8>, key: Seq<u8>) -> Option<Seq<u8>> {
    if blob.len() < MIN_BLOB_LEN {
        None
    } else {
        aes256_gcm_opened(key, blob_nonce(blob), blob_sealed(blob))
    }
}

/// A blob is taken apart into the parts it was made of.
pub proof fn lemma_parts_of_framed(salt: Seq<u8>, nonce: Seq<u8>, sealed: Seq<u8>)
    requires
        salt.len() == SALT_LEN,
        nonce.len() == NONCE_LEN,
    ensures
        blob_salt(framed(salt, nonce, sealed)) == salt,
        blob_nonce(framed(salt, nonce, sealed)) == nonce,
        blob_sealed(framed(salt, nonce, sealed)) == sealed,
        framed(salt, nonce, sealed).len() == SALT_LEN + NONCE_LEN + sealed.len(),
{
    let blob = framed(salt, nonce, sealed);
    assert(blob_salt(blob) =~= salt);
    assert(blob_nonce(blob) =~= nonce);
    assert(blob_sealed(blob) =~= sealed);
}

/// The blob made of `salt`, `nonce` and what the cipher returned, or
/// `PlaintextTooLarge` where the cipher refused.
pub fn frame_sealed(
    salt: &[u8; 16],
    nonce: &[u8; 12],
    sealed: Result<Vec<u8>, aes_gcm::Error>,
) -> (blob: Result<Vec<u8>, VaultError>)
    ensures
        match sealed {
            Ok(s) => blob matches Ok(b) && b@ == framed(salt@, nonce@, s@),
            Err(_) => blob matches Err(e) && e == VaultError::PlaintextTooLarge,
        },
{
    match sealed {
        Ok(s) => {
            let mut out: Vec<u8> = Vec::new();
            out.extend_from_slice(salt.as_slice());
            out.extend_from_slice(nonce.as_slice());
            out.extend_from_slice(s.as_slice());
            assert(out@ =~= framed(salt@, nonce@, s@));
            Ok(out)
        },
        Err(_) => Err(VaultError::PlaintextTooLarge),
    }
}

/// Seals `plaintext` under `key` and the given `nonce`, and puts `salt` in front.
///
/// A nonce must never serve twice under one key: [`seal`] draws a fresh one.
/// `PlaintextTooLarge` where the plaintext is longer than 2^36 bytes.
pub fn seal_with_nonce(plaintext: &[u8], key: &Key, salt: &[u8; 16], nonce: &[u8; 12]) -> (blob:
    Result<Vec<u8>, VaultError>)
    ensures
        blob is Ok <==> plaintext@.len() <= MAX_PLAINTEXT_LEN,
        blob matches Ok(b) ==> b@ == seal_spec(salt@, nonce@, key@, plaintext@),
        blob matches Ok(b) ==> b@.len() == plaintext@.len() + MIN_BLOB_LEN,
        blob matches Ok(b) ==> open_spec(b@, key@) == Some(plaintext@),
        blob matches Err(e) ==> e == VaultError::PlaintextTooLarge,
{
    let sealed = aes256_gcm_encrypt(key.as_bytes(), nonce, plaintext);
    proof {
        if sealed is Ok {
            lemma_parts_of_framed(salt@, nonce@, sealed->Ok_0@);
        }
    }
    frame_sealed(salt, nonce, sealed)
}

/// Seals `plaintext` under `key` and a nonce drawn afresh from the secure
/// random source, and puts `salt` in front.
///
/// The blob opens under `key` to `plaintext`.
/// `PlaintextTooLarge` where the plaintext is longer than 2^36 bytes.
pub fn seal(plaintext: &[u8], key: &Key, salt: &[u8; 16]) -> (blob: Result<Vec<u8>, VaultError>)
    ensures
        blob is Ok <==> plaintext@.len() <= MAX_PLAINTEXT_LEN,
        blob matches Ok(b) ==> b@ == seal_spec(salt@, blob_nonce(b@), key@, plaintext@),
        blob matches Ok(b) ==> b@.len() == plaintext@.len() + MIN_BLOB_LEN,
        blob matches Ok(b) ==> blob_salt(b@) == salt@,
        blob matches Ok(b) ==> open_spec(b@, key@) == Some(plaintext@),
        blob matches Err(e) ==> e == VaultError::PlaintextTooLarge,
{
    let nonce: [u8; 12] = random_bytes();
    let blob = seal_with_nonce(plaintext, key, salt, &nonce);
    proof {
        if blob is Ok {
            lemma_parts_of_framed(salt@, nonce@, aes256_gcm_sealed(key@, nonce@, plaintext@));
        }
    }
    blob
}

/// The plaintext that the cipher returned, or `AuthenticationFailed` where it refused.
pub fn plaintext_of(opened: Result<Vec<u8>, aes_gcm::Error>) -> (plaintext: Result<
    Vec<u8>,
    VaultError,
>)
    ensures
        match opened {
            Ok(p) => plaintext matches Ok(q) && q@ == p@,
            Err(_) => plaintext matches Err(e) && e == VaultError::AuthenticationFailed,
        },
{
    match opened {
        Ok(p) => Ok(p),
        Err(_) => Err(VaultError::AuthenticationFailed),
    }
}

/// The salt of `blob`, or `AuthenticationFailed` where `blob` is shorter than 44 bytes.
pub fn stored_salt(blob: &[u8]) -> (salt: Result<[u8; 16], VaultError>)
    ensures
        match salt {
            Ok(s) => blob@.len() >= MIN_BLOB_LEN && s@ == blob_salt(blob@),
            Err(e) => blob@.len() < MIN_BLOB_LEN && e == VaultError::AuthenticationFailed,
        },
{
    if blob.len() < MIN_BLOB_LEN {
        return Err(VaultError::AuthenticationFailed);
    }
    let mut salt = [0u8; 16];
    let mut i: usize = 0;
    while i < SALT_LEN
        invariant
            i <= SALT_LEN,
            blob@.len() >= MIN_BLOB_LEN,
            forall|j: int| 0 <= j < i ==> salt@[j] == blob@[j],
        decreases SALT_LEN - i,
    {
        salt[i] = blob[i];
        i += 1;
    }
    assert(salt@ =~= blob_salt(blob@));
    Ok(salt)
}

fn stored_nonce(blob: &[u8]) -> (nonce: [u8; 12])
    requires
        blob@.len() >= MIN_BLOB_LEN,
    ensures
        nonce@ == blob_nonce(blob@),
{
    let mut nonce = [0u8; 12];
    let mut i: usize = 0;
    while i < NONCE_LEN
        invariant
            i <= NONCE_LEN,
            blob@.len() >= MIN_BLOB_LEN,
            forall|j: int| 0 <= j < i ==> nonce@[j] == blob@[SALT_LEN + j],
        decreases NONCE_LEN - i,
    {
        nonce[i] = blob[SALT_LEN + i];
        i += 1;
    }
    assert(nonce@ =~= blob_nonce(blob@));
    nonce
}

/// The plaintext of `blob` under `key`.
///
/// Fails closed: a blob shorter than 44 bytes, a wrong key and altered bytes
/// all give `AuthenticationFailed`, and no part of a plaintext with it.
pub fn open(blob: &[u8], key: &Key) -> (plaintext: Result<Vec<u8>, VaultError>)
    ensures
        match open_spec(blob@, key@) {
            Some(p) => plaintext matches Ok(q) && q@ == p,
            None => plaintext matches Err(e) && e == VaultError::AuthenticationFailed,
        },
        plaintext matches Ok(q) ==> q@.len() + MIN_BLOB_LEN == blob@.len(),
{
    if blob.len() < MIN_BLOB_LEN {
        return Err(VaultError::AuthenticationFailed);
    }
    let nonce = stored_nonce(blob);
    let sealed = vstd::slice::slice_subrange(blob, SALT_LEN + NONCE_LEN, blob.len());
    plaintext_of(aes256_gcm_decrypt(key.as_bytes(), &nonce, sealed))
}

} // verus!
