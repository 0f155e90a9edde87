//! The vault store: create, open, change and seal again.
//!
//! The functions here work on what the vault file holds, never on the file:
//! the caller reads the bytes and hands them in, and writes the bytes that
//! come back. Decrypted records exist only in a [`VaultHandle`].
use vstd::prelude::*;
use vstd::utf8::*;

use crate::codec::{decode, decode_spec, encode, encode_spec, lemma_decode_of_encode};
use crate::container::{
    blob_salt, open_spec, random_bytes, seal, stored_salt, MAX_PLAINTEXT_LEN, MIN_BLOB_LEN,
};
use crate::error::VaultError;
use crate::kdf::{derivable, derive_key, derived_key, MAX_INPUT_LEN};
use crate::record::{
    is_first_match, none_named, views_of, CredentialRecord, RecordView, VaultContents,
};

verus! {

/// What a handle is: the records, and the salt of the vault they came from.
pub struct HandleView {
    pub records: Seq<RecordView>,
    pub salt: Seq<u8>,
}

/// An opened vault: its records in memory, and the salt it was created with.
///
/// The salt never changes: sealing the handle again puts the same salt in
/// front, so the same master secret gives the same key.
#[derive(PartialEq, Eq)]
pub struct VaultHandle {
    contents: VaultContents,
    salt: [u8; 16],
}

impl View for VaultHandle {
    type V = HandleView;

    closed spec fn view(&self) -> HandleView {
        HandleView { records: self.contents@, salt: self.salt@ }
    }
}

/// What a blob holds for the bearer of `secret`: the records, or why not.
///
/// A blob too short to hold a tag, a wrong secret and altered bytes all give
/// `AuthenticationFailed`; `MalformedRecords` comes only after the blob has
/// authenticated.
pub open spec fn vault_of(blob: Seq<u8>, secret: Seq<char>) -> Result<Seq<RecordView>, VaultError> {
    if blob.len() < MIN_BLOB_LEN {
        Err(VaultError::AuthenticationFailed)
    } else if !derivable(secret, blob_salt(blob)) {
        Err(VaultError::KeyDerivationFailed)
    } else {
        match open_spec(blob, derived_key(secret, blob_salt(blob))) {
            None => Err(VaultError::AuthenticationFailed),
            Some(plaintext) => match decode_spec(plaintext) {
                None => Err(VaultError::MalformedRecords),
                Some(records) => Ok(records),
            },
        }
    }
}

/// The blob of a new, empty vault under `master_secret` and the given `salt`.
///
/// `AlreadyExists` where the path is `occupied`; `KeyDerivationFailed` where
/// the UTF-8 form of the secret is longer than `0xFFFF_FFFF` bytes.
pub fn init_with_salt(occupied: bool, master_secret: &str, salt: &[u8; 16]) -> (created: Result<
    Vec<u8>,
    VaultError,
>)
    ensures
        match created {
            Ok(blob) => {
                &&& !occupied
                &&& blob@.len() == MIN_BLOB_LEN + 8
                &&& blob_salt(blob@) == salt@
                &&& vault_of(blob@, master_secret@) == Ok::<Seq<RecordView>, VaultError>(
                    Seq::empty(),
                )
            },
            Err(e) => if occupied {
                e == VaultError::AlreadyExists
            } else {
                e == VaultError::KeyDerivationFailed && encode_utf8(master_secret@).len()
                    > MAX_INPUT_LEN
            },
        },
{
    if occupied {
        return Err(VaultError::AlreadyExists);
    }
    let key = derive_key(master_secret, salt.as_slice())?;
    let empty = VaultContents::new();
    let plaintext = encode(&empty);
    proof {
        crate::codec::lemma_encoding_len(empty@);
        lemma_decode_of_encode(empty@, Seq::empty());
        assert(plaintext@ + Seq::<u8>::empty() =~= plaintext@);
    }
    let sealed = seal(plaintext.as_slice(), &key, salt);
    sealed
}

/// The blob of a new, empty vault under `master_secret`, with a salt drawn
/// afresh from the secure random source.
///
/// `AlreadyExists` where the path is `occupied`; `KeyDerivationFailed` where
/// the UTF-8 form of the secret is longer than `0xFFFF_FFFF` bytes.
pub fn init(occupied: bool, master_secret: &str) -> (created: Result<Vec<u8>, VaultError>)
    ensures
        match created {
            Ok(blob) => {
                &&& !occupied
                &&& blob@.len() == MIN_BLOB_LEN + 8
                &&& vault_of(blob@, master_secret@) == Ok::<Seq<RecordView>, VaultError>(
                    Seq::empty(),
                )
            },
            Err(e) => if occupied {
                e == VaultError::AlreadyExists
            } else {
                e == VaultError::KeyDerivationFailed && encode_utf8(master_secret@).len()
                    > MAX_INPUT_LEN
            },
        },
{
    if occupied {
        return Err(VaultError::AlreadyExists);
    }
    let salt: [u8; 16] = random_bytes();
    init_with_salt(false, master_secret, &salt)
}

/// Opens what the vault's path holds with `master_secret`.
///
/// `NotFound` where the path holds nothing; otherwise what [`vault_of`] says
/// of the bytes.
pub fn open(stored: Option<&[u8]>, master_secret: &str) -> (opened: Result<VaultHandle, VaultError>)
    ensures
        match stored {
            None => opened matches Err(e) && e == VaultError::NotFound,
            Some(blob) => match vault_of(blob@, master_secret@) {
                Ok(records) => opened matches Ok(handle) && handle@.records == records
                    && handle@.salt == blob_salt(blob@),
                Err(why) => opened matches Err(e) && e == why,
            },
        },
{
    let blob = match stored {
        None => { return Err(VaultError::NotFound); },
        Some(blob) => blob,
    };
    let salt = stored_salt(blob)?;
    let key = derive_key(master_secret, salt.as_slice())?;
    let plaintext = crate::container::open(blob, &key)?;
    let contents = decode(plaintext.as_slice())?;
    Ok(VaultHandle { contents, salt })
}

impl VaultHandle {
    /// Appends `record` in memory. Nothing is sealed or written: that is
    /// [`VaultHandle::persist`].
    pub fn add(&mut self, record: CredentialRecord)
        ensures
            final(self)@.records == old(self)@.records.push(record@),
            final(self)@.salt == old(self)@.salt,
    {
        self.contents.add(record);
    }

    /// The records in insertion order.
    pub fn list(&self) -> (records: &[CredentialRecord])
        ensures
            views_of(records@) == self@.records,
    {
        self.contents.list()
    }

    /// The salt that the vault was created with.
    pub fn salt(&self) -> (salt: &[u8; 16])
        ensures
            salt@ == self@.salt,
    {
        &self.salt
    }

    /// The first record called `name`, or `NotFound` where no record has that name.
    pub fn find(&self, name: &str) -> (found: Result<&CredentialRecord, VaultError>)
        ensures
            match found {
                Ok(record) => is_first_match(self@.records, name@, record@),
                Err(e) => e == VaultError::NotFound && none_named(self@.records, name@),
            },
    {
        self.contents.find(name)
    }

    /// The blob that holds the records as they are now, sealed under
    /// `master_secret` and the vault's own salt, with a fresh nonce.
    ///
    /// The blob opens under `master_secret` to exactly these records.
    /// `KeyDerivationFailed` where the UTF-8 form of the secret is longer than
    /// `0xFFFF_FFFF` bytes; otherwise `PlaintextTooLarge` where the encoded
    /// records are longer than 2^36 bytes.
    pub fn persist(&self, master_secret: &str) -> (sealed: Result<Vec<u8>, VaultError>)
        ensures
            match sealed {
                Ok(blob) => {
                    &&& blob@.len() == MIN_BLOB_LEN + encode_spec(self@.records).len()
                    &&& blob_salt(blob@) == self@.salt
                    &&& vault_of(blob@, master_secret@) == Ok::<Seq<RecordView>, VaultError>(
                        self@.records,
                    )
                },
                Err(e) => if encode_utf8(master_secret@).len() > MAX_INPUT_LEN {
                    e == VaultError::KeyDerivationFailed
                } else {
                    e == VaultError::PlaintextTooLarge && encode_spec(self@.records).len()
                        > MAX_PLAINTEXT_LEN
                },
            },
    {
        let key = derive_key(master_secret, self.salt.as_slice())?;
        let plaintext = encode(&self.contents);
        proof {
            lemma_decode_of_encode(self@.records, Seq::empty());
            assert(plaintext@ + Seq::<u8>::empty() =~= plaintext@);
        }
        let sealed = seal(plaintext.as_slice(), &key, &self.salt);
        sealed
    }
}

} // verus!
