//! An encrypted credential vault.
//!
//! The vault is a single sealed blob: `salt || nonce || ciphertext || tag`.
//! A master secret and the stored salt give the key (Argon2id), the key and a
//! fresh nonce seal the encoded records (AES-256-GCM).
//!
//! Modules, leaf first:
//! - [`error`]: the outcomes a caller can tell apart;
//! - [`record`]: credential records and their ordered collection;
//! - [`codec`]: the byte encoding of a collection and its inverse;
//! - [`kdf`]: master secret and salt to key;
//! - [`container`]: sealing and opening of the blob;
//! - [`vault`]: the store operations, built from the others.
pub mod error;
pub mod record;
pub mod codec;
pub mod kdf;
pub mod container;
pub mod vault;
