//! Encrypted wallet envelopes for a blockchain account.
//!
//! A wallet owns a keypair whose private half is kept at rest under a
//! password: a memory-hard password hash derives a symmetric key, an
//! authenticated cipher seals the key material, and a versioned binary
//! envelope carries everything needed to decrypt it again.  A sharded
//! wallet additionally blinds the symmetric key with a random secret that
//! is split into N shares of which any K recover it.

pub mod bytes;
pub mod create;
pub mod crypto;
pub mod error;
pub mod format;
pub mod keypair;
pub mod mnemonic;
pub mod pwhash;
pub mod sss;
pub mod upgrade;
pub mod wallet;
pub mod words;
