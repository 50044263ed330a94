//! Trusted boundary to the cryptographic primitives.
//!
//! Every function here is an `external_body` wrapper around one function of
//! an outside crate.  The contracts state only what those crates' sources and
//! documentation show; results that take pages to state (a digest, a derived
//! key) are given uninterpreted names instead.

use vstd::prelude::*;

use crate::error::Error;
use aes_gcm::aead::Aead;
use aes_gcm::{Aes256Gcm, KeyInit};
use sha2::Digest;

verus! {

/// The Argon2id (version 0x13) key of a password under a salt and cost
/// parameters, 32 bytes long.  A pure function of its arguments.
pub uninterp spec fn argon2id_key(password: Seq<u8>, salt: Seq<u8>, t_cost: u32, m_cost: u32) -> Seq<u8>;

/// The AES-256-GCM ciphertext (with appended tag) of a plaintext under a key
/// and nonce.  A pure function of its arguments.
pub uninterp spec fn aead_seal(key: Seq<u8>, nonce: Seq<u8>, plaintext: Seq<u8>) -> Seq<u8>;

/// The AES-256-GCM decryption of a ciphertext under a key and nonce: the
/// plaintext when the tag authenticates, `None` otherwise.
pub uninterp spec fn aead_open(key: Seq<u8>, nonce: Seq<u8>, ciphertext: Seq<u8>) -> Option<Seq<u8>>;

/// The Ed25519 public key derived from a 32-byte secret seed.
pub uninterp spec fn ed25519_public(seed: Seq<u8>) -> Seq<u8>;

/// The SHA-256 digest of a byte string, 32 bytes long.
pub uninterp spec fn sha256_of(data: Seq<u8>) -> Seq<u8>;

/// The Base58 rendering (Bitcoin alphabet) of a byte string.
pub uninterp spec fn base58_of(data: Seq<u8>) -> Seq<char>;

/// Relies on getrandom::fill: fills a buffer from the operating system's
/// secure random source.  Nothing is claimed of the value.
#[verifier::external_body]
pub fn random_bytes(n: usize) -> (r: Result<Vec<u8>, Error>)
    ensures
        r matches Ok(v) ==> v@.len() == n,
        r matches Err(e) ==> e == Error::IoError,
{
    let mut buf = vec![0u8; n];
    match getrandom::fill(&mut buf) {
        Ok(()) => Ok(buf),
        Err(_) => Err(Error::IoError),
    }
}

/// Relies on argon2::Argon2::hash_password_into with Algorithm::Argon2id and
/// Version::V0x13: a deterministic, memory-hard key derivation.  The `Err`
/// case is reachable only when the working memory cannot be allocated.
#[verifier::external_body]
pub fn argon2id_derive(password: &[u8], salt: &Vec<u8>, t_cost: u32, m_cost: u32) -> (r: Result<
    Vec<u8>,
    Error,
>)
    requires
        salt@.len() == 16,
        t_cost >= 1,
        m_cost >= 8,
        password@.len() <= 0xffff_ffff,
    ensures
        r matches Ok(v) ==> v@ == argon2id_key(password@, salt@, t_cost, m_cost) && v@.len() == 32,
        r matches Err(e) ==> e == Error::IoError,
{
    let params = match argon2::Params::new(m_cost, t_cost, 1, Some(32)) {
        Ok(p) => p,
        Err(_) => return Err(Error::IoError),
    };
    let ctx = argon2::Argon2::new(argon2::Algorithm::Argon2id, argon2::Version::V0x13, params);
    let mut out = vec![0u8; 32];
    match ctx.hash_password_into(password, salt.as_slice(), &mut out) {
        Ok(()) => Ok(out),
        Err(_) => Err(Error::IoError),
    }
}

/// Relies on aes_gcm::Aes256Gcm (the aead::Aead trait): authenticated
/// encryption appending a 16-byte tag, whose own decryption returns exactly
/// the sealed plaintext.
#[verifier::external_body]
pub fn aead_encrypt(key: &Vec<u8>, nonce: &Vec<u8>, plaintext: &Vec<u8>) -> (r: Vec<u8>)
    requires
        key@.len() == 32,
        nonce@.len() == 12,
        plaintext@.len() <= 0xffff,
    ensures
        r@ == aead_seal(key@, nonce@, plaintext@),
        r@.len() == plaintext@.len() + 16,
        aead_open(key@, nonce@, r@) == Some(plaintext@),
{
    let cipher = match Aes256Gcm::new_from_slice(key.as_slice()) {
        Ok(c) => c,
        Err(_) => return Vec::new(),
    };
    let nonce_arr: [u8; 12] = match nonce.as_slice().try_into() {
        Ok(a) => a,
        Err(_) => return Vec::new(),
    };
    match cipher.encrypt(&aes_gcm::Nonce::from(nonce_arr), plaintext.as_slice()) {
        Ok(ct) => ct,
        Err(_) => Vec::new(),
    }
}

/// Relies on aes_gcm::Aes256Gcm (the aead::Aead trait): decryption succeeds
/// exactly when the authentication tag verifies, and then returns the sealed
/// plaintext.
#[verifier::external_body]
pub fn aead_decrypt(key: &Vec<u8>, nonce: &Vec<u8>, ciphertext: &Vec<u8>) -> (r: Result<
    Vec<u8>,
    Error,
>)
    requires
        key@.len() == 32,
        nonce@.len() == 12,
    ensures
        r is Ok <==> aead_open(key@, nonce@, ciphertext@) is Some,
        r matches Ok(v) ==> aead_open(key@, nonce@, ciphertext@) == Some(v@),
        r matches Err(e) ==> e == Error::DecryptionFailed,
{
    let cipher = match Aes256Gcm::new_from_slice(key.as_slice()) {
        Ok(c) => c,
        Err(_) => return Err(Error::DecryptionFailed),
    };
    let nonce_arr: [u8; 12] = match nonce.as_slice().try_into() {
        Ok(a) => a,
        Err(_) => return Err(Error::DecryptionFailed),
    };
    match cipher.decrypt(&aes_gcm::Nonce::from(nonce_arr), ciphertext.as_slice()) {
        Ok(pt) => Ok(pt),
        Err(_) => Err(Error::DecryptionFailed),
    }
}

/// Relies on ed25519_dalek::SigningKey::from_bytes and verifying_key:
/// deterministic public-key derivation from a 32-byte seed.
#[verifier::external_body]
pub fn ed25519_public_key(seed: &Vec<u8>) -> (r: Vec<u8>)
    requires
        seed@.len() == 32,
    ensures
        r@ == ed25519_public(seed@),
        r@.len() == 32,
{
    let arr: [u8; 32] = match seed.as_slice().try_into() {
        Ok(a) => a,
        Err(_) => return Vec::new(),
    };
    let signing = ed25519_dalek::SigningKey::from_bytes(&arr);
    signing.verifying_key().to_bytes().to_vec()
}

/// Relies on sha2::Sha256: the SHA-256 digest, a pure function of the input.
#[verifier::external_body]
pub fn sha256_digest(data: &Vec<u8>) -> (r: Vec<u8>)
    ensures
        r@ == sha256_of(data@),
        r@.len() == 32,
{
    sha2::Sha256::digest(data.as_slice()).to_vec()
}

/// Relies on bs58::encode: the Base58 rendering under the Bitcoin alphabet,
/// a pure function of the input.
#[verifier::external_body]
pub fn base58_encode(data: &Vec<u8>) -> (r: String)
    ensures
        r@ == base58_of(data@),
{
    bs58::encode(data.as_slice()).into_string()
}

} // verus!
