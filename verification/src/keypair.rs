//! Keypairs and their account addresses.
//!
//! A keypair owns a 32-byte secret seed and the Ed25519 public key derived
//! from it.  The address is a one-way rendering of the public key alone:
//! version byte, public key, then a four-byte double-SHA-256 checksum, all
//! Base58 encoded.  Deriving it never needs a password or the secret.

use vstd::prelude::*;

use crate::bytes::copy_vec;
use crate::crypto::{
    base58_encode, base58_of, ed25519_public, ed25519_public_key, random_bytes, sha256_digest,
    sha256_of,
};
use crate::error::Error;

verus! {

/// 32 bytes of entropy, used only to construct a keypair and never itself
/// serialized.
pub struct Seed(pub Vec<u8>);

/// The version byte that prefixes an address payload.
pub const ADDRESS_VERSION: u8 = 0;

/// The bytes an address encodes: version, public key, four checksum bytes.
pub open spec fn address_bytes(public_key: Seq<u8>) -> Seq<u8> {
    let payload = seq![ADDRESS_VERSION] + public_key;
    payload + sha256_of(sha256_of(payload)).subrange(0, 4)
}

/// The address of a public key: the Base58 rendering of `address_bytes`.
pub open spec fn address_chars(public_key: Seq<u8>) -> Seq<char> {
    base58_of(address_bytes(public_key))
}

/// A public/private key pair.  Immutable after creation; the secret half is
/// never persisted in plaintext.
pub struct Keypair {
    /// The 32-byte secret seed.
    pub secret: Vec<u8>,
    /// The derived Ed25519 public key.
    pub public: Vec<u8>,
}

impl Keypair {
    /// The public key is exactly the one the secret seed derives.
    pub open spec fn wf(&self) -> bool {
        self.secret@.len() == 32 && self.public@.len() == 32 && self.public@ == ed25519_public(
            self.secret@,
        )
    }

    /// Deterministic derivation: the same seed always yields the same
    /// keypair, which wallet recovery from recorded seed words relies on.
    pub fn gen_keypair_from_seed(seed: &Seed) -> (r: Keypair)
        requires
            seed.0@.len() == 32,
        ensures
            r.wf(),
            r.secret@ == seed.0@,
    {
        let public = ed25519_public_key(&seed.0);
        Keypair { secret: copy_vec(&seed.0), public }
    }

    /// Fresh generation from the secure random source; never reproducible.
    pub fn gen_keypair() -> (r: Result<Keypair, Error>)
        ensures
            r matches Ok(k) ==> k.wf(),
            r matches Err(e) ==> e == Error::IoError,
    {
        match random_bytes(32) {
            Ok(entropy) => Ok(Self::gen_keypair_from_seed(&Seed(entropy))),
            Err(e) => Err(e),
        }
    }

    /// The account address derived from the public key.
    pub fn address(&self) -> (r: String)
        requires
            self.wf(),
        ensures
            r@ == address_chars(self.public@),
    {
        address_of_public(&self.public)
    }

    /// The public key bytes.
    pub fn public_key(&self) -> (r: &Vec<u8>)
        ensures
            r@ == self.public@,
    {
        &self.public
    }

    /// Secret seed followed by public key, 64 bytes.
    pub fn to_bytes(&self) -> (r: Vec<u8>)
        requires
            self.wf(),
        ensures
            r@ == self.secret@ + self.public@,
    {
        let mut out = copy_vec(&self.secret);
        crate::bytes::write_all(&mut out, &self.public);
        out
    }
}

/// Render the address of a 32-byte public key.
pub fn address_of_public(public_key: &Vec<u8>) -> (r: String)
    requires
        public_key@.len() == 32,
    ensures
        r@ == address_chars(public_key@),
{
    let mut payload: Vec<u8> = Vec::new();
    payload.push(ADDRESS_VERSION);
    crate::bytes::write_all(&mut payload, public_key);
    proof {
        assert(payload@ =~= seq![ADDRESS_VERSION] + public_key@);
    }
    let inner = sha256_digest(&payload);
    let outer = sha256_digest(&inner);
    let mut full = copy_vec(&payload);
    full.push(outer[0]);
    full.push(outer[1]);
    full.push(outer[2]);
    full.push(outer[3]);
    proof {
        assert(full@ =~= address_bytes(public_key@));
    }
    base58_encode(&full)
}

/// Determinism of seeded generation: keypairs that two calls with equal
/// seeds return are equal in both halves, and so are their addresses.
pub proof fn lemma_seed_determinism(a: Keypair, b: Keypair)
    requires
        a.wf(),
        b.wf(),
        a.secret@ == b.secret@,
    ensures
        a.public@ == b.public@,
        address_chars(a.public@) == address_chars(b.public@),
{
}

} // verus!
