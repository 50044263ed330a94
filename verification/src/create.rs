//! Wallet creation.
//!
//! The interactive parts — prompting for a password or seed words, choosing
//! an output file — belong to the caller; these commands take the collected
//! inputs and produce the encrypted wallet.

use vstd::prelude::*;

use crate::error::Error;
use crate::format::Format;
use crate::keypair::{Keypair, Seed};
use crate::mnemonic::{mnemonic_to_entropy, phrase_entropy, word_views};
use crate::pwhash::PWHash;
use crate::wallet::Wallet;

verus! {

/// Options for creating a basic wallet.
pub struct Basic {
    /// Overwrite an existing output file.
    pub force: bool,
    /// Derive the keypair from seed words instead of fresh randomness.
    pub seed: bool,
}

/// Options for creating a sharded wallet.
pub struct Sharded {
    /// Overwrite an existing output file.
    pub force: bool,
    /// Derive the keypair from seed words instead of fresh randomness.
    pub seed: bool,
    /// N: how many shards to split the key secret into.
    pub key_share_count: u8,
    /// K: how many shards recovery requires.
    pub recovery_threshold: u8,
}

/// A keypair from seed words when given, fresh randomness otherwise.
/// Identical phrases always yield identical keypairs.
pub fn gen_keypair(seed_words: Option<Vec<String>>) -> (r: Result<Keypair, Error>)
    ensures
        r matches Ok(kp) ==> kp.wf(),
        seed_words matches Some(ws) ==> (r matches Ok(kp) ==> phrase_entropy(word_views(ws@))
            matches Some(e) && kp.secret@ == e + e),
        seed_words matches Some(ws) ==> (r matches Err(er) ==> er == Error::InvalidMnemonic
            && phrase_entropy(word_views(ws@)) is None),
        seed_words is None ==> (r matches Err(er) ==> er == Error::IoError),
{
    match seed_words {
        Some(words) => {
            let entropy = match mnemonic_to_entropy(&words) {
                Ok(e) => e,
                Err(er) => return Err(er),
            };
            Ok(Keypair::gen_keypair_from_seed(&Seed(entropy)))
        },
        None => Keypair::gen_keypair(),
    }
}

impl Basic {
    /// Create a basic wallet: generate or derive the keypair and encrypt it
    /// under the password with fresh default hash parameters.
    pub fn run(&self, seed_words: Option<Vec<String>>, password: &[u8]) -> (r: Result<
        Wallet,
        Error,
    >)
        requires
            password@.len() <= 0xffff_ffff,
        ensures
            r matches Ok(w) ==> w.wf() && !(w.format is Sharded) && exists|kp: Keypair|
                kp.wf() && #[trigger] w.encrypts(kp, password@) && (seed_words matches Some(ws)
                    ==> (phrase_entropy(word_views(ws@)) matches Some(en) && kp.secret@ == en
                        + en)),
            r matches Err(e) ==> e == Error::IoError || (e == Error::InvalidMnemonic && (
            seed_words matches Some(ws) && phrase_entropy(word_views(ws@)) is None)),
    {
        let keypair = match gen_keypair(seed_words) {
            Ok(kp) => kp,
            Err(e) => return Err(e),
        };
        let pwhash = match PWHash::argon2id13_default() {
            Ok(p) => p,
            Err(e) => return Err(e),
        };
        let fmt = crate::format::Basic { pwhash };
        let w = match Wallet::encrypt(&keypair, password, Format::Basic(fmt)) {
            Ok(w) => w,
            Err(e) => return Err(e),
        };
        proof {
            assert(w.encrypts(keypair, password@));
        }
        Ok(w)
    }
}

impl Sharded {
    /// Create a sharded wallet: as the basic path, but the sealing key is
    /// blinded by a secret split into `key_share_count` shares of which
    /// `recovery_threshold` recover it.  Thresholds out of order are a
    /// format error.
    pub fn run(&self, seed_words: Option<Vec<String>>, password: &[u8]) -> (r: Result<
        Wallet,
        Error,
    >)
        requires
            password@.len() <= 0xffff_ffff,
        ensures
            r matches Ok(w) ==> w.wf() && (w.format is Sharded) && exists|kp: Keypair|
                kp.wf() && #[trigger] w.encrypts(kp, password@) && w.recoverable(kp, password@)
                    && (seed_words matches Some(ws) ==> (phrase_entropy(word_views(ws@)) matches
                    Some(en) && kp.secret@ == en + en)),
            r matches Ok(w) ==> (w.format matches Format::Sharded(t) && t.key_share_count
                == self.key_share_count && t.recovery_threshold == self.recovery_threshold
                && t.key_shares@.len() == self.key_share_count as int && (forall|i: int|
                0 <= i < t.key_shares@.len() ==> (#[trigger] t.key_shares@[i]).0@.len() == 33
                    && t.key_shares@[i].0@[0] == i + 1)),
            !(1 <= self.recovery_threshold <= self.key_share_count) ==> r == Err::<Wallet, Error>(
                Error::FormatError,
            ),
            r matches Err(e) ==> e == Error::IoError || e == Error::FormatError || (e
                == Error::InvalidMnemonic && (seed_words matches Some(ws) && phrase_entropy(
                word_views(ws@),
            ) is None)),
    {
        if self.recovery_threshold < 1 || self.key_share_count < self.recovery_threshold {
            return Err(Error::FormatError);
        }
        let keypair = match gen_keypair(seed_words) {
            Ok(kp) => kp,
            Err(e) => return Err(e),
        };
        let pwhash = match PWHash::argon2id13_default() {
            Ok(p) => p,
            Err(e) => return Err(e),
        };
        let fmt = crate::format::Sharded {
            key_share_count: self.key_share_count,
            recovery_threshold: self.recovery_threshold,
            pwhash,
            key_shares: Vec::new(),
        };
        let w = match Wallet::encrypt(&keypair, password, Format::Sharded(fmt)) {
            Ok(w) => w,
            Err(e) => return Err(e),
        };
        proof {
            assert(w.encrypts(keypair, password@) && w.recoverable(keypair, password@));
        }
        Ok(w)
    }
}

} // verus!
