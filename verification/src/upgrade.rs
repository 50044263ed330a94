//! Wallet upgrade.
//!
//! Re-encrypts an existing wallet into the latest basic format under the
//! same password.  Decryption happens first, so nothing is produced — and
//! the caller writes nothing — unless the password is right; the address is
//! unchanged.

use vstd::prelude::*;

use crate::error::Error;
use crate::format::Format;
use crate::pwhash::PWHash;
use crate::wallet::Wallet;

verus! {

/// Options for upgrading to the latest basic format.
pub struct Basic {
    /// Overwrite an existing output file.
    pub force: bool,
}

impl Basic {
    /// Decrypt `wallet` and re-encrypt it as a basic wallet with fresh
    /// default hash parameters and the same password.  The address of the
    /// result is bit-identical to the original's.
    pub fn run(&self, wallet: &Wallet, password: &[u8]) -> (r: Result<Wallet, Error>)
        requires
            wallet.wf(),
            password@.len() <= 0xffff_ffff,
        ensures
            r matches Ok(w) ==> w.wf() && !(w.format is Sharded) && w.public_key@
                == wallet.public_key@ && w.address_spec() == wallet.address_spec(),
            r is Ok ==> wallet.decrypt_err(password@) is None,
            r matches Ok(w) ==> crate::crypto::aead_open(
                w.format.key_spec(password@),
                w.nonce@,
                w.ciphertext@,
            ) == crate::crypto::aead_open(
                wallet.format.key_spec(password@),
                wallet.nonce@,
                wallet.ciphertext@,
            ),
            r matches Err(e) ==> e == Error::IoError || Some(e) == wallet.decrypt_err(password@),
            wallet.decrypt_err(password@) is None ==> r is Ok || r == Err::<Wallet, Error>(
                Error::IoError,
            ),
    {
        let pwhash = match PWHash::argon2id13_default() {
            Ok(p) => p,
            Err(e) => return Err(e),
        };
        let fmt = crate::format::Basic { pwhash };
        wallet.upgrade(password, Format::Basic(fmt))
    }
}

} // verus!
