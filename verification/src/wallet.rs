//! The wallet envelope.
//!
//! A wallet owns a format plus the encrypted key material: the public key,
//! a fresh random nonce and the authenticated ciphertext of the secret seed.
//! Decryption re-derives the symmetric key from the stored parameters and
//! fails with `DecryptionFailed` on any authentication mismatch — the sole
//! path that detects password correctness.  The address never needs a
//! password: it is derived from the public key stored alongside.

use vstd::prelude::*;

use crate::bytes::{copy_vec, read_u8, read_vec, vec_eq, wipe, write_all, xor_bytes, xor_vec};
use crate::crypto::{aead_decrypt, aead_encrypt, aead_open, ed25519_public, ed25519_public_key,
    random_bytes};
use crate::error::Error;
use crate::format::{Basic, Format, KeyShare, Sharded, TAG_BASIC, TAG_SHARDED, format_pwhash,
    has_dup_spec, lemma_shares_concat_index, lemma_shares_concat_len, share_views, shares_concat};
use crate::keypair::{Keypair, address_chars, address_of_public};
use crate::pwhash::PWHash;
use crate::sss::{among, deal_recovers, distinct_points, selection_of, sss_combined, sss_deal};

verus! {

/// Nonce length of the authenticated cipher.
pub const NONCE_LEN: usize = 12;

/// Ciphertext length: 32 sealed seed bytes plus a 16-byte tag.
pub const CIPHERTEXT_LEN: usize = 48;

/// The share bytes `x` are one of the given share list's.
pub open spec fn among_shares(x: Seq<u8>, shares: Seq<KeyShare>) -> bool {
    exists|j: int| 0 <= j < shares.len() && x == (#[trigger] shares[j]).0@
}

/// Every selected share is one the given share list holds.
pub open spec fn selection_of_shares(sel: Seq<Seq<u8>>, shares: Seq<KeyShare>) -> bool {
    forall|a: int| 0 <= a < sel.len() ==> among_shares(#[trigger] sel[a], shares)
}

/// The shares a sequence of shard wallets pools, in order.
pub open spec fn pooled_shares(shards: Seq<Wallet>) -> Seq<KeyShare>
    decreases shards.len(),
{
    if shards.len() == 0 {
        Seq::empty()
    } else {
        pooled_shares(shards.drop_last()) + (match shards.last().format {
            Format::Sharded(s) => s.key_shares@,
            Format::Basic(_) => Seq::empty(),
        })
    }
}

/// Two shard envelopes agree on everything but the shares they carry:
/// same sealed material and the same sharded parameters.
pub open spec fn shard_agrees(a: Wallet, b: Wallet) -> bool {
    &&& a.format matches Format::Sharded(sa) && (b.format matches Format::Sharded(sb)
        && sa.key_share_count == sb.key_share_count && sa.recovery_threshold
        == sb.recovery_threshold && sa.pwhash.same_as(&sb.pwhash))
    &&& a.public_key@ == b.public_key@
    &&& a.nonce@ == b.nonce@
    &&& a.ciphertext@ == b.ciphertext@
}

/// Every shard agrees with the first.
pub open spec fn shards_consistent(shards: Seq<Wallet>) -> bool {
    forall|i: int| 0 <= i < shards.len() ==> shard_agrees(#[trigger] shards[i], shards[0])
}

/// The key that pooling the shards' shares derives under a password.
pub open spec fn pooled_key(shards: Seq<Wallet>, password: Seq<u8>) -> Seq<u8> {
    let s0 = shards[0].format->Sharded_0;
    xor_bytes(
        s0.pwhash.key_spec(password),
        sss_combined(s0.recovery_threshold as int, share_views(pooled_shares(shards))),
    )
}

/// Why reassembly under `password` fails, if it does: no shards or fewer
/// than the threshold are insufficient; disagreeing envelopes, a repeated
/// evaluation point or more shares than the split produced are invalid; past
/// that the normal decryption path decides.
pub open spec fn recover_err(shards: Seq<Wallet>, password: Seq<u8>) -> Option<Error> {
    if shards.len() == 0 {
        Some(Error::InsufficientShares)
    } else if !shards_consistent(shards) {
        Some(Error::InvalidShare)
    } else if pooled_shares(shards).len() > (
    shards[0].format->Sharded_0).key_share_count as int {
        Some(Error::InvalidShare)
    } else if has_dup_spec(pooled_shares(shards)) {
        Some(Error::InvalidShare)
    } else if pooled_shares(shards).len() < (
    shards[0].format->Sharded_0).recovery_threshold as int {
        Some(Error::InsufficientShares)
    } else {
        match aead_open(pooled_key(shards, password), shards[0].nonce@, shards[0].ciphertext@) {
            Option::None => Some(Error::DecryptionFailed),
            Option::Some(pt) => if pt.len() == 32 && ed25519_public(pt) == shards[0].public_key@ {
                Option::<Error>::None
            } else {
                Some(Error::DecryptionFailed)
            },
        }
    }
}

/// Share lists with the same byte views repeat an evaluation point together.
proof fn lemma_dup_views(a: Seq<KeyShare>, b: Seq<KeyShare>)
    requires
        share_views(a) == share_views(b),
    ensures
        has_dup_spec(a) == has_dup_spec(b),
{
    assert(share_views(a).len() == a.len());
    assert(share_views(b).len() == b.len());
    assert(a.len() == b.len());
    assert(has_dup_spec(a) ==> has_dup_spec(b)) by {
        if has_dup_spec(a) {
            let (x, y) = choose|x: int, y: int|
                #![trigger a[x], a[y]]
                0 <= x < y < a.len() && a[x].0@[0] == a[y].0@[0];
            assert(share_views(a)[x] == a[x].0@ && share_views(a)[y] == a[y].0@);
            assert(share_views(b)[x] == b[x].0@ && share_views(b)[y] == b[y].0@);
            assert(0 <= x < y < b.len() && (#[trigger] b[x]).0@[0] == (#[trigger] b[y]).0@[0]);
        }
    }
    assert(has_dup_spec(b) ==> has_dup_spec(a)) by {
        if has_dup_spec(b) {
            let (x, y) = choose|x: int, y: int|
                #![trigger b[x], b[y]]
                0 <= x < y < b.len() && b[x].0@[0] == b[y].0@[0];
            assert(share_views(b)[x] == b[x].0@ && share_views(b)[y] == b[y].0@);
            assert(share_views(a)[x] == a[x].0@ && share_views(a)[y] == a[y].0@);
            assert(0 <= x < y < a.len() && (#[trigger] a[x]).0@[0] == (#[trigger] a[y]).0@[0]);
        }
    }
}

/// An encrypted wallet: a format and the sealed key material.
#[derive(Clone, Debug)]
pub struct Wallet {
    /// The format variant, including password-hash parameters and, for a
    /// sharded wallet, the shares held in memory.
    pub format: Format,
    /// The public key, stored in the clear; addresses derive from it alone.
    pub public_key: Vec<u8>,
    /// The cipher nonce, fresh and random at encryption time.
    pub nonce: Vec<u8>,
    /// The sealed secret seed with its authentication tag.
    pub ciphertext: Vec<u8>,
}

impl Wallet {
    /// Structurally sound envelope.
    pub open spec fn wf(&self) -> bool {
        &&& self.format.wf()
        &&& self.public_key@.len() == 32
        &&& self.nonce@.len() == NONCE_LEN
        &&& self.ciphertext@.len() == CIPHERTEXT_LEN
    }

    /// The address these envelope bytes answer to.
    pub open spec fn address_spec(&self) -> Seq<char> {
        address_chars(self.public_key@)
    }

    /// Why decryption under `password` fails, if it does: first the format's
    /// own share state, then tag authentication, then the requirement that
    /// the sealed seed really derives the stored public key.
    pub open spec fn decrypt_err(&self, password: Seq<u8>) -> Option<Error> {
        match self.format.key_err() {
            Some(e) => Some(e),
            None => match aead_open(
                self.format.key_spec(password),
                self.nonce@,
                self.ciphertext@,
            ) {
                Option::None => Some(Error::DecryptionFailed),
                Option::Some(pt) => if pt.len() == 32 && ed25519_public(pt) == self.public_key@ {
                    Option::<Error>::None
                } else {
                    Some(Error::DecryptionFailed)
                },
            },
        }
    }

    /// The envelope is an encryption of `kp` under `password`: its format
    /// state derives a key that opens the ciphertext to exactly the secret
    /// seed, and the stored public key is the keypair's.
    pub open spec fn encrypts(&self, kp: Keypair, password: Seq<u8>) -> bool {
        &&& self.wf()
        &&& self.public_key@ == kp.public@
        &&& self.format.key_err() is None
        &&& aead_open(self.format.key_spec(password), self.nonce@, self.ciphertext@) == Some(
            kp.secret@,
        )
    }

    /// For a sharded envelope: every selection of at least the threshold
    /// many shares, pairwise distinct and drawn from the wallet's own, blinds
    /// the password key into one that opens the ciphertext to the secret.
    pub open spec fn recoverable(&self, kp: Keypair, password: Seq<u8>) -> bool {
        self.format matches Format::Sharded(s) ==> forall|sel: Seq<Seq<u8>>|
            sel.len() >= s.recovery_threshold as int && distinct_points(sel)
                && selection_of_shares(sel, s.key_shares@) ==> aead_open(
                xor_bytes(
                    s.pwhash.key_spec(password),
                    #[trigger] sss_combined(s.recovery_threshold as int, sel),
                ),
                self.nonce@,
                self.ciphertext@,
            ) == Some(kp.secret@)
    }

    /// Encrypt a keypair under a password into the given format.  A sharded
    /// format gets a fresh random blinding secret, split into its N shares;
    /// the password-hash parameters and thresholds are taken as given.
    /// Fails only when randomness or the hash's working memory cannot be
    /// had.
    pub fn encrypt(keypair: &Keypair, password: &[u8], format: Format) -> (r: Result<
        Wallet,
        Error,
    >)
        requires
            keypair.wf(),
            format.wf(),
            password@.len() <= 0xffff_ffff,
        ensures
            r matches Ok(w) ==> w.encrypts(*keypair, password@) && w.recoverable(
                *keypair,
                password@,
            ),
            r matches Ok(w) ==> w.format.tag_spec() == format.tag_spec() && format_pwhash(
                w.format,
            ).same_as(&format_pwhash(format)),
            r matches Ok(w) ==> (format matches Format::Sharded(s) ==> w.format matches
                Format::Sharded(t) && t.key_share_count == s.key_share_count
                && t.recovery_threshold == s.recovery_threshold && t.key_shares@.len()
                == s.key_share_count as int && (forall|i: int|
                0 <= i < t.key_shares@.len() ==> (#[trigger] t.key_shares@[i]).0@.len() == 33
                    && t.key_shares@[i].0@[0] == i + 1)),
            r matches Err(e) ==> e == Error::IoError,
    {
        let nonce = match random_bytes(NONCE_LEN) {
            Ok(v) => v,
            Err(e) => return Err(e),
        };
        match format {
            Format::Basic(b) => {
                let mut key = match b.derive_key(password) {
                    Ok(k) => k,
                    Err(e) => return Err(e),
                };
                let ciphertext = aead_encrypt(&key, &nonce, &keypair.secret);
                wipe(&mut key);
                Ok(
                    Wallet {
                        format: Format::Basic(b),
                        public_key: copy_vec(&keypair.public),
                        nonce,
                        ciphertext,
                    },
                )
            },
            Format::Sharded(s) => {
                let mut mask = match random_bytes(32) {
                    Ok(v) => v,
                    Err(e) => return Err(e),
                };
                let dealt = sss_deal(&mask, s.key_share_count, s.recovery_threshold);
                let mut shares: Vec<KeyShare> = Vec::new();
                let mut i: usize = 0;
                while i < dealt.len()
                    invariant
                        i <= dealt@.len(),
                        shares@.len() == i,
                        forall|a: int|
                            0 <= a < dealt@.len() ==> (#[trigger] dealt@[a])@.len() == 33
                                && dealt@[a]@[0] == a + 1,
                        forall|a: int| 0 <= a < i ==> (#[trigger] shares@[a]).0@ == dealt@[a]@,
                    decreases dealt@.len() - i,
                {
                    shares.push(KeyShare(copy_vec(&dealt[i])));
                    i = i + 1;
                }
                let mut pwkey = match s.pwhash.pwhash(password) {
                    Ok(k) => k,
                    Err(e) => return Err(e),
                };
                let mut key = xor_vec(&pwkey, &mask);
                let ciphertext = aead_encrypt(&key, &nonce, &keypair.secret);
                wipe(&mut key);
                let out = Sharded {
                    key_share_count: s.key_share_count,
                    recovery_threshold: s.recovery_threshold,
                    pwhash: s.pwhash,
                    key_shares: shares,
                };
                let w = Wallet {
                    format: Format::Sharded(out),
                    public_key: copy_vec(&keypair.public),
                    nonce,
                    ciphertext,
                };
                proof {
                    lemma_fresh_shards(w, *keypair, password@, dealt@, mask@);
                }
                wipe(&mut pwkey);
                wipe(&mut mask);
                Ok(w)
            },
        }
    }

    /// Decrypt under `password`: derive the key from the stored format,
    /// authenticate and open the ciphertext, and insist that the sealed
    /// seed derives the stored public key.  Wrong password and corrupted
    /// ciphertext are indistinguishable, both `DecryptionFailed`.
    pub fn decrypt(&self, password: &[u8]) -> (r: Result<Keypair, Error>)
        requires
            self.wf(),
            password@.len() <= 0xffff_ffff,
        ensures
            r matches Ok(kp) ==> self.decrypt_err(password@) is None && kp.wf() && kp.public@
                == self.public_key@ && aead_open(
                self.format.key_spec(password@),
                self.nonce@,
                self.ciphertext@,
            ) == Some(kp.secret@),
            r matches Err(e) ==> e == Error::IoError || Some(e) == self.decrypt_err(password@),
            self.decrypt_err(password@) is None ==> r is Ok || r == Err::<Keypair, Error>(
                Error::IoError,
            ),
    {
        let mut key = match self.format.derive_key(password) {
            Ok(k) => k,
            Err(e) => return Err(e),
        };
        let opened = aead_decrypt(&key, &self.nonce, &self.ciphertext);
        wipe(&mut key);
        let plaintext = match opened {
            Ok(p) => p,
            Err(e) => return Err(e),
        };
        if plaintext.len() != 32 {
            return Err(Error::DecryptionFailed);
        }
        let derived_public = ed25519_public_key(&plaintext);
        if !vec_eq(&derived_public, &self.public_key) {
            return Err(Error::DecryptionFailed);
        }
        Ok(Keypair { secret: plaintext, public: derived_public })
    }

    /// The account address, derivable without any password.
    pub fn address(&self) -> (r: String)
        requires
            self.wf(),
        ensures
            r@ == self.address_spec(),
    {
        address_of_public(&self.public_key)
    }

    /// A wallet is sharded exactly when its format variant is.
    pub fn is_sharded(&self) -> (r: bool)
        ensures
            r == (self.format is Sharded),
    {
        match &self.format {
            Format::Basic(_) => false,
            Format::Sharded(_) => true,
        }
    }

    /// The stored password-hash parameters.
    pub fn pwhash(&self) -> (r: &PWHash)
        ensures
            *r == format_pwhash(self.format),
    {
        self.format.pwhash()
    }

    /// The shard wallet at position `i` carries the whole envelope but only
    /// the i-th share: independently inspectable, not decryptable alone.
    pub open spec fn shard_matches(&self, s: Sharded, shard: Wallet, i: int) -> bool {
        &&& shard.wf()
        &&& shard.public_key@ == self.public_key@
        &&& shard.nonce@ == self.nonce@
        &&& shard.ciphertext@ == self.ciphertext@
        &&& shard.format matches Format::Sharded(t) && t.key_share_count == s.key_share_count
            && t.recovery_threshold == s.recovery_threshold && t.pwhash.same_as(&s.pwhash)
            && t.key_shares@.len() == 1 && t.key_shares@[0].0@ == s.key_shares@[i].0@
    }

    /// Split a sharded wallet into one shard wallet per held share.  Each
    /// shard is a full envelope whose format holds exactly one share, so its
    /// address is recoverable without decryption.  A basic wallet has no
    /// shards; a sharded wallet with no shares in memory has none to give.
    pub fn shards(&self) -> (r: Result<Vec<Wallet>, Error>)
        requires
            self.wf(),
        ensures
            r matches Ok(v) ==> self.format matches Format::Sharded(s) && v@.len()
                == s.key_shares@.len() && (forall|i: int|
                0 <= i < v@.len() ==> self.shard_matches(s, #[trigger] v@[i], i)),
            r matches Err(e) ==> ((self.format is Basic) && e == Error::FormatError) || (
            self.format matches Format::Sharded(s) && s.key_shares@.len() == 0 && e
                == Error::InsufficientShares),
            self.format matches Format::Sharded(s) && s.key_shares@.len() > 0 ==> r is Ok,
    {
        match &self.format {
            Format::Basic(_) => Err(Error::FormatError),
            Format::Sharded(s) => {
                if s.key_shares.len() == 0 {
                    return Err(Error::InsufficientShares);
                }
                let mut out: Vec<Wallet> = Vec::new();
                let mut i: usize = 0;
                while i < s.key_shares.len()
                    invariant
                        self.wf(),
                        self.format matches Format::Sharded(t) && t == *s,
                        i <= s.key_shares@.len(),
                        out@.len() == i,
                        forall|a: int|
                            0 <= a < i ==> self.shard_matches(*s, #[trigger] out@[a], a),
                    decreases s.key_shares@.len() - i,
                {
                    let shard = Wallet {
                        format: Format::Sharded(
                            Sharded {
                                key_share_count: s.key_share_count,
                                recovery_threshold: s.recovery_threshold,
                                pwhash: s.pwhash.duplicate(),
                                key_shares: vec![KeyShare(copy_vec(&s.key_shares[i].0))],
                            },
                        ),
                        public_key: copy_vec(&self.public_key),
                        nonce: copy_vec(&self.nonce),
                        ciphertext: copy_vec(&self.ciphertext),
                    };
                    out.push(shard);
                    i = i + 1;
                }
                Ok(out)
            },
        }
    }

    /// Reassemble shard wallets and decrypt.  All shards must agree on the
    /// envelope and parameters; their shares are pooled and the normal
    /// decryption path re-run, so recovery still needs the password.
    pub fn recover(shards: &Vec<Wallet>, password: &[u8]) -> (r: Result<Keypair, Error>)
        requires
            forall|i: int| 0 <= i < shards@.len() ==> (#[trigger] shards@[i]).wf(),
            password@.len() <= 0xffff_ffff,
        ensures
            shards@.len() == 0 ==> r == Err::<Keypair, Error>(Error::InsufficientShares),
            r matches Ok(kp) ==> shards@.len() > 0 && kp.wf() && kp.public@
                == shards@[0].public_key@ && aead_open(
                pooled_key(shards@, password@),
                shards@[0].nonce@,
                shards@[0].ciphertext@,
            ) == Some(kp.secret@),
            r matches Ok(kp) ==> recover_err(shards@, password@) is None,
            r matches Err(e) ==> e == Error::IoError || Some(e) == recover_err(
                shards@,
                password@,
            ),
            recover_err(shards@, password@) is None ==> r is Ok || r == Err::<Keypair, Error>(
                Error::IoError,
            ),
    {
        if shards.len() == 0 {
            return Err(Error::InsufficientShares);
        }
        let n: u8;
        let k: u8;
        match &shards[0].format {
            Format::Sharded(s) => {
                n = s.key_share_count;
                k = s.recovery_threshold;
            },
            Format::Basic(_) => {
                proof {
                    assert(!shard_agrees(shards@[0], shards@[0]));
                    assert(!shards_consistent(shards@));
                }
                return Err(Error::InvalidShare);
            },
        }
        let mut collected: Vec<KeyShare> = Vec::new();
        let mut i: usize = 0;
        proof {
            assert(share_views(pooled_shares(shards@.subrange(0, 0))) =~= share_views(
                collected@,
            ));
        }
        while i < shards.len()
            invariant
                forall|a: int| 0 <= a < shards@.len() ==> (#[trigger] shards@[a]).wf(),
                shards@.len() > 0,
                1 <= k <= n,
                shards@[0].format matches Format::Sharded(s0) && s0.key_share_count == n
                    && s0.recovery_threshold == k,
                i <= shards@.len(),
                forall|a: int| 0 <= a < i ==> shard_agrees(#[trigger] shards@[a], shards@[0]),
                forall|a: int| 0 <= a < collected@.len() ==> (#[trigger] collected@[a]).wf(),
                share_views(collected@) == share_views(
                    pooled_shares(shards@.subrange(0, i as int)),
                ),
            decreases shards@.len() - i,
        {
            match &shards[i].format {
                Format::Sharded(s) => {
                    if s.key_share_count != n || s.recovery_threshold != k {
                        proof {
                            assert(!shard_agrees(shards@[i as int], shards@[0]));
                            assert(!shards_consistent(shards@));
                        }
                        return Err(Error::InvalidShare);
                    }
                    if !vec_eq(&shards[i].public_key, &shards[0].public_key) || !vec_eq(
                        &shards[i].nonce,
                        &shards[0].nonce,
                    ) || !vec_eq(&shards[i].ciphertext, &shards[0].ciphertext) {
                        proof {
                            assert(!shard_agrees(shards@[i as int], shards@[0]));
                            assert(!shards_consistent(shards@));
                        }
                        return Err(Error::InvalidShare);
                    }
                    let fp = shards[0].pwhash();
                    if s.pwhash.t_cost != fp.t_cost || s.pwhash.m_cost != fp.m_cost || !vec_eq(
                        &s.pwhash.salt,
                        &fp.salt,
                    ) {
                        proof {
                            assert(!(s.pwhash.same_as(
                                &(shards@[0].format->Sharded_0).pwhash,
                            )));
                            assert(!shard_agrees(shards@[i as int], shards@[0]));
                            assert(!shards_consistent(shards@));
                        }
                        return Err(Error::InvalidShare);
                    }
                    let ghost base = collected@;
                    let mut j: usize = 0;
                    while j < s.key_shares.len()
                        invariant
                            forall|a: int|
                                0 <= a < s.key_shares@.len() ==> (#[trigger] s.key_shares@[a]).wf(),
                            j <= s.key_shares@.len(),
                            collected@.len() == base.len() + j,
                            forall|a: int| 0 <= a < base.len() ==> #[trigger] collected@[a] == base[a],
                            forall|a: int|
                                0 <= a < j ==> (#[trigger] collected@[base.len() + a]).0@
                                    == s.key_shares@[a].0@,
                            forall|a: int|
                                0 <= a < collected@.len() ==> (#[trigger] collected@[a]).wf(),
                        decreases s.key_shares@.len() - j,
                    {
                        collected.push(KeyShare(copy_vec(&s.key_shares[j].0)));
                        j = j + 1;
                    }
                    proof {
                        let pre = shards@.subrange(0, i as int);
                        let cur = shards@.subrange(0, i + 1);
                        assert(cur.drop_last() =~= pre);
                        assert(cur.last() == shards@[i as int]);
                        assert forall|t: int| 0 <= t < collected@.len() implies #[trigger] share_views(
                            collected@,
                        )[t] == (share_views(base) + share_views(s.key_shares@))[t] by {
                            if t < base.len() {
                                assert(collected@[t] == base[t]);
                            } else {
                                assert(collected@[base.len() + (t - base.len())].0@
                                    == s.key_shares@[t - base.len()].0@);
                            }
                        }
                        assert(share_views(collected@) =~= share_views(base) + share_views(
                            s.key_shares@,
                        ));
                        assert(share_views(pooled_shares(cur)) =~= share_views(pooled_shares(pre))
                            + share_views(s.key_shares@));
                        assert(share_views(collected@) =~= share_views(pooled_shares(cur)));
                        assert(shard_agrees(shards@[i as int], shards@[0]));
                    }
                },
                Format::Basic(_) => {
                    proof {
                        assert(!shard_agrees(shards@[i as int], shards@[0]));
                        assert(!shards_consistent(shards@));
                    }
                    return Err(Error::InvalidShare);
                },
            }
            i = i + 1;
        }
        proof {
            assert(shards@.subrange(0, shards@.len() as int) =~= shards@);
            assert(shards_consistent(shards@));
            assert(share_views(collected@) == share_views(pooled_shares(shards@)));
            assert(collected@.len() == pooled_shares(shards@).len());
        }
        if collected.len() > n as usize {
            proof {
                assert(recover_err(shards@, password@) == Some(Error::InvalidShare));
            }
            return Err(Error::InvalidShare);
        }
        let merged = Wallet {
            format: Format::Sharded(
                Sharded {
                    key_share_count: n,
                    recovery_threshold: k,
                    pwhash: shards[0].pwhash().duplicate(),
                    key_shares: collected,
                },
            ),
            public_key: copy_vec(&shards[0].public_key),
            nonce: copy_vec(&shards[0].nonce),
            ciphertext: copy_vec(&shards[0].ciphertext),
        };
        let r = merged.decrypt(password);
        proof {
            let s0 = shards@[0].format->Sharded_0;
            let m = merged.format->Sharded_0;
            lemma_dup_views(m.key_shares@, pooled_shares(shards@));
            assert(m.pwhash.key_spec(password@) == s0.pwhash.key_spec(password@));
            assert(merged.format.key_spec(password@) == pooled_key(shards@, password@));
            assert(merged.format.key_err() is None <==> !has_dup_spec(pooled_shares(shards@))
                && pooled_shares(shards@).len() >= s0.recovery_threshold as int);
            assert(merged.decrypt_err(password@) == recover_err(shards@, password@));
        }
        r
    }

    /// The on-disk envelope: format tag, password-hash block, the variant's
    /// trailing metadata, then public key, nonce and ciphertext.
    pub open spec fn serialized_spec(&self) -> Seq<u8> {
        seq![self.format.tag_spec()] + format_pwhash(self.format).serialized_spec()
            + self.format.trailing_spec() + self.public_key@ + self.nonce@ + self.ciphertext@
    }

    /// Serialize the whole envelope to bytes.
    pub fn write(&self) -> (r: Vec<u8>)
        requires
            self.wf(),
        ensures
            r@ == self.serialized_spec(),
    {
        let mut out: Vec<u8> = Vec::new();
        match &self.format {
            Format::Basic(_) => out.push(TAG_BASIC),
            Format::Sharded(_) => out.push(TAG_SHARDED),
        }
        self.format.pwhash().write(&mut out);
        let _ = self.format.write(&mut out);
        write_all(&mut out, &self.public_key);
        write_all(&mut out, &self.nonce);
        write_all(&mut out, &self.ciphertext);
        proof {
            assert(out@ =~= self.serialized_spec());
        }
        out
    }

    /// Parse an envelope, consuming the whole buffer.  An unrecognized
    /// format tag, corrupt parameters, or trailing garbage is a hard format
    /// error, never silently ignored; the bytes of any well-formed wallet's
    /// envelope always parse.
    pub fn read(data: &Vec<u8>) -> (r: Result<Wallet, Error>)
        ensures
            r matches Ok(w) ==> w.wf() && w.serialized_spec() == data@,
            r matches Err(e) ==> e == Error::FormatError,
            forall|w0: Wallet| w0.wf() && data@ == #[trigger] w0.serialized_spec() ==> r is Ok,
    {
        let mut pos: usize = 0;
        let tag = match read_u8(data, &mut pos) {
            Ok(t) => t,
            Err(e) => {
                proof {
                    assert forall|w0: Wallet|
                        w0.wf() && data@ == #[trigger] w0.serialized_spec() implies false by {
                        lemma_envelope_parts(w0);
                    }
                }
                return Err(e);
            },
        };
        let pwhash = match PWHash::read(data, &mut pos) {
            Ok(p) => p,
            Err(e) => {
                proof {
                    assert forall|w0: Wallet|
                        w0.wf() && data@ == #[trigger] w0.serialized_spec() implies false by {
                        lemma_envelope_parts(w0);
                        assert(format_pwhash(w0.format).wf());
                        assert(data@.subrange(1, 26) == format_pwhash(
                            w0.format,
                        ).serialized_spec());
                    }
                }
                return Err(e);
            },
        };
        let mut format: Format;
        if tag == TAG_BASIC {
            format = Format::Basic(Basic { pwhash });
        } else if tag == TAG_SHARDED {
            format = Format::Sharded(
                Sharded {
                    key_share_count: 1,
                    recovery_threshold: 1,
                    pwhash,
                    key_shares: Vec::new(),
                },
            );
        } else {
            proof {
                assert forall|w0: Wallet|
                    w0.wf() && data@ == #[trigger] w0.serialized_spec() implies false by {
                    lemma_envelope_parts(w0);
                    if w0.format is Basic {
                        assert(w0.format.tag_spec() == TAG_BASIC);
                    } else {
                        assert(w0.format.tag_spec() == TAG_SHARDED);
                    }
                }
            }
            return Err(Error::FormatError);
        }
        match format.read(data, &mut pos) {
            Ok(()) => (),
            Err(e) => {
                proof {
                    assert forall|w0: Wallet|
                        w0.wf() && data@ == #[trigger] w0.serialized_spec() implies false by {
                        lemma_envelope_parts(w0);
                        if w0.format is Basic {
                            assert(w0.format.tag_spec() == TAG_BASIC);
                        } else {
                            assert(w0.format.tag_spec() == TAG_SHARDED);
                            let s0 = w0.format->Sharded_0;
                            crate::format::lemma_sharded_tlen(s0);
                            assert(crate::format::sharded_trailing_at(s0, data@, 26));
                        }
                    }
                }
                return Err(e);
            },
        }
        let public_key = match read_vec(data, &mut pos, 32) {
            Ok(v) => v,
            Err(e) => {
                proof {
                    assert forall|w0: Wallet|
                        w0.wf() && data@ == #[trigger] w0.serialized_spec() implies false by {
                        lemma_read_progress(w0, data@, format, pos as int);
                    }
                }
                return Err(e);
            },
        };
        let nonce = match read_vec(data, &mut pos, NONCE_LEN) {
            Ok(v) => v,
            Err(e) => {
                proof {
                    assert forall|w0: Wallet|
                        w0.wf() && data@ == #[trigger] w0.serialized_spec() implies false by {
                        lemma_read_progress(w0, data@, format, pos as int - 32);
                    }
                }
                return Err(e);
            },
        };
        let ciphertext = match read_vec(data, &mut pos, CIPHERTEXT_LEN) {
            Ok(v) => v,
            Err(e) => {
                proof {
                    assert forall|w0: Wallet|
                        w0.wf() && data@ == #[trigger] w0.serialized_spec() implies false by {
                        lemma_read_progress(w0, data@, format, pos as int - 44);
                    }
                }
                return Err(e);
            },
        };
        if pos != data.len() {
            proof {
                assert forall|w0: Wallet|
                    w0.wf() && data@ == #[trigger] w0.serialized_spec() implies false by {
                    lemma_read_progress(w0, data@, format, pos as int - 92);
                }
            }
            return Err(Error::FormatError);
        }
        let w = Wallet { format, public_key, nonce, ciphertext };
        proof {
            assert(w.serialized_spec() =~= data@);
        }
        Ok(w)
    }

    /// Re-encrypt under a new format with the same password.  Decrypting
    /// under the old format happens first, so a wrong password aborts before
    /// anything is produced; the address is preserved bit for bit.
    pub fn upgrade(&self, password: &[u8], new_format: Format) -> (r: Result<Wallet, Error>)
        requires
            self.wf(),
            new_format.wf(),
            password@.len() <= 0xffff_ffff,
        ensures
            r matches Ok(w) ==> w.wf() && w.public_key@ == self.public_key@ && w.address_spec()
                == self.address_spec(),
            r matches Ok(w) ==> aead_open(
                w.format.key_spec(password@),
                w.nonce@,
                w.ciphertext@,
            ) == aead_open(self.format.key_spec(password@), self.nonce@, self.ciphertext@),
            r matches Ok(w) ==> w.format.tag_spec() == new_format.tag_spec(),
            r is Ok ==> self.decrypt_err(password@) is None,
            r matches Err(e) ==> e == Error::IoError || Some(e) == self.decrypt_err(password@),
            self.decrypt_err(password@) is None ==> r is Ok || r == Err::<Wallet, Error>(
                Error::IoError,
            ),
    {
        let keypair = match self.decrypt(password) {
            Ok(kp) => kp,
            Err(e) => return Err(e),
        };
        match Wallet::encrypt(&keypair, password, new_format) {
            Ok(w) => Ok(w),
            Err(e) => Err(e),
        }
    }
}

/// A freshly dealt sharded wallet satisfies its own contract: the full share
/// list derives the sealing key, and every at-least-threshold distinct
/// selection of its shares does too.
proof fn lemma_fresh_shards(
    w: Wallet,
    kp: Keypair,
    password: Seq<u8>,
    dealt: Seq<Vec<u8>>,
    mask: Seq<u8>,
)
    requires
        w.format matches Format::Sharded(s) && {
            &&& s.key_shares@.len() == dealt.len()
            &&& dealt.len() == s.key_share_count as int
            &&& 1 <= s.recovery_threshold <= s.key_share_count
            &&& (forall|a: int|
                0 <= a < dealt.len() ==> (#[trigger] dealt[a])@.len() == 33 && dealt[a]@[0] == a
                    + 1)
            &&& (forall|a: int|
                0 <= a < dealt.len() ==> (#[trigger] s.key_shares@[a]).0@ == dealt[a]@)
            &&& deal_recovers(s.recovery_threshold as int, dealt, mask)
            &&& aead_open(
                xor_bytes(s.pwhash.key_spec(password), mask),
                w.nonce@,
                w.ciphertext@,
            ) == Some(kp.secret@)
        },
    ensures
        w.format matches Format::Sharded(s) ==> s.share_err() is None && aead_open(
            w.format.key_spec(password),
            w.nonce@,
            w.ciphertext@,
        ) == Some(kp.secret@),
        w.recoverable(kp, password),
{
    let s = w.format->Sharded_0;
    let sv = share_views(s.key_shares@);
    let k = s.recovery_threshold as int;
    assert forall|a: int| 0 <= a < sv.len() implies #[trigger] sv[a] == dealt[a]@ by {
        assert(s.key_shares@[a].0@ == dealt[a]@);
    }
    // No two fresh shares carry the same evaluation point.
    assert forall|a: int, b: int|
        #![trigger s.key_shares@[a], s.key_shares@[b]]
        0 <= a < b < s.key_shares@.len() implies s.key_shares@[a].0@[0]
        != s.key_shares@[b].0@[0] by {
        assert(dealt[a]@[0] == a + 1 && dealt[b]@[0] == b + 1);
    }
    assert(!has_dup_spec(s.key_shares@));
    // The full share list is itself a valid selection, so it combines to the
    // dealt mask and the derived key is the sealing key.
    assert(distinct_points(sv)) by {
        assert forall|a: int, b: int|
            #![trigger sv[a], sv[b]]
            0 <= a < b < sv.len() implies sv[a][0] != sv[b][0] by {
            assert(sv[a] == dealt[a]@ && sv[b] == dealt[b]@);
        }
    }
    assert(selection_of(sv, dealt)) by {
        assert forall|a: int| 0 <= a < sv.len() implies among(#[trigger] sv[a], dealt) by {
            assert(sv[a] == dealt[a]@);
        }
    }
    assert(sv.len() >= k);
    assert(sss_combined(k, sv) == mask);
    assert(s.key_spec(password) == xor_bytes(s.pwhash.key_spec(password), mask));
    // Any distinct selection drawn from the wallet's shares is drawn from
    // the dealt shares, so it also combines to the mask.
    assert forall|sel: Seq<Seq<u8>>|
        sel.len() >= k && distinct_points(sel) && selection_of_shares(sel, s.key_shares@) implies
        aead_open(
        xor_bytes(s.pwhash.key_spec(password), #[trigger] sss_combined(k, sel)),
        w.nonce@,
        w.ciphertext@,
    ) == Some(kp.secret@) by {
        assert(selection_of(sel, dealt)) by {
            assert forall|a: int| 0 <= a < sel.len() implies among(#[trigger] sel[a], dealt) by {
                assert(among_shares(sel[a], s.key_shares@));
                let j = choose|j: int|
                    0 <= j < s.key_shares@.len() && sel[a] == (#[trigger] s.key_shares@[j]).0@;
                assert(s.key_shares@[j].0@ == dealt[j]@);
            }
        }
        assert(sss_combined(k, sel) == mask);
    }
}

/// Where each piece of a well-formed wallet's envelope sits.
proof fn lemma_envelope_parts(w: Wallet)
    requires
        w.wf(),
    ensures
        w.serialized_spec().len() == 118 + w.format.trailing_spec().len(),
        w.serialized_spec()[0] == w.format.tag_spec(),
        w.serialized_spec().subrange(1, 26) == format_pwhash(w.format).serialized_spec(),
        w.serialized_spec().subrange(26, 26 + w.format.trailing_spec().len() as int)
            == w.format.trailing_spec(),
        w.serialized_spec().subrange(
            26 + w.format.trailing_spec().len() as int,
            58 + w.format.trailing_spec().len() as int,
        ) == w.public_key@,
        w.serialized_spec().subrange(
            58 + w.format.trailing_spec().len() as int,
            70 + w.format.trailing_spec().len() as int,
        ) == w.nonce@,
        w.serialized_spec().subrange(
            70 + w.format.trailing_spec().len() as int,
            118 + w.format.trailing_spec().len() as int,
        ) == w.ciphertext@,
{
    let pw = format_pwhash(w.format).serialized_spec();
    assert(pw.len() == 25);
    let t = w.format.trailing_spec();
    let tl = t.len() as int;
    assert(w.serialized_spec().subrange(1, 26) =~= pw);
    assert(w.serialized_spec().subrange(26, 26 + tl) =~= t);
    assert(w.serialized_spec().subrange(26 + tl, 58 + tl) =~= w.public_key@);
    assert(w.serialized_spec().subrange(58 + tl, 70 + tl) =~= w.nonce@);
    assert(w.serialized_spec().subrange(70 + tl, 118 + tl) =~= w.ciphertext@);
}

/// While parsing the envelope of a well-formed wallet, the position after
/// the trailing metadata and the remaining length are pinned by that wallet.
proof fn lemma_read_progress(w0: Wallet, data: Seq<u8>, f: Format, p: int)
    requires
        w0.wf(),
        data == w0.serialized_spec(),
        f.wf(),
        f.tag_spec() == data[0],
        26 <= p <= data.len(),
        f.trailing_spec() == data.subrange(26, p),
    ensures
        p == 26 + w0.format.trailing_spec().len(),
        data.len() == p + 92,
{
    lemma_envelope_parts(w0);
    assert(data[0] == w0.format.tag_spec());
    if w0.format is Basic {
        if f is Sharded {
            assert(f.tag_spec() == TAG_SHARDED && w0.format.tag_spec() == TAG_BASIC);
        }
        assert(f.trailing_spec() == Seq::<u8>::empty());
        assert(data.subrange(26, p).len() == p - 26);
        assert(w0.format.trailing_spec().len() == 0);
    } else {
        if f is Basic {
            assert(f.tag_spec() == TAG_BASIC && w0.format.tag_spec() == TAG_SHARDED);
        }
        let fs = f->Sharded_0;
        let s0 = w0.format->Sharded_0;
        crate::format::lemma_sharded_tlen(fs);
        crate::format::lemma_sharded_tlen(s0);
        assert(data.subrange(26, p).len() == p - 26);
        assert(p - 26 == 3 + 33 * fs.key_shares@.len());
        assert(f.trailing_spec()[2] == fs.key_shares@.len() as u8);
        assert(data.subrange(26, p)[2] == data[28]);
        assert(w0.format.trailing_spec()[2] == s0.key_shares@.len() as u8);
        assert(data.subrange(26, 26 + w0.format.trailing_spec().len() as int)[2] == data[28]);
        assert(fs.key_shares@.len() as u8 == s0.key_shares@.len() as u8);
        assert(fs.key_shares@.len() <= 255 && s0.key_shares@.len() <= 255);
        assert(fs.key_shares@.len() == s0.key_shares@.len());
    }
}

/// Serialization is injective on well-formed wallets: two with the same
/// envelope bytes agree in every stored field.  Together with the contracts
/// of `write` and `read` this says that reading a written envelope gives
/// back the wallet that wrote it, byte for byte and share for share.
pub proof fn lemma_envelope_roundtrip(w1: Wallet, w2: Wallet)
    requires
        w1.wf(),
        w2.wf(),
        w1.serialized_spec() == w2.serialized_spec(),
    ensures
        w1.format.tag_spec() == w2.format.tag_spec(),
        format_pwhash(w1.format).same_as(&format_pwhash(w2.format)),
        w1.public_key@ == w2.public_key@,
        w1.nonce@ == w2.nonce@,
        w1.ciphertext@ == w2.ciphertext@,
        w1.format matches Format::Sharded(s1) ==> w2.format matches Format::Sharded(s2)
            && s1.key_share_count == s2.key_share_count && s1.recovery_threshold
            == s2.recovery_threshold && share_views(s1.key_shares@) == share_views(s2.key_shares@),
{
    lemma_envelope_parts(w1);
    lemma_envelope_parts(w2);
    let b = w1.serialized_spec();
    let t1 = w1.format.trailing_spec();
    let t2 = w2.format.trailing_spec();
    // The tag byte settles the variant, and with it the trailing length.
    assert(w1.format.tag_spec() == w2.format.tag_spec());
    if w1.format is Basic {
        assert(w2.format is Basic);
    } else {
        assert(w1.format.tag_spec() == TAG_SHARDED);
        assert(w2.format is Sharded);
    }
    assert(t1.len() == t2.len());
    let tl = t1.len() as int;
    crate::pwhash::lemma_pwhash_roundtrip(
        &format_pwhash(w1.format),
        &format_pwhash(w2.format),
        b,
        1,
    );
    assert(w1.public_key@ == b.subrange(26 + tl, 58 + tl));
    assert(w1.nonce@ == b.subrange(58 + tl, 70 + tl));
    assert(w1.ciphertext@ == b.subrange(70 + tl, 118 + tl));
    if w1.format is Sharded {
        let s1 = w1.format->Sharded_0;
        let s2 = w2.format->Sharded_0;
        assert(t1 == t2);
        let sv1 = share_views(s1.key_shares@);
        let sv2 = share_views(s2.key_shares@);
        assert forall|a: int| 0 <= a < sv1.len() implies (#[trigger] sv1[a]).len() == 33 by {
            assert(s1.key_shares@[a].wf());
        }
        assert forall|a: int| 0 <= a < sv2.len() implies (#[trigger] sv2[a]).len() == 33 by {
            assert(s2.key_shares@[a].wf());
        }
        lemma_shares_concat_len(sv1);
        lemma_shares_concat_len(sv2);
        assert(t1[2] == sv1.len() as u8 && t2[2] == sv2.len() as u8);
        assert(sv1.len() <= 255 && sv2.len() <= 255);
        assert(sv1.len() == sv2.len());
        assert(t1[0] == s1.key_share_count && t1[1] == s1.recovery_threshold);
        assert(s1.key_share_count == s2.key_share_count && s1.recovery_threshold
            == s2.recovery_threshold);
        let c1 = shares_concat(sv1);
        let c2 = shares_concat(sv2);
        assert(c1 =~= c2) by {
            assert(t1.subrange(3, t1.len() as int) =~= c1);
            assert(t2.subrange(3, t2.len() as int) =~= c2);
        }
        assert forall|i: int| 0 <= i < sv1.len() implies #[trigger] sv1[i] == sv2[i] by {
            assert forall|j: int| 0 <= j < 33 implies #[trigger] sv1[i][j] == sv2[i][j] by {
                lemma_shares_concat_index(sv1, i, j);
                lemma_shares_concat_index(sv2, i, j);
            }
            assert(sv1[i] =~= sv2[i]);
        }
        assert(sv1 =~= sv2);
    }
}

/// Pooling shard wallets that hold one share each lines the shares up with
/// the wallets.
proof fn lemma_pooled_singles(picked: Seq<Wallet>)
    requires
        forall|a: int|
            0 <= a < picked.len() ==> ((#[trigger] picked[a]).format matches Format::Sharded(t)
                && t.key_shares@.len() == 1),
    ensures
        pooled_shares(picked).len() == picked.len(),
        forall|a: int|
            0 <= a < picked.len() ==> #[trigger] pooled_shares(picked)[a] == (
            picked[a].format->Sharded_0).key_shares@[0],
    decreases picked.len(),
{
    if picked.len() > 0 {
        let pre = picked.drop_last();
        assert forall|a: int|
            0 <= a < pre.len() implies ((#[trigger] pre[a]).format matches Format::Sharded(t)
            && t.key_shares@.len() == 1) by {
            assert(pre[a] == picked[a]);
        }
        lemma_pooled_singles(pre);
        assert(picked.last().format->Sharded_0.key_shares@.len() == 1);
    }
}

/// Threshold recovery through shard files: take any at-least-threshold
/// many of a freshly sharded wallet's shard envelopes, with pairwise
/// distinct share points; pooling their shares — as reassembly does —
/// derives a key under which the common envelope decrypts to the original
/// keypair.
pub proof fn lemma_shard_recovery(
    w: Wallet,
    s: Sharded,
    kp: Keypair,
    password: Seq<u8>,
    picked: Seq<Wallet>,
)
    requires
        kp.wf(),
        w.encrypts(kp, password),
        w.recoverable(kp, password),
        w.format == Format::Sharded(s),
        picked.len() >= s.recovery_threshold as int,
        forall|a: int|
            0 <= a < picked.len() ==> exists|i: int|
                0 <= i < s.key_shares@.len() && w.shard_matches(s, #[trigger] picked[a], i),
        distinct_points(share_views(pooled_shares(picked))),
    ensures
        aead_open(
            xor_bytes(
                s.pwhash.key_spec(password),
                sss_combined(
                    s.recovery_threshold as int,
                    share_views(pooled_shares(picked)),
                ),
            ),
            w.nonce@,
            w.ciphertext@,
        ) == Some(kp.secret@),
{
    assert forall|a: int|
        0 <= a < picked.len() implies ((#[trigger] picked[a]).format matches Format::Sharded(t)
        && t.key_shares@.len() == 1) by {
        let i = choose|i: int|
            0 <= i < s.key_shares@.len() && w.shard_matches(s, #[trigger] picked[a], i);
        assert(w.shard_matches(s, picked[a], i));
    }
    lemma_pooled_singles(picked);
    let sel = share_views(pooled_shares(picked));
    assert(sel.len() >= s.recovery_threshold as int);
    assert forall|a: int| 0 <= a < sel.len() implies among_shares(
        #[trigger] sel[a],
        s.key_shares@,
    ) by {
        let i = choose|i: int|
            0 <= i < s.key_shares@.len() && w.shard_matches(s, #[trigger] picked[a], i);
        assert(w.shard_matches(s, picked[a], i));
        assert(sel[a] == (picked[a].format->Sharded_0).key_shares@[0].0@);
        assert(sel[a] == s.key_shares@[i].0@);
    }
    assert(selection_of_shares(sel, s.key_shares@));
    assert(sss_combined(s.recovery_threshold as int, sel) == sss_combined(
        s.recovery_threshold as int,
        sel,
    ));
}

/// Round trip: decrypting an encryption of a keypair under the same
/// password cannot fail, and yields exactly that keypair's secret and
/// public halves.
pub proof fn lemma_encrypt_then_decrypt(w: Wallet, kp: Keypair, password: Seq<u8>)
    requires
        kp.wf(),
        w.encrypts(kp, password),
    ensures
        w.decrypt_err(password) is None,
        aead_open(w.format.key_spec(password), w.nonce@, w.ciphertext@) == Some(kp.secret@),
        w.public_key@ == kp.public@,
{
}

/// Threshold recovery: for a freshly sharded encryption, any selection of
/// at least the threshold many shares, pairwise distinct and drawn from the
/// wallet's own, derives a key under which the envelope decrypts to the
/// original keypair — so those shares and the password reconstruct the
/// original wallet's secret and address.
pub proof fn lemma_threshold_recovery(
    w: Wallet,
    s: Sharded,
    kp: Keypair,
    password: Seq<u8>,
    sel: Seq<Seq<u8>>,
)
    requires
        kp.wf(),
        w.encrypts(kp, password),
        w.recoverable(kp, password),
        w.format == Format::Sharded(s),
        sel.len() >= s.recovery_threshold as int,
        distinct_points(sel),
        selection_of_shares(sel, s.key_shares@),
    ensures
        aead_open(
            xor_bytes(
                s.pwhash.key_spec(password),
                sss_combined(s.recovery_threshold as int, sel),
            ),
            w.nonce@,
            w.ciphertext@,
        ) == Some(kp.secret@),
{
    assert(sss_combined(s.recovery_threshold as int, sel) == sss_combined(
        s.recovery_threshold as int,
        sel,
    ));
}

} // verus!
