//! On-disk format variants.
//!
//! A format encapsulates per-variant key derivation and the variant-specific
//! trailing metadata of the envelope; the common parts (version tag, the
//! password-hash block, nonce and ciphertext) are handled by the wallet.
//! `Basic` derives the symmetric key from the password alone.  `Sharded`
//! blinds that key with a random 32-byte secret that is split into
//! `key_share_count` shares of which `recovery_threshold` distinct ones
//! recover it.

use vstd::prelude::*;

use crate::bytes::{copy_vec, read_u8, read_vec, wipe, xor_bytes, xor_vec, write_all};
use crate::error::Error;
use crate::pwhash::PWHash;
use crate::sss::{sss_combine, sss_combined};

verus! {

/// Envelope tag of the basic variant.
pub const TAG_BASIC: u8 = 1;

/// Envelope tag of the sharded variant.
pub const TAG_SHARDED: u8 = 2;

/// Serialized length of one key share: one index byte, 32 payload bytes.
pub const KEY_SHARE_LEN: usize = 33;

/// One share of the sharded key secret: a 1-based evaluation point followed
/// by 32 payload bytes.  Created only while splitting; consumed only while
/// recovering.
#[derive(Clone, Debug)]
pub struct KeyShare(pub Vec<u8>);

impl KeyShare {
    /// Exactly 33 bytes.
    pub open spec fn wf(&self) -> bool {
        self.0@.len() == KEY_SHARE_LEN
    }

    /// The share bytes as a fresh vector.
    pub fn to_vec(&self) -> (r: Vec<u8>)
        ensures
            r@ == self.0@,
    {
        copy_vec(&self.0)
    }

    /// Wrap 33 share bytes.
    pub fn from_slice(slice: &[u8]) -> (r: KeyShare)
        requires
            slice@.len() == KEY_SHARE_LEN,
        ensures
            r.0@ == slice@,
            r.wf(),
    {
        let mut out: Vec<u8> = Vec::new();
        let mut i: usize = 0;
        while i < slice.len()
            invariant
                i <= slice@.len(),
                out@ == slice@.subrange(0, i as int),
            decreases slice@.len() - i,
        {
            out.push(slice[i]);
            i = i + 1;
            proof {
                assert(out@ =~= slice@.subrange(0, i as int));
            }
        }
        proof {
            assert(slice@.subrange(0, slice@.len() as int) =~= slice@);
        }
        KeyShare(out)
    }
}

/// The byte views of a share list.
pub open spec fn share_views(shares: Seq<KeyShare>) -> Seq<Seq<u8>> {
    shares.map_values(|s: KeyShare| s.0@)
}

/// Two shares in the list carry the same evaluation point.
pub open spec fn has_dup_spec(shares: Seq<KeyShare>) -> bool {
    exists|a: int, b: int|
        #![trigger shares[a], shares[b]]
        0 <= a < b < shares.len() && shares[a].0@[0] == shares[b].0@[0]
}

/// The concatenation of the shares' bytes, in order.
pub open spec fn shares_concat(sv: Seq<Seq<u8>>) -> Seq<u8>
    decreases sv.len(),
{
    if sv.len() == 0 {
        Seq::empty()
    } else {
        shares_concat(sv.drop_last()) + sv.last()
    }
}

/// The concatenation of 33-byte shares is 33 bytes per share.
pub proof fn lemma_shares_concat_len(sv: Seq<Seq<u8>>)
    requires
        forall|a: int| 0 <= a < sv.len() ==> (#[trigger] sv[a]).len() == 33,
    ensures
        shares_concat(sv).len() == 33 * sv.len(),
    decreases sv.len(),
{
    if sv.len() > 0 {
        lemma_shares_concat_len(sv.drop_last());
    }
}

/// Byte `j` of share `i` sits at offset `33 * i + j` of the concatenation.
pub proof fn lemma_shares_concat_index(sv: Seq<Seq<u8>>, i: int, j: int)
    requires
        forall|a: int| 0 <= a < sv.len() ==> (#[trigger] sv[a]).len() == 33,
        0 <= i < sv.len(),
        0 <= j < 33,
    ensures
        shares_concat(sv)[33 * i + j] == sv[i][j],
    decreases sv.len(),
{
    lemma_shares_concat_len(sv);
    let pre = sv.drop_last();
    lemma_shares_concat_len(pre);
    if i < sv.len() - 1 {
        lemma_shares_concat_index(pre, i, j);
        assert(pre[i] == sv[i]);
    } else {
        assert(shares_concat(sv)[33 * i + j] == sv.last()[j]);
    }
}

/// Report whether some evaluation point repeats in the list.
pub fn has_duplicate(shares: &Vec<KeyShare>) -> (r: bool)
    requires
        forall|i: int| 0 <= i < shares@.len() ==> (#[trigger] shares@[i]).wf(),
    ensures
        r == has_dup_spec(shares@),
{
    let n = shares.len();
    let mut i: usize = 0;
    while i < n
        invariant
            n == shares@.len(),
            i <= n,
            forall|i2: int| 0 <= i2 < n ==> (#[trigger] shares@[i2]).wf(),
            forall|a: int, b: int|
                #![trigger shares@[a], shares@[b]]
                0 <= a < b < n && a < i ==> shares@[a].0@[0] != shares@[b].0@[0],
        decreases n - i,
    {
        let mut j: usize = i + 1;
        while j < n
            invariant
                n == shares@.len(),
                i < n,
                i + 1 <= j <= n,
                forall|i2: int| 0 <= i2 < n ==> (#[trigger] shares@[i2]).wf(),
                forall|b: int| i < b < j ==> shares@[i as int].0@[0] != (#[trigger] shares@[b]).0@[0],
            decreases n - j,
        {
            if shares[i].0[0] == shares[j].0[0] {
                return true;
            }
            j = j + 1;
        }
        i = i + 1;
    }
    false
}

/// Basic format: key derivation straight from the password hash.
#[derive(Clone, Debug)]
pub struct Basic {
    /// The password-hash parameters.
    pub pwhash: PWHash,
}

impl Basic {
    /// Sound parameters.
    pub open spec fn wf(&self) -> bool {
        self.pwhash.wf()
    }

    /// The symmetric key this format derives from a password.
    pub open spec fn key_spec(&self, password: Seq<u8>) -> Seq<u8> {
        self.pwhash.key_spec(password)
    }

    /// Derive the 32-byte symmetric key of `password`.
    pub fn derive_key(&self, password: &[u8]) -> (r: Result<Vec<u8>, Error>)
        requires
            self.wf(),
            password@.len() <= 0xffff_ffff,
        ensures
            r matches Ok(v) ==> v@ == self.key_spec(password@) && v@.len() == 32,
            r matches Err(e) ==> e == Error::IoError,
    {
        self.pwhash.pwhash(password)
    }

    /// Replace the password-hash parameters.
    pub fn mut_pwhash(&mut self) -> (r: &mut PWHash)
        ensures
            *r == old(self).pwhash,
            *final(self) == (Basic { pwhash: *final(r) }),
    {
        &mut self.pwhash
    }

    /// The password-hash parameters.
    pub fn pwhash(&self) -> (r: &PWHash)
        ensures
            *r == self.pwhash,
    {
        &self.pwhash
    }

    /// Basic carries no trailing metadata: reading consumes nothing.
    pub fn read(&mut self, data: &Vec<u8>, pos: &mut usize) -> (r: Result<(), Error>)
        ensures
            r is Ok,
            *final(self) == *old(self),
            *final(pos) == *old(pos),
    {
        let _ = data;
        Ok(())
    }

    /// Basic carries no trailing metadata: writing appends nothing.
    pub fn write(&self, out: &mut Vec<u8>) -> (r: Result<(), Error>)
        ensures
            r is Ok,
            final(out)@ == old(out)@,
    {
        let _ = out;
        Ok(())
    }
}

/// The trailing bytes of a well-formed sharded value sit at `start` of
/// `data`.
pub open spec fn sharded_trailing_at(s0: Sharded, data: Seq<u8>, start: int) -> bool {
    &&& s0.wf()
    &&& 0 <= start
    &&& start + 3 + 33 * s0.key_shares@.len() <= data.len()
    &&& data.subrange(start, start + 3 + 33 * s0.key_shares@.len()) == s0.trailing_spec()
}

/// A well-formed sharded value's trailing metadata is three header bytes
/// plus 33 per share.
pub proof fn lemma_sharded_tlen(s0: Sharded)
    requires
        s0.wf(),
    ensures
        s0.trailing_spec().len() == 3 + 33 * s0.key_shares@.len(),
{
    assert forall|a: int|
        0 <= a < share_views(s0.key_shares@).len() implies (#[trigger] share_views(
        s0.key_shares@,
    )[a]).len() == 33 by {
        assert(s0.key_shares@[a].wf());
    }
    lemma_shares_concat_len(share_views(s0.key_shares@));
    assert(share_views(s0.key_shares@).len() == s0.key_shares@.len());
}

/// The header bytes of well-placed trailing metadata name its parameters.
proof fn lemma_trailing_header(s0: Sharded, data: Seq<u8>, start: int)
    requires
        sharded_trailing_at(s0, data, start),
    ensures
        data[start] == s0.key_share_count,
        data[start + 1] == s0.recovery_threshold,
        data[start + 2] == s0.key_shares@.len() as u8,
        s0.key_shares@.len() <= 255,
        1 <= s0.recovery_threshold <= s0.key_share_count,
        s0.key_shares@.len() <= s0.key_share_count as int,
{
    let extent = 3 + 33 * s0.key_shares@.len();
    assert(data.subrange(start, start + extent)[0] == data[start]);
    assert(data.subrange(start, start + extent)[1] == data[start + 1]);
    assert(data.subrange(start, start + extent)[2] == data[start + 2]);
    assert(s0.trailing_spec()[0] == s0.key_share_count);
    assert(s0.trailing_spec()[1] == s0.recovery_threshold);
    assert(s0.trailing_spec()[2] == s0.key_shares@.len() as u8);
}

/// Sharded format: the password-derived key is blinded by a secret split
/// into `key_share_count` shares, any `recovery_threshold` of which (with
/// distinct evaluation points) recover it.
#[derive(Clone, Debug)]
pub struct Sharded {
    /// N: how many shares the secret is split into, at most 255.
    pub key_share_count: u8,
    /// K: how many distinct shares recovery needs, `1 <= K <= N`.
    pub recovery_threshold: u8,
    /// The password-hash parameters.
    pub pwhash: PWHash,
    /// Shares held in memory: empty on a freshly read full wallet file, one
    /// in a shard file, and transiently populated for key derivation.
    pub key_shares: Vec<KeyShare>,
}

impl Sharded {
    /// Sound thresholds, parameters and share sizes.
    pub open spec fn wf(&self) -> bool {
        &&& 1 <= self.recovery_threshold <= self.key_share_count
        &&& self.pwhash.wf()
        &&& self.key_shares@.len() <= self.key_share_count
        &&& forall|i: int| 0 <= i < self.key_shares@.len() ==> (#[trigger] self.key_shares@[i]).wf()
    }

    /// Why key derivation refuses the held shares, if it does: a repeated
    /// evaluation point is an invalid share; otherwise fewer distinct shares
    /// than the threshold are too few.
    pub open spec fn share_err(&self) -> Option<Error> {
        if has_dup_spec(self.key_shares@) {
            Some(Error::InvalidShare)
        } else if self.key_shares@.len() < self.recovery_threshold {
            Some(Error::InsufficientShares)
        } else {
            Option::<Error>::None
        }
    }

    /// The symmetric key this format derives: the password hash's key
    /// blinded with the share-recovered secret.
    pub open spec fn key_spec(&self, password: Seq<u8>) -> Seq<u8> {
        xor_bytes(
            self.pwhash.key_spec(password),
            sss_combined(self.recovery_threshold as int, share_views(self.key_shares@)),
        )
    }

    /// Derive the 32-byte symmetric key of `password` from the held shares.
    pub fn derive_key(&self, password: &[u8]) -> (r: Result<Vec<u8>, Error>)
        requires
            self.wf(),
            password@.len() <= 0xffff_ffff,
        ensures
            self.share_err() matches Some(e) ==> r matches Err(f) && f == e,
            r matches Ok(v) ==> self.share_err() is None && v@ == self.key_spec(password@)
                && v@.len() == 32,
            r matches Err(e) ==> e == Error::IoError || Some(e) == self.share_err(),
    {
        if has_duplicate(&self.key_shares) {
            return Err(Error::InvalidShare);
        }
        if self.key_shares.len() < self.recovery_threshold as usize {
            return Err(Error::InsufficientShares);
        }
        let mut views: Vec<Vec<u8>> = Vec::new();
        let mut i: usize = 0;
        while i < self.key_shares.len()
            invariant
                i <= self.key_shares@.len(),
                views@.len() == i,
                forall|a: int| 0 <= a < i ==> (#[trigger] views@[a])@ == self.key_shares@[a].0@,
                forall|a: int| 0 <= a < self.key_shares@.len() ==> (
                #[trigger] self.key_shares@[a]).wf(),
            decreases self.key_shares@.len() - i,
        {
            views.push(self.key_shares[i].to_vec());
            i = i + 1;
        }
        let mut combined = sss_combine(&views, self.recovery_threshold);
        proof {
            assert(views@.map_values(|v: Vec<u8>| v@) =~= share_views(self.key_shares@));
        }
        let mut pwkey = match self.pwhash.pwhash(password) {
            Ok(k) => k,
            Err(e) => return Err(e),
        };
        let key = xor_vec(&pwkey, &combined);
        wipe(&mut pwkey);
        wipe(&mut combined);
        Ok(key)
    }

    /// Replace the password-hash parameters.
    pub fn mut_pwhash(&mut self) -> (r: &mut PWHash)
        ensures
            *r == old(self).pwhash,
            *final(self) == (Sharded {
                key_share_count: old(self).key_share_count,
                recovery_threshold: old(self).recovery_threshold,
                pwhash: *final(r),
                key_shares: old(self).key_shares,
            }),
    {
        &mut self.pwhash
    }

    /// The password-hash parameters.
    pub fn pwhash(&self) -> (r: &PWHash)
        ensures
            *r == self.pwhash,
    {
        &self.pwhash
    }

    /// The trailing metadata: N, K, a share count, then the shares.
    pub open spec fn trailing_spec(&self) -> Seq<u8> {
        seq![
            self.key_share_count,
            self.recovery_threshold,
            self.key_shares@.len() as u8,
        ] + shares_concat(share_views(self.key_shares@))
    }

    /// Parse trailing metadata, keeping the password hash.  Thresholds out
    /// of order or a short buffer are format errors; the trailing bytes of
    /// any well-formed sharded value always parse.
    pub fn read(&mut self, data: &Vec<u8>, pos: &mut usize) -> (r: Result<(), Error>)
        requires
            old(self).pwhash.wf(),
        ensures
            r matches Ok(()) ==> final(self).wf() && final(self).pwhash == old(self).pwhash
                && *old(pos) <= *final(pos) <= data@.len() && final(self).trailing_spec()
                == data@.subrange(*old(pos) as int, *final(pos) as int),
            r matches Err(e) ==> e == Error::FormatError,
            forall|s0: Sharded|
                #[trigger] sharded_trailing_at(s0, data@, *old(pos) as int) ==> r is Ok,
    {
        let ghost start: int = *pos as int;
        proof {
            assert forall|s0: Sharded| #[trigger] sharded_trailing_at(
                s0,
                data@,
                start,
            ) implies start + 3 <= data@.len() by {
                assert(33 * s0.key_shares@.len() >= 0) by (nonlinear_arith);
            }
        }
        let n = match read_u8(data, pos) {
            Ok(b) => b,
            Err(e) => return Err(e),
        };
        let k = match read_u8(data, pos) {
            Ok(b) => b,
            Err(e) => return Err(e),
        };
        let count = match read_u8(data, pos) {
            Ok(b) => b,
            Err(e) => return Err(e),
        };
        if k < 1 || n < k || count > n {
            proof {
                assert forall|s0: Sharded| #[trigger] sharded_trailing_at(
                    s0,
                    data@,
                    start,
                ) implies false by {
                    lemma_trailing_header(s0, data@, start);
                }
            }
            return Err(Error::FormatError);
        }
        let mut shares: Vec<KeyShare> = Vec::new();
        let mut i: usize = 0;
        while i < count as usize
            invariant
                i <= count as int,
                shares@.len() == i,
                forall|a: int| 0 <= a < i ==> (#[trigger] shares@[a]).wf(),
                0 <= start,
                start == *old(pos) as int,
                start + 3 <= *pos <= data@.len(),
                data@[start + 2] == count,
                shares_concat(share_views(shares@)) == data@.subrange(start + 3, *pos as int),
            decreases count as int - i,
        {
            let ghost prev: int = *pos as int;
            let ghost pre = shares@;
            let payload = match read_vec(data, pos, KEY_SHARE_LEN) {
                Ok(v) => v,
                Err(e) => {
                    proof {
                        assert forall|s0: Sharded| #[trigger] sharded_trailing_at(
                            s0,
                            data@,
                            start,
                        ) implies false by {
                            lemma_trailing_header(s0, data@, start);
                            assert forall|a: int|
                                0 <= a < share_views(shares@).len() implies (
                            #[trigger] share_views(shares@)[a]).len() == 33 by {
                                assert(shares@[a].wf());
                            }
                            lemma_shares_concat_len(share_views(shares@));
                            assert(share_views(shares@).len() == shares@.len());
                            assert(data@.subrange(start + 3, prev).len() == prev - (start + 3));
                            assert(prev == start + 3 + 33 * (i as int));
                            assert(count == s0.key_shares@.len() as u8);
                            assert(s0.key_shares@.len() < 256);
                            assert(s0.key_shares@.len() == count as int);
                            assert(i as int + 1 <= s0.key_shares@.len());
                            assert(prev + 33 <= start + 3 + 33 * s0.key_shares@.len()) by (nonlinear_arith)
                                requires
                                    prev == start + 3 + 33 * (i as int),
                                    i as int + 1 <= s0.key_shares@.len(),
                            ;
                        }
                    }
                    return Err(e);
                },
            };
            let share = KeyShare(payload);
            shares.push(share);
            i = i + 1;
            proof {
                assert(share_views(shares@).drop_last() =~= share_views(pre));
                assert(share_views(shares@).last() == shares@.last().0@);
                assert(shares_concat(share_views(shares@)) == shares_concat(share_views(pre))
                    + payload@);
                assert(data@.subrange(start + 3, *pos as int) =~= data@.subrange(start + 3, prev)
                    + data@.subrange(prev, *pos as int));
            }
        }
        self.key_share_count = n;
        self.recovery_threshold = k;
        self.key_shares = shares;
        proof {
            assert(self.trailing_spec() =~= data@.subrange(start, *pos as int));
        }
        Ok(())
    }

    /// Append the trailing metadata.
    pub fn write(&self, out: &mut Vec<u8>) -> (r: Result<(), Error>)
        requires
            self.wf(),
        ensures
            r is Ok,
            final(out)@ == old(out)@ + self.trailing_spec(),
    {
        out.push(self.key_share_count);
        out.push(self.recovery_threshold);
        out.push(self.key_shares.len() as u8);
        proof {
            assert(share_views(self.key_shares@.subrange(0, 0)) =~= Seq::<Seq<u8>>::empty());
            assert(out@ =~= old(out)@ + seq![
                self.key_share_count,
                self.recovery_threshold,
                self.key_shares@.len() as u8,
            ] + shares_concat(share_views(self.key_shares@.subrange(0, 0))));
        }
        let mut i: usize = 0;
        while i < self.key_shares.len()
            invariant
                i <= self.key_shares@.len(),
                self.key_shares@.len() <= 255,
                out@ == old(out)@ + seq![
                    self.key_share_count,
                    self.recovery_threshold,
                    self.key_shares@.len() as u8,
                ] + shares_concat(share_views(self.key_shares@.subrange(0, i as int))),
            decreases self.key_shares@.len() - i,
        {
            write_all(out, &self.key_shares[i].0);
            i = i + 1;
            proof {
                let pre = self.key_shares@.subrange(0, i - 1);
                let cur = self.key_shares@.subrange(0, i as int);
                assert(share_views(cur).drop_last() =~= share_views(pre));
                assert(shares_concat(share_views(cur)) =~= shares_concat(share_views(pre))
                    + self.key_shares@[i - 1].0@);
                assert(out@ =~= old(out)@ + seq![
                    self.key_share_count,
                    self.recovery_threshold,
                    self.key_shares@.len() as u8,
                ] + shares_concat(share_views(cur)));
            }
        }
        proof {
            assert(self.key_shares@.subrange(0, self.key_shares@.len() as int)
                =~= self.key_shares@);
            assert(out@ =~= old(out)@ + self.trailing_spec());
        }
        Ok(())
    }
}

/// The closed set of format variants; adding one is a compile-time-checked
/// exhaustive-match update across read, write and key derivation.
#[derive(Clone, Debug)]
pub enum Format {
    /// Password-only key derivation.
    Basic(Basic),
    /// Share-blinded key derivation.
    Sharded(Sharded),
}

/// The password-hash parameters a format carries.
pub open spec fn format_pwhash(f: Format) -> PWHash {
    match f {
        Format::Basic(b) => b.pwhash,
        Format::Sharded(s) => s.pwhash,
    }
}

impl Format {
    /// Sound parameters for the variant.
    pub open spec fn wf(&self) -> bool {
        match self {
            Format::Basic(b) => b.wf(),
            Format::Sharded(s) => s.wf(),
        }
    }

    /// The envelope tag byte of the variant.
    pub open spec fn tag_spec(&self) -> u8 {
        match self {
            Format::Basic(_) => TAG_BASIC,
            Format::Sharded(_) => TAG_SHARDED,
        }
    }

    /// Why key derivation refuses the variant's state, if it does.
    pub open spec fn key_err(&self) -> Option<Error> {
        match self {
            Format::Basic(_) => Option::<Error>::None,
            Format::Sharded(s) => s.share_err(),
        }
    }

    /// The symmetric key the variant derives from a password.
    pub open spec fn key_spec(&self, password: Seq<u8>) -> Seq<u8> {
        match self {
            Format::Basic(b) => b.key_spec(password),
            Format::Sharded(s) => s.key_spec(password),
        }
    }

    /// Derive the 32-byte symmetric key of `password`, uniformly over the
    /// variants.
    pub fn derive_key(&self, password: &[u8]) -> (r: Result<Vec<u8>, Error>)
        requires
            self.wf(),
            password@.len() <= 0xffff_ffff,
        ensures
            self.key_err() matches Some(e) ==> r matches Err(f) && f == e,
            r matches Ok(v) ==> self.key_err() is None && v@ == self.key_spec(password@)
                && v@.len() == 32,
            r matches Err(e) ==> e == Error::IoError || Some(e) == self.key_err(),
    {
        match self {
            Format::Basic(derive) => derive.derive_key(password),
            Format::Sharded(derive) => derive.derive_key(password),
        }
    }

    /// Replace the password-hash parameters of either variant.
    pub fn mut_pwhash(&mut self) -> (r: &mut PWHash)
        ensures
            *r == format_pwhash(*old(self)),
            format_pwhash(*final(self)) == *final(r),
            final(self).tag_spec() == old(self).tag_spec(),
    {
        match self {
            Format::Basic(derive) => derive.mut_pwhash(),
            Format::Sharded(derive) => derive.mut_pwhash(),
        }
    }

    /// The password-hash parameters.
    pub fn pwhash(&self) -> (r: &PWHash)
        ensures
            *r == format_pwhash(*self),
    {
        match self {
            Format::Basic(derive) => derive.pwhash(),
            Format::Sharded(derive) => derive.pwhash(),
        }
    }

    /// The trailing metadata of the variant.
    pub open spec fn trailing_spec(&self) -> Seq<u8> {
        match self {
            Format::Basic(_) => Seq::<u8>::empty(),
            Format::Sharded(s) => s.trailing_spec(),
        }
    }

    /// Parse the variant's trailing metadata.
    pub fn read(&mut self, data: &Vec<u8>, pos: &mut usize) -> (r: Result<(), Error>)
        requires
            format_pwhash(*old(self)).wf(),
            *old(pos) <= data@.len(),
        ensures
            r matches Ok(()) ==> final(self).wf() && final(self).tag_spec() == old(
                self,
            ).tag_spec() && format_pwhash(*final(self)) == format_pwhash(*old(self)) && *old(pos)
                <= *final(pos) <= data@.len() && final(self).trailing_spec() == data@.subrange(
                *old(pos) as int,
                *final(pos) as int,
            ),
            r matches Err(e) ==> e == Error::FormatError,
            *old(self) is Basic ==> r is Ok,
            *old(self) is Sharded ==> (forall|s0: Sharded|
                #[trigger] sharded_trailing_at(s0, data@, *old(pos) as int) ==> r is Ok),
    {
        match self {
            Format::Basic(derive) => {
                let r = derive.read(data, pos);
                proof {
                    assert(data@.subrange(*pos as int, *pos as int) =~= Seq::<u8>::empty());
                }
                r
            },
            Format::Sharded(derive) => derive.read(data, pos),
        }
    }

    /// Append the variant's trailing metadata.
    pub fn write(&self, out: &mut Vec<u8>) -> (r: Result<(), Error>)
        requires
            self.wf(),
        ensures
            r is Ok,
            final(out)@ == old(out)@ + self.trailing_spec(),
    {
        match self {
            Format::Basic(derive) => derive.write(out),
            Format::Sharded(derive) => derive.write(out),
        }
    }

    /// The basic variant over given password-hash parameters.
    pub fn basic(pwhash: PWHash) -> (r: Self)
        ensures
            r == Format::Basic(Basic { pwhash }),
    {
        Format::Basic(Basic { pwhash })
    }
}

} // verus!
