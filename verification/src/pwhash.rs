//! Password hashing parameters.
//!
//! A `PWHash` carries everything the key derivation needs besides the
//! password itself: an algorithm tag, a random salt and the cost parameters
//! of the memory-hard hash.  It is self-describing: the serialized block
//! round-trips byte for byte, so a wallet written today derives the same key
//! after storage and retrieval.

use vstd::prelude::*;

use crate::bytes::{copy_vec, read_u32_le, read_u8, read_vec, u32_le_bytes, write_all, write_u32_le};
use crate::crypto::{argon2id_key, argon2id_derive, random_bytes};
use crate::error::Error;

verus! {

/// Serialized length of the parameter block: tag, 16-byte salt, two costs.
pub const PWHASH_LEN: usize = 25;

/// The tag byte naming Argon2id version 0x13.
pub const ARGON2ID13_TAG: u8 = 1;

/// Default iteration count for interactive use.
pub const DEFAULT_T_COST: u32 = 2;

/// Default memory cost in KiB for interactive use.
pub const DEFAULT_M_COST: u32 = 19456;

/// Algorithm tag, salt and cost parameters for password-based key
/// derivation.  Only Argon2id version 0x13 is recognized; an unknown tag on
/// disk is a format error, never silently defaulted.
#[derive(Clone, Debug)]
pub struct PWHash {
    /// Random salt, 16 bytes.
    pub salt: Vec<u8>,
    /// Iteration count, at least 1.
    pub t_cost: u32,
    /// Memory cost in KiB, at least 8.
    pub m_cost: u32,
}

impl PWHash {
    /// Parameters the derivation accepts.
    pub open spec fn wf(&self) -> bool {
        self.salt@.len() == 16 && self.t_cost >= 1 && self.m_cost >= 8
    }

    /// The symmetric key these parameters derive from a password.
    pub open spec fn key_spec(&self, password: Seq<u8>) -> Seq<u8> {
        argon2id_key(password, self.salt@, self.t_cost, self.m_cost)
    }

    /// The serialized parameter block.
    pub open spec fn serialized_spec(&self) -> Seq<u8> {
        seq![ARGON2ID13_TAG] + self.salt@ + u32_le_bytes(self.t_cost) + u32_le_bytes(self.m_cost)
    }

    /// Field-wise sameness; what the round trip preserves.
    pub open spec fn same_as(&self, other: &PWHash) -> bool {
        self.salt@ == other.salt@ && self.t_cost == other.t_cost && self.m_cost == other.m_cost
    }

    /// The recommended parameter set with a fresh random salt.  Fails only
    /// when the random source does.
    pub fn argon2id13_default() -> (r: Result<PWHash, Error>)
        ensures
            r matches Ok(p) ==> p.wf() && p.t_cost == DEFAULT_T_COST && p.m_cost == DEFAULT_M_COST,
            r matches Err(e) ==> e == Error::IoError,
    {
        match random_bytes(16) {
            Ok(salt) => Ok(PWHash { salt, t_cost: DEFAULT_T_COST, m_cost: DEFAULT_M_COST }),
            Err(e) => Err(e),
        }
    }

    /// Derive the 32-byte symmetric key of `password`.  Deterministic for
    /// fixed password, salt and costs; fails only when the hash's working
    /// memory cannot be had.
    pub fn pwhash(&self, password: &[u8]) -> (r: Result<Vec<u8>, Error>)
        requires
            self.wf(),
            password@.len() <= 0xffff_ffff,
        ensures
            r matches Ok(v) ==> v@ == self.key_spec(password@) && v@.len() == 32,
            r matches Err(e) ==> e == Error::IoError,
    {
        argon2id_derive(password, &self.salt, self.t_cost, self.m_cost)
    }

    /// A field-for-field copy.
    pub fn duplicate(&self) -> (r: PWHash)
        ensures
            r.same_as(self),
            r.wf() <==> self.wf(),
    {
        PWHash { salt: copy_vec(&self.salt), t_cost: self.t_cost, m_cost: self.m_cost }
    }

    /// Append the parameter block to `out`.
    pub fn write(&self, out: &mut Vec<u8>)
        requires
            self.wf(),
        ensures
            final(out)@ == old(out)@ + self.serialized_spec(),
    {
        out.push(ARGON2ID13_TAG);
        write_all(out, &self.salt);
        write_u32_le(out, self.t_cost);
        write_u32_le(out, self.m_cost);
        proof {
            assert(out@ =~= old(out)@ + self.serialized_spec());
        }
    }

    /// Parse a parameter block.  Rejects a short buffer, an unknown
    /// algorithm tag and out-of-range costs as format errors.
    pub fn read(data: &Vec<u8>, pos: &mut usize) -> (r: Result<PWHash, Error>)
        ensures
            r matches Ok(p) ==> p.wf() && *old(pos) + PWHASH_LEN <= data@.len() && *final(pos)
                == *old(pos) + PWHASH_LEN && data@.subrange(
                *old(pos) as int,
                *old(pos) + PWHASH_LEN,
            ) == p.serialized_spec(),
            r matches Err(e) ==> e == Error::FormatError,
            forall|p0: PWHash|
                p0.wf() && *old(pos) + PWHASH_LEN <= data@.len() && data@.subrange(
                    *old(pos) as int,
                    *old(pos) + PWHASH_LEN,
                ) == #[trigger] p0.serialized_spec() ==> r is Ok,
    {
        let ghost start: int = *pos as int;
        let tag = match read_u8(data, pos) {
            Ok(t) => t,
            Err(e) => return Err(e),
        };
        if tag != ARGON2ID13_TAG {
            proof {
                assert forall|p0: PWHash|
                    p0.wf() && start + PWHASH_LEN <= data@.len() && data@.subrange(
                        start,
                        start + PWHASH_LEN,
                    ) == #[trigger] p0.serialized_spec() implies false by {
                    assert(p0.serialized_spec()[0] == ARGON2ID13_TAG);
                    assert(data@.subrange(start, start + PWHASH_LEN)[0] == data@[start]);
                }
            }
            return Err(Error::FormatError);
        }
        let salt = match read_vec(data, pos, 16) {
            Ok(s) => s,
            Err(e) => return Err(e),
        };
        let t_cost = match read_u32_le(data, pos) {
            Ok(v) => v,
            Err(e) => return Err(e),
        };
        let m_cost = match read_u32_le(data, pos) {
            Ok(v) => v,
            Err(e) => return Err(e),
        };
        if t_cost < 1 || m_cost < 8 {
            proof {
                assert forall|p0: PWHash|
                    p0.wf() && start + PWHASH_LEN <= data@.len() && data@.subrange(
                        start,
                        start + PWHASH_LEN,
                    ) == #[trigger] p0.serialized_spec() implies false by {
                    assert forall|i: int| 0 <= i < 4 implies u32_le_bytes(t_cost)[i]
                        == u32_le_bytes(p0.t_cost)[i] by {
                        assert(u32_le_bytes(t_cost)[i] == data@.subrange(
                            start + 17,
                            start + 21,
                        )[i]);
                        assert(p0.serialized_spec()[17 + i] == u32_le_bytes(p0.t_cost)[i]);
                        assert(data@.subrange(start, start + PWHASH_LEN)[17 + i] == data@[start
                            + 17 + i]);
                    }
                    assert(u32_le_bytes(t_cost) =~= u32_le_bytes(p0.t_cost));
                    lemma_u32_le_injective(t_cost, p0.t_cost);
                    assert forall|i: int| 0 <= i < 4 implies u32_le_bytes(m_cost)[i]
                        == u32_le_bytes(p0.m_cost)[i] by {
                        assert(u32_le_bytes(m_cost)[i] == data@.subrange(
                            start + 21,
                            start + 25,
                        )[i]);
                        assert(p0.serialized_spec()[21 + i] == u32_le_bytes(p0.m_cost)[i]);
                        assert(data@.subrange(start, start + PWHASH_LEN)[21 + i] == data@[start
                            + 21 + i]);
                    }
                    assert(u32_le_bytes(m_cost) =~= u32_le_bytes(p0.m_cost));
                    lemma_u32_le_injective(m_cost, p0.m_cost);
                }
            }
            return Err(Error::FormatError);
        }
        let p = PWHash { salt, t_cost, m_cost };
        proof {
            assert(data@.subrange(start, start + PWHASH_LEN) =~= p.serialized_spec());
        }
        Ok(p)
    }
}

/// Parsing inverts writing: the block a well-formed `PWHash` writes reads
/// back to the same salt and costs.
pub proof fn lemma_pwhash_roundtrip(p: &PWHash, q: &PWHash, data: Seq<u8>, start: int)
    requires
        p.wf(),
        q.wf(),
        0 <= start,
        start + PWHASH_LEN <= data.len(),
        data.subrange(start, start + PWHASH_LEN) == p.serialized_spec(),
        data.subrange(start, start + PWHASH_LEN) == q.serialized_spec(),
    ensures
        p.same_as(q),
{
    assert(p.salt@ =~= q.salt@) by {
        assert forall|i: int| 0 <= i < 16 implies p.salt@[i] == q.salt@[i] by {
            assert(p.serialized_spec()[1 + i] == p.salt@[i]);
            assert(q.serialized_spec()[1 + i] == q.salt@[i]);
        }
    }
    assert(u32_le_bytes(p.t_cost) =~= u32_le_bytes(q.t_cost)) by {
        assert forall|i: int| 0 <= i < 4 implies u32_le_bytes(p.t_cost)[i] == u32_le_bytes(
            q.t_cost,
        )[i] by {
            assert(p.serialized_spec()[17 + i] == u32_le_bytes(p.t_cost)[i]);
            assert(q.serialized_spec()[17 + i] == u32_le_bytes(q.t_cost)[i]);
        }
    }
    assert(u32_le_bytes(p.m_cost) =~= u32_le_bytes(q.m_cost)) by {
        assert forall|i: int| 0 <= i < 4 implies u32_le_bytes(p.m_cost)[i] == u32_le_bytes(
            q.m_cost,
        )[i] by {
            assert(p.serialized_spec()[21 + i] == u32_le_bytes(p.m_cost)[i]);
            assert(q.serialized_spec()[21 + i] == u32_le_bytes(q.m_cost)[i]);
        }
    }
    lemma_u32_le_injective(p.t_cost, q.t_cost);
    lemma_u32_le_injective(p.m_cost, q.m_cost);
}

/// Two values with the same little-endian bytes are equal.
pub proof fn lemma_u32_le_injective(a: u32, b: u32)
    requires
        u32_le_bytes(a) == u32_le_bytes(b),
    ensures
        a == b,
{
    assert(a % 0x100 == b % 0x100 && (a / 0x100) % 0x100 == (b / 0x100) % 0x100 && (a / 0x10000)
        % 0x100 == (b / 0x10000) % 0x100 && (a / 0x1000000) % 0x100 == (b / 0x1000000) % 0x100);
    assert(a == b) by (bit_vector)
        requires
            a % 0x100 == b % 0x100,
            (a / 0x100) % 0x100 == (b / 0x100) % 0x100,
            (a / 0x10000) % 0x100 == (b / 0x10000) % 0x100,
            (a / 0x1000000) % 0x100 == (b / 0x1000000) % 0x100,
    ;
}

} // verus!
