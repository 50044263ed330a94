//! Byte-level reading and writing for the on-disk envelope.
//!
//! Readers walk a byte buffer with an explicit position; writers append to a
//! growing buffer.  Every helper states exactly which bytes it consumes or
//! produces, so envelope round-trips can be proved piece by piece.

use vstd::prelude::*;

use crate::error::Error;

verus! {

/// The little-endian four-byte rendering of a 32-bit value.
pub open spec fn u32_le_bytes(v: u32) -> Seq<u8> {
    seq![
        (v % 0x100) as u8,
        ((v / 0x100) % 0x100) as u8,
        ((v / 0x10000) % 0x100) as u8,
        ((v / 0x1000000) % 0x100) as u8,
    ]
}

/// Recombining four bytes little-endian yields a value that renders back to
/// exactly those bytes.
pub proof fn lemma_u32_le_roundtrip(b0: u8, b1: u8, b2: u8, b3: u8)
    ensures
        u32_le_bytes(
            (b0 as u32 + b1 as u32 * 0x100 + b2 as u32 * 0x10000 + b3 as u32 * 0x1000000) as u32,
        ) == seq![b0, b1, b2, b3],
{
    let v = (b0 as u32 + b1 as u32 * 0x100 + b2 as u32 * 0x10000 + b3 as u32 * 0x1000000) as u32;
    assert(v % 0x100 == b0 && (v / 0x100) % 0x100 == b1 && (v / 0x10000) % 0x100 == b2 && (v
        / 0x1000000) % 0x100 == b3) by (nonlinear_arith)
        requires
            v == b0 + b1 * 0x100 + b2 * 0x10000 + b3 * 0x1000000,
            b0 < 0x100,
            b1 < 0x100,
            b2 < 0x100,
            b3 < 0x100,
    ;
    assert(u32_le_bytes(v) =~= seq![b0, b1, b2, b3]);
}

/// Read one byte and advance.
pub fn read_u8(data: &Vec<u8>, pos: &mut usize) -> (r: Result<u8, Error>)
    ensures
        r is Ok <==> *old(pos) + 1 <= data@.len(),
        r matches Ok(b) ==> b == data@[*old(pos) as int] && *final(pos) == *old(pos) + 1,
        r matches Err(e) ==> e == Error::FormatError && *final(pos) == *old(pos),
{
    if *pos < data.len() {
        let b = data[*pos];
        *pos = *pos + 1;
        Ok(b)
    } else {
        Err(Error::FormatError)
    }
}

/// Read `n` bytes as a fresh vector and advance.
pub fn read_vec(data: &Vec<u8>, pos: &mut usize, n: usize) -> (r: Result<Vec<u8>, Error>)
    ensures
        r is Ok <==> *old(pos) + n <= data@.len(),
        r matches Ok(v) ==> v@ == data@.subrange(*old(pos) as int, *old(pos) + n) && *final(pos)
            == *old(pos) + n,
        r matches Err(e) ==> e == Error::FormatError && *final(pos) == *old(pos),
{
    if n <= data.len() && *pos <= data.len() - n {
        let start: usize = *pos;
        let end: usize = start + n;
        let mut out: Vec<u8> = Vec::new();
        let mut i: usize = start;
        while i < end
            invariant
                start <= i <= end,
                end == start + n,
                end <= data@.len(),
                out@ == data@.subrange(start as int, i as int),
            decreases end - i,
        {
            out.push(data[i]);
            i = i + 1;
            proof {
                assert(out@ =~= data@.subrange(start as int, i as int));
            }
        }
        *pos = end;
        Ok(out)
    } else {
        Err(Error::FormatError)
    }
}

/// Read a little-endian 32-bit value and advance.
pub fn read_u32_le(data: &Vec<u8>, pos: &mut usize) -> (r: Result<u32, Error>)
    ensures
        r is Ok <==> *old(pos) + 4 <= data@.len(),
        r matches Ok(v) ==> u32_le_bytes(v) == data@.subrange(*old(pos) as int, *old(pos) + 4)
            && *final(pos) == *old(pos) + 4,
        r matches Err(e) ==> e == Error::FormatError && *final(pos) == *old(pos),
{
    if *pos < data.len() && 4 <= data.len() - *pos {
        let b0 = data[*pos];
        let b1 = data[*pos + 1];
        let b2 = data[*pos + 2];
        let b3 = data[*pos + 3];
        let v: u32 = b0 as u32 + b1 as u32 * 0x100 + b2 as u32 * 0x10000 + b3 as u32 * 0x1000000;
        proof {
            lemma_u32_le_roundtrip(b0, b1, b2, b3);
            assert(data@.subrange(*old(pos) as int, *old(pos) + 4) =~= seq![b0, b1, b2, b3]);
        }
        *pos = *pos + 4;
        Ok(v)
    } else {
        Err(Error::FormatError)
    }
}

/// Append one little-endian 32-bit value.
pub fn write_u32_le(out: &mut Vec<u8>, v: u32)
    ensures
        final(out)@ == old(out)@ + u32_le_bytes(v),
{
    out.push((v % 0x100) as u8);
    out.push(((v / 0x100) % 0x100) as u8);
    out.push(((v / 0x10000) % 0x100) as u8);
    out.push(((v / 0x1000000) % 0x100) as u8);
    proof {
        assert(out@ =~= old(out)@ + u32_le_bytes(v));
    }
}

/// A fresh vector with the same bytes.
pub fn copy_vec(src: &Vec<u8>) -> (r: Vec<u8>)
    ensures
        r@ == src@,
{
    let mut out: Vec<u8> = Vec::new();
    let mut i: usize = 0;
    while i < src.len()
        invariant
            i <= src@.len(),
            out@ == src@.subrange(0, i as int),
        decreases src@.len() - i,
    {
        out.push(src[i]);
        i = i + 1;
        proof {
            assert(out@ =~= src@.subrange(0, i as int));
        }
    }
    proof {
        assert(src@.subrange(0, src@.len() as int) =~= src@);
    }
    out
}

/// Overwrite a sensitive buffer with zeros before it goes out of scope, so
/// derived keys and blinding secrets do not linger in memory.
pub fn wipe(v: &mut Vec<u8>)
    ensures
        final(v)@.len() == old(v)@.len(),
        forall|i: int| 0 <= i < final(v)@.len() ==> final(v)@[i] == 0,
{
    let mut i: usize = 0;
    while i < v.len()
        invariant
            v@.len() == old(v)@.len(),
            i <= v@.len(),
            forall|j: int| 0 <= j < i ==> v@[j] == 0,
        decreases v@.len() - i,
    {
        v.set(i, 0);
        i = i + 1;
    }
}

/// Whether two byte vectors hold the same bytes.
pub fn vec_eq(a: &Vec<u8>, b: &Vec<u8>) -> (r: bool)
    ensures
        r <==> a@ == b@,
{
    if a.len() != b.len() {
        proof {
            assert(a@ != b@);
        }
        return false;
    }
    let mut i: usize = 0;
    while i < a.len()
        invariant
            a@.len() == b@.len(),
            i <= a@.len(),
            forall|j: int| 0 <= j < i ==> a@[j] == b@[j],
        decreases a@.len() - i,
    {
        if a[i] != b[i] {
            proof {
                assert(a@[i as int] != b@[i as int]);
            }
            return false;
        }
        i = i + 1;
    }
    proof {
        assert(a@ =~= b@);
    }
    true
}

/// Byte-wise exclusive or of two equal-length strings.
pub open spec fn xor_bytes(a: Seq<u8>, b: Seq<u8>) -> Seq<u8> {
    Seq::new(a.len(), |i: int| a[i] ^ b[i])
}

/// Byte-wise exclusive or, used to blind one 32-byte key with another.
pub fn xor_vec(a: &Vec<u8>, b: &Vec<u8>) -> (r: Vec<u8>)
    requires
        a@.len() == b@.len(),
    ensures
        r@ == xor_bytes(a@, b@),
{
    let mut out: Vec<u8> = Vec::new();
    let mut i: usize = 0;
    while i < a.len()
        invariant
            i <= a@.len(),
            a@.len() == b@.len(),
            out@ == xor_bytes(a@, b@).subrange(0, i as int),
        decreases a@.len() - i,
    {
        out.push(a[i] ^ b[i]);
        i = i + 1;
        proof {
            assert(out@ =~= xor_bytes(a@, b@).subrange(0, i as int));
        }
    }
    proof {
        assert(xor_bytes(a@, b@).subrange(0, a@.len() as int) =~= xor_bytes(a@, b@));
    }
    out
}

/// Append every byte of `src`.
pub fn write_all(out: &mut Vec<u8>, src: &Vec<u8>)
    ensures
        final(out)@ == old(out)@ + src@,
{
    let mut i: usize = 0;
    while i < src.len()
        invariant
            i <= src@.len(),
            out@ == old(out)@ + src@.subrange(0, i as int),
        decreases src@.len() - i,
    {
        out.push(src[i]);
        i = i + 1;
        proof {
            assert(out@ =~= old(out)@ + src@.subrange(0, i as int));
        }
    }
    proof {
        assert(src@.subrange(0, src@.len() as int) =~= src@);
    }
}

} // verus!
