//! Seed phrases.
//!
//! Twelve words encode 128 bits of entropy plus a four-bit checksum: the
//! 132 bits are cut into twelve 11-bit indices into the fixed vocabulary.
//! The checksum is the top four bits of the entropy's SHA-256 digest, so a
//! phrase with one altered word fails validation.  The 32-byte seed handed
//! to key derivation is the 16 entropy bytes repeated.

use vstd::prelude::*;

use crate::bytes::write_all;
use crate::crypto::{sha256_digest, sha256_of};
use crate::error::Error;
use crate::words::{word_at, word_index, wordlist_word};

verus! {

/// Bit `i` of a byte, most significant first.
pub open spec fn byte_bit(b: u8, i: int) -> bool {
    (b >> ((7 - i) as u8)) & 1 == 1
}

/// Bit `i` of an 11-bit word index, most significant first.
pub open spec fn index_bit(x: u16, i: int) -> bool {
    (x >> ((10 - i) as u16)) & 1 == 1
}

/// The phrase bits: eleven per word index, in order.
pub open spec fn phrase_bits(idxs: Seq<u16>) -> Seq<bool> {
    Seq::new(idxs.len() * 11, |t: int| index_bit(idxs[t / 11], t % 11))
}

/// The bits of the entropy bytes followed by the four checksum bits from
/// the entropy's digest.
pub open spec fn full_bits(e: Seq<u8>) -> Seq<bool> {
    Seq::new(e.len() * 8, |t: int| byte_bit(e[t / 8], t % 8)) + Seq::new(
        4,
        |i: int| byte_bit(sha256_of(e)[0], i),
    )
}

/// The byte packed from eight bits at `off`, most significant first.
pub open spec fn byte_from_bits(bits: Seq<bool>, off: int) -> u8 {
    ((if bits[off] {
        128int
    } else {
        0int
    }) + (if bits[off + 1] {
        64int
    } else {
        0int
    }) + (if bits[off + 2] {
        32int
    } else {
        0int
    }) + (if bits[off + 3] {
        16int
    } else {
        0int
    }) + (if bits[off + 4] {
        8int
    } else {
        0int
    }) + (if bits[off + 5] {
        4int
    } else {
        0int
    }) + (if bits[off + 6] {
        2int
    } else {
        0int
    }) + (if bits[off + 7] {
        1int
    } else {
        0int
    })) as u8
}

/// The unique vocabulary index of a word, if the word is in the vocabulary.
pub open spec fn wl_index_of(w: Seq<char>) -> Option<u16> {
    if exists|j: int| 0 <= j < 2048 && wordlist_word(j) == w {
        Some((choose|j: int| 0 <= j < 2048 && wordlist_word(j) == w) as u16)
    } else {
        Option::<u16>::None
    }
}

/// A word the vocabulary holds at `i`, and nowhere else, looks up to `i`.
proof fn lemma_wl_index(w: Seq<char>, i: u16)
    requires
        i < 2048,
        wordlist_word(i as int) == w,
        forall|j: int| 0 <= j < 2048 && j != i as int ==> wordlist_word(j) != w,
    ensures
        wl_index_of(w) == Some(i),
        wl_index_val(w) == i,
{
    assert((i as int) < 2048 && wordlist_word(i as int) == w);
    let j = choose|j: int| 0 <= j < 2048 && wordlist_word(j) == w;
    assert(j == i as int);
}

/// The character views of a word list.
pub open spec fn word_views(ws: Seq<String>) -> Seq<Seq<char>> {
    ws.map_values(|s: String| s@)
}

/// The index of a word that is in the vocabulary.
pub open spec fn wl_index_val(w: Seq<char>) -> u16 {
    (choose|j: int| 0 <= j < 2048 && wordlist_word(j) == w) as u16
}

/// The indices of a phrase, when every word is in the vocabulary.
pub open spec fn phrase_indices(words: Seq<Seq<char>>) -> Option<Seq<u16>> {
    if forall|w: int| 0 <= w < words.len() ==> (#[trigger] wl_index_of(words[w])) is Some {
        Some(Seq::new(words.len(), |w: int| wl_index_val(words[w])))
    } else {
        Option::<Seq<u16>>::None
    }
}

/// The entropy a phrase encodes: `None` for a wrong word count, a word
/// outside the vocabulary, or a checksum mismatch.
pub open spec fn phrase_entropy(words: Seq<Seq<char>>) -> Option<Seq<u8>> {
    if words.len() != 12 {
        Option::<Seq<u8>>::None
    } else {
        match phrase_indices(words) {
            Option::None => Option::<Seq<u8>>::None,
            Option::Some(idxs) => {
                let bits = phrase_bits(idxs);
                let e = Seq::new(16, |i: int| byte_from_bits(bits, 8 * i));
                if forall|i: int| 0 <= i < 4 ==> #[trigger] bits[128 + i] == full_bits(e)[128 + i] {
                    Some(e)
                } else {
                    Option::<Seq<u8>>::None
                }
            },
        }
    }
}

/// An 11-bit value assembled from weighted bits has exactly those bits.
proof fn lemma_index_bits(
    x: u16,
    b0: u16,
    b1: u16,
    b2: u16,
    b3: u16,
    b4: u16,
    b5: u16,
    b6: u16,
    b7: u16,
    b8: u16,
    b9: u16,
    b10: u16,
)
    requires
        b0 <= 1,
        b1 <= 1,
        b2 <= 1,
        b3 <= 1,
        b4 <= 1,
        b5 <= 1,
        b6 <= 1,
        b7 <= 1,
        b8 <= 1,
        b9 <= 1,
        b10 <= 1,
        x == b0 * 1024 + b1 * 512 + b2 * 256 + b3 * 128 + b4 * 64 + b5 * 32 + b6 * 16 + b7 * 8
            + b8 * 4 + b9 * 2 + b10,
    ensures
        x < 2048,
        index_bit(x, 0) == (b0 == 1),
        index_bit(x, 1) == (b1 == 1),
        index_bit(x, 2) == (b2 == 1),
        index_bit(x, 3) == (b3 == 1),
        index_bit(x, 4) == (b4 == 1),
        index_bit(x, 5) == (b5 == 1),
        index_bit(x, 6) == (b6 == 1),
        index_bit(x, 7) == (b7 == 1),
        index_bit(x, 8) == (b8 == 1),
        index_bit(x, 9) == (b9 == 1),
        index_bit(x, 10) == (b10 == 1),
{
    assert(x < 2048 && ((x >> 10u16) & 1 == 1) == (b0 == 1) && ((x >> 9u16) & 1 == 1) == (b1 == 1)
        && ((x >> 8u16) & 1 == 1) == (b2 == 1) && ((x >> 7u16) & 1 == 1) == (b3 == 1) && ((x
        >> 6u16) & 1 == 1) == (b4 == 1) && ((x >> 5u16) & 1 == 1) == (b5 == 1) && ((x >> 4u16) & 1
        == 1) == (b6 == 1) && ((x >> 3u16) & 1 == 1) == (b7 == 1) && ((x >> 2u16) & 1 == 1) == (b8
        == 1) && ((x >> 1u16) & 1 == 1) == (b9 == 1) && ((x >> 0u16) & 1 == 1) == (b10 == 1))
        by (bit_vector)
        requires
            b0 <= 1,
            b1 <= 1,
            b2 <= 1,
            b3 <= 1,
            b4 <= 1,
            b5 <= 1,
            b6 <= 1,
            b7 <= 1,
            b8 <= 1,
            b9 <= 1,
            b10 <= 1,
            x == b0 * 1024 + b1 * 512 + b2 * 256 + b3 * 128 + b4 * 64 + b5 * 32 + b6 * 16 + b7 * 8
                + b8 * 4 + b9 * 2 + b10,
    ;
}

/// A byte equals the byte packed from its own eight bits.
proof fn lemma_byte_identity(b: u8, bits: Seq<bool>, off: int)
    requires
        forall|j: int| 0 <= j < 8 ==> bits[off + j] == byte_bit(b, j),
    ensures
        byte_from_bits(bits, off) == b,
{
    assert(((if (b >> 7u8) & 1 == 1 {
        128int
    } else {
        0int
    }) + (if (b >> 6u8) & 1 == 1 {
        64int
    } else {
        0int
    }) + (if (b >> 5u8) & 1 == 1 {
        32int
    } else {
        0int
    }) + (if (b >> 4u8) & 1 == 1 {
        16int
    } else {
        0int
    }) + (if (b >> 3u8) & 1 == 1 {
        8int
    } else {
        0int
    }) + (if (b >> 2u8) & 1 == 1 {
        4int
    } else {
        0int
    }) + (if (b >> 1u8) & 1 == 1 {
        2int
    } else {
        0int
    }) + (if (b >> 0u8) & 1 == 1 {
        1int
    } else {
        0int
    })) == b) by (bit_vector);
    assert(bits[off + 0] == byte_bit(b, 0) && bits[off + 1] == byte_bit(b, 1) && bits[off + 2]
        == byte_bit(b, 2) && bits[off + 3] == byte_bit(b, 3) && bits[off + 4] == byte_bit(b, 4)
        && bits[off + 5] == byte_bit(b, 5) && bits[off + 6] == byte_bit(b, 6) && bits[off + 7]
        == byte_bit(b, 7));
    assert(byte_bit(b, 0) == ((b >> 7u8) & 1 == 1) && byte_bit(b, 1) == ((b >> 6u8) & 1 == 1)
        && byte_bit(b, 2) == ((b >> 5u8) & 1 == 1) && byte_bit(b, 3) == ((b >> 4u8) & 1 == 1)
        && byte_bit(b, 4) == ((b >> 3u8) & 1 == 1) && byte_bit(b, 5) == ((b >> 2u8) & 1 == 1)
        && byte_bit(b, 6) == ((b >> 1u8) & 1 == 1) && byte_bit(b, 7) == ((b >> 0u8) & 1 == 1));
    assert(bits[off] == bits[off + 0]);
}

/// One phrase bit, read from assembled word indices.
fn bit_at(idxs: &Vec<u16>, t: usize) -> (r: bool)
    requires
        idxs@.len() == 12,
        t < 132,
    ensures
        r == index_bit(idxs@[t as int / 11], t as int % 11),
{
    let w = t / 11;
    let p = t % 11;
    (idxs[w] >> ((10 - p) as u16)) & 1 == 1
}

/// Validate a phrase and return the 32-byte seed it encodes: the entropy
/// bytes repeated.  Exactly the phrases `phrase_entropy` accepts succeed;
/// everything else is `InvalidMnemonic`.
pub fn mnemonic_to_entropy(words: &Vec<String>) -> (r: Result<Vec<u8>, Error>)
    ensures
        r matches Ok(sd) ==> phrase_entropy(word_views(words@)) matches Some(e) && sd@ == e + e
            && sd@.len() == 32,
        r matches Err(er) ==> er == Error::InvalidMnemonic && phrase_entropy(word_views(words@))
            is None,
{
    if words.len() != 12 {
        return Err(Error::InvalidMnemonic);
    }
    let ghost wv = word_views(words@);
    let mut idxs: Vec<u16> = Vec::new();
    let mut w: usize = 0;
    while w < 12
        invariant
            words@.len() == 12,
            wv == word_views(words@),
            w <= 12,
            idxs@.len() == w,
            forall|a: int|
                0 <= a < w ==> wl_index_of(wv[a]) == Some(#[trigger] idxs@[a]) && wl_index_val(
                    wv[a],
                ) == idxs@[a],
            forall|a: int| 0 <= a < w ==> #[trigger] idxs@[a] < 2048,
        decreases 12 - w,
    {
        match word_index(words[w].as_str()) {
            Some(i) => {
                proof {
                    assert(wv[w as int] == words@[w as int]@);
                    assert(wordlist_word(i as int) == wv[w as int]);
                    lemma_wl_index(wv[w as int], i);
                }
                idxs.push(i);
            },
            None => {
                proof {
                    assert(wv[w as int] == words@[w as int]@);
                    assert(wl_index_of(wv[w as int]) is None);
                    assert(phrase_indices(wv) is None);
                }
                return Err(Error::InvalidMnemonic);
            },
        }
        w = w + 1;
    }
    proof {
        assert forall|a: int| 0 <= a < 12 implies (#[trigger] wl_index_of(wv[a])) is Some by {
            assert(wl_index_of(wv[a]) == Some(idxs@[a]));
        }
        assert(Seq::new(wv.len(), |a: int| wl_index_val(wv[a])) =~= idxs@);
        assert(phrase_indices(wv) == Some(idxs@));
    }
    let ghost bits = phrase_bits(idxs@);
    let mut e: Vec<u8> = Vec::new();
    let mut i: usize = 0;
    while i < 16
        invariant
            idxs@.len() == 12,
            bits == phrase_bits(idxs@),
            i <= 16,
            e@.len() == i,
            forall|a: int| 0 <= a < i ==> #[trigger] e@[a] == byte_from_bits(bits, 8 * a),
        decreases 16 - i,
    {
        let b0 = bit_at(&idxs, 8 * i);
        let b1 = bit_at(&idxs, 8 * i + 1);
        let b2 = bit_at(&idxs, 8 * i + 2);
        let b3 = bit_at(&idxs, 8 * i + 3);
        let b4 = bit_at(&idxs, 8 * i + 4);
        let b5 = bit_at(&idxs, 8 * i + 5);
        let b6 = bit_at(&idxs, 8 * i + 6);
        let b7 = bit_at(&idxs, 8 * i + 7);
        let b: u8 = (if b0 {
            128
        } else {
            0
        }) + (if b1 {
            64
        } else {
            0
        }) + (if b2 {
            32
        } else {
            0
        }) + (if b3 {
            16
        } else {
            0
        }) + (if b4 {
            8
        } else {
            0
        }) + (if b5 {
            4
        } else {
            0
        }) + (if b6 {
            2
        } else {
            0
        }) + (if b7 {
            1
        } else {
            0
        });
        e.push(b);
        i = i + 1;
    }
    let digest = sha256_digest(&e);
    let mut c: usize = 0;
    while c < 4
        invariant
            words@.len() == 12,
            wv == word_views(words@),
            wv.len() == 12,
            idxs@.len() == 12,
            phrase_indices(wv) == Some(idxs@),
            bits == phrase_bits(idxs@),
            e@.len() == 16,
            forall|a: int| 0 <= a < 16 ==> #[trigger] e@[a] == byte_from_bits(bits, 8 * a),
            digest@ == sha256_of(e@),
            digest@.len() == 32,
            c <= 4,
            forall|a: int| 0 <= a < c ==> bits[128 + a] == byte_bit(sha256_of(e@)[0], a),
        decreases 4 - c,
    {
        let expected = (digest[0] >> ((7 - c) as u8)) & 1 == 1;
        let actual = bit_at(&idxs, 128 + c);
        if actual != expected {
            proof {
                assert(bits[128 + c] != byte_bit(sha256_of(e@)[0], c as int));
                lemma_checksum_mismatch(wv, idxs@, e@, c as int);
            }
            return Err(Error::InvalidMnemonic);
        }
        c = c + 1;
    }
    proof {
        lemma_checksum_match(wv, idxs@, e@);
    }
    let mut seed: Vec<u8> = Vec::new();
    write_all(&mut seed, &e);
    write_all(&mut seed, &e);
    Ok(seed)
}

/// The entropy the spec recomputes from the parsed indices is the vector
/// the loop assembled.
proof fn lemma_spec_entropy(idxs: Seq<u16>, e: Seq<u8>)
    requires
        idxs.len() == 12,
        e.len() == 16,
        forall|a: int| 0 <= a < 16 ==> #[trigger] e[a] == byte_from_bits(phrase_bits(idxs), 8 * a),
    ensures
        Seq::new(16, |i: int| byte_from_bits(phrase_bits(idxs), 8 * i)) =~= e,
{
}

/// A failed checksum bit makes the phrase invalid.
proof fn lemma_checksum_mismatch(wv: Seq<Seq<char>>, idxs: Seq<u16>, e: Seq<u8>, c: int)
    requires
        wv.len() == 12,
        idxs.len() == 12,
        e.len() == 16,
        phrase_indices(wv) == Some(idxs),
        forall|a: int| 0 <= a < 16 ==> #[trigger] e[a] == byte_from_bits(phrase_bits(idxs), 8 * a),
        0 <= c < 4,
        phrase_bits(idxs)[128 + c] != byte_bit(sha256_of(e)[0], c),
    ensures
        phrase_entropy(wv) is None,
{
    lemma_spec_entropy(idxs, e);
    let e2 = Seq::new(16, |i: int| byte_from_bits(phrase_bits(idxs), 8 * i));
    assert(e2 == e);
    assert(full_bits(e)[128 + c] == byte_bit(sha256_of(e)[0], c));
}

/// All four checksum bits in place make the phrase valid with exactly the
/// assembled entropy.
proof fn lemma_checksum_match(wv: Seq<Seq<char>>, idxs: Seq<u16>, e: Seq<u8>)
    requires
        wv.len() == 12,
        idxs.len() == 12,
        e.len() == 16,
        phrase_indices(wv) == Some(idxs),
        forall|a: int| 0 <= a < 16 ==> #[trigger] e[a] == byte_from_bits(phrase_bits(idxs), 8 * a),
        forall|a: int| 0 <= a < 4 ==> phrase_bits(idxs)[128 + a] == byte_bit(sha256_of(e)[0], a),
    ensures
        phrase_entropy(wv) == Some(e),
{
    lemma_spec_entropy(idxs, e);
    let e2 = Seq::new(16, |i: int| byte_from_bits(phrase_bits(idxs), 8 * i));
    assert(e2 == e);
    assert forall|i: int| 0 <= i < 4 implies #[trigger] phrase_bits(idxs)[128 + i] == full_bits(
        e2,
    )[128 + i] by {
        assert(full_bits(e2)[128 + i] == byte_bit(sha256_of(e2)[0], i));
    }
}

/// Encode 16 entropy bytes as a twelve-word phrase.  The result always
/// validates back to exactly the given entropy.
pub fn entropy_to_mnemonic(entropy: &Vec<u8>) -> (r: Vec<String>)
    requires
        entropy@.len() == 16,
    ensures
        r@.len() == 12,
        phrase_entropy(word_views(r@)) == Some(entropy@),
{
    let digest = sha256_digest(entropy);
    let mut idxs: Vec<u16> = Vec::new();
    let mut w: usize = 0;
    while w < 12
        invariant
            entropy@.len() == 16,
            digest@ == sha256_of(entropy@),
            digest@.len() == 32,
            w <= 12,
            idxs@.len() == w,
            forall|a: int| 0 <= a < w ==> #[trigger] idxs@[a] < 2048,
            forall|t: int|
                0 <= t < 11 * w ==> index_bit(#[trigger] idxs@[t / 11], t % 11) == full_bits(
                    entropy@,
                )[t],
        decreases 12 - w,
    {
        let mut bv: Vec<u16> = Vec::new();
        let mut p: usize = 0;
        while p < 11
            invariant
                entropy@.len() == 16,
                digest@ == sha256_of(entropy@),
                digest@.len() == 32,
                w < 12,
                p <= 11,
                bv@.len() == p,
                forall|q: int|
                    0 <= q < p ==> bv@[q] <= 1 && ((#[trigger] bv@[q] == 1) == full_bits(entropy@)[
                        11 * w + q
                    ]),
            decreases 11 - p,
        {
            let t = 11 * w + p;
            let bit: bool = if t < 128 {
                (entropy[t / 8] >> ((7 - t % 8) as u8)) & 1 == 1
            } else {
                (digest[0] >> ((7 - (t - 128)) as u8)) & 1 == 1
            };
            proof {
                let ti = t as int;
                if t < 128 {
                    assert(full_bits(entropy@)[ti] == byte_bit(entropy@[ti / 8], ti % 8));
                } else {
                    assert(full_bits(entropy@)[ti] == byte_bit(sha256_of(entropy@)[0], ti - 128));
                }
            }
            bv.push(
                if bit {
                    1
                } else {
                    0
                },
            );
            p = p + 1;
        }
        let idx: u16 = bv[0] * 1024 + bv[1] * 512 + bv[2] * 256 + bv[3] * 128 + bv[4] * 64 + bv[5]
            * 32 + bv[6] * 16 + bv[7] * 8 + bv[8] * 4 + bv[9] * 2 + bv[10];
        proof {
            lemma_index_bits(idx, bv@[0], bv@[1], bv@[2], bv@[3], bv@[4], bv@[5], bv@[6], bv@[7],
                bv@[8], bv@[9], bv@[10]);
        }
        let ghost pre = idxs@;
        idxs.push(idx);
        proof {
            assert forall|t: int|
                0 <= t < 11 * (w + 1) implies index_bit(#[trigger] idxs@[t / 11], t % 11)
                == full_bits(entropy@)[t] by {
                if t < 11 * w {
                    assert(0 <= t / 11 < w as int) by (nonlinear_arith)
                        requires
                            0 <= t < 11 * w,
                    ;
                    assert(idxs@[t / 11] == pre[t / 11]);
                    assert(index_bit(pre[t / 11], t % 11) == full_bits(entropy@)[t]);
                } else {
                    let q = t - 11 * w;
                    assert(t / 11 == w as int && t % 11 == q) by (nonlinear_arith)
                        requires
                            t == 11 * w + q,
                            0 <= q < 11,
                    ;
                    assert(idxs@[w as int] == idx);
                    assert((bv@[q] == 1) == full_bits(entropy@)[t]);
                }
            }
        }
        w = w + 1;
    }
    let mut out: Vec<String> = Vec::new();
    let mut w2: usize = 0;
    while w2 < 12
        invariant
            idxs@.len() == 12,
            forall|a: int| 0 <= a < 12 ==> #[trigger] idxs@[a] < 2048,
            w2 <= 12,
            out@.len() == w2,
            forall|a: int|
                0 <= a < w2 ==> wl_index_of((#[trigger] out@[a])@) == Some(idxs@[a])
                    && wl_index_val(out@[a]@) == idxs@[a],
        decreases 12 - w2,
    {
        let word = word_at(idxs[w2]);
        proof {
            let i = idxs@[w2 as int];
            assert(wordlist_word(i as int) == word@);
            lemma_wl_index(word@, i);
        }
        out.push(word);
        w2 = w2 + 1;
    }
    proof {
        assert forall|a: int| 0 <= a < 12 implies wl_index_of(
            #[trigger] word_views(out@)[a],
        ) == Some(idxs@[a]) && wl_index_val(word_views(out@)[a]) == idxs@[a] by {
            assert(word_views(out@)[a] == out@[a]@);
        }
        lemma_phrase_valid(word_views(out@), idxs@, entropy@);
    }
    out
}

/// A phrase whose indices carry exactly the entropy-plus-checksum bits
/// validates to that entropy.
proof fn lemma_phrase_valid(wv: Seq<Seq<char>>, idxs: Seq<u16>, e: Seq<u8>)
    requires
        wv.len() == 12,
        idxs.len() == 12,
        e.len() == 16,
        forall|a: int|
            0 <= a < 12 ==> wl_index_of(#[trigger] wv[a]) == Some(idxs[a]) && wl_index_val(wv[a])
                == idxs[a],
        forall|t: int|
            0 <= t < 132 ==> index_bit(#[trigger] idxs[t / 11], t % 11) == full_bits(e)[t],
    ensures
        phrase_entropy(wv) == Some(e),
{
    assert forall|a: int| 0 <= a < 12 implies (#[trigger] wl_index_of(wv[a])) is Some by {
        assert(wl_index_of(wv[a]) == Some(idxs[a]));
    }
    assert(Seq::new(wv.len(), |a: int| wl_index_val(wv[a])) =~= idxs);
    assert(phrase_indices(wv) == Some(idxs));
    let bits = phrase_bits(idxs);
    assert forall|t: int| 0 <= t < 132 implies #[trigger] bits[t] == full_bits(e)[t] by {
        assert(index_bit(idxs[t / 11], t % 11) == full_bits(e)[t]);
    }
    assert forall|i: int| 0 <= i < 16 implies #[trigger] byte_from_bits(bits, 8 * i) == e[i] by {
        assert forall|j: int| 0 <= j < 8 implies bits[8 * i + j] == byte_bit(e[i], j) by {
            let t = 8 * i + j;
            assert(0 <= t < 128);
            assert(bits[t] == full_bits(e)[t]);
            assert(t / 8 == i && t % 8 == j) by (nonlinear_arith)
                requires
                    t == 8 * i + j,
                    0 <= j < 8,
            ;
            assert(full_bits(e)[t] == byte_bit(e[t / 8], t % 8));
        }
        lemma_byte_identity(e[i], bits, 8 * i);
    }
    let e2 = Seq::new(16, |i: int| byte_from_bits(bits, 8 * i));
    assert(e2 =~= e);
    assert forall|i: int| 0 <= i < 4 implies #[trigger] bits[128 + i] == full_bits(e2)[128
        + i] by {
        assert(bits[128 + i] == full_bits(e)[128 + i]);
    }
}

} // verus!
