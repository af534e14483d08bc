//! The vector codec and the embedding validator.
//!
//! An embedding is an ordered sequence of 32-bit words (the bit patterns of
//! single-precision floats; the store never interprets them numerically).
//! The storage form of an embedding is a packed byte blob holding each word
//! in little-endian order. `encode_embedding` and `decode_embedding_blob`
//! convert between the two forms and are proved to be exact inverses, so a
//! round trip through storage reproduces the original words bit for bit.

use vstd::prelude::*;

use crate::EMBEDDING_DIM;
use crate::error::DatabaseError;

verus! {

/// The 32-bit word whose little-endian bytes are `b0`, `b1`, `b2`, `b3`.
pub open spec fn word_of_bytes(b0: u8, b1: u8, b2: u8, b3: u8) -> u32 {
    (b0 as u32) | ((b1 as u32) << 8) | ((b2 as u32) << 16) | ((b3 as u32) << 24)
}

/// Byte `k` (0 = least significant) of the little-endian form of `w`.
pub open spec fn byte_of_word(w: u32, k: int) -> u8 {
    if k == 0 {
        (w & 0xff) as u8
    } else if k == 1 {
        ((w >> 8) & 0xff) as u8
    } else if k == 2 {
        ((w >> 16) & 0xff) as u8
    } else {
        ((w >> 24) & 0xff) as u8
    }
}

/// The words a stored blob denotes: each aligned group of four bytes is one
/// little-endian 32-bit word, in original order. Bytes past the last full
/// group denote nothing.
pub open spec fn decode_spec(b: Seq<u8>) -> Seq<u32> {
    Seq::new(b.len() / 4, |i: int| word_of_bytes(b[4 * i], b[4 * i + 1], b[4 * i + 2], b[4 * i + 3]))
}

/// The blob that stores the words `w`: four bytes per word, little-endian.
pub open spec fn encode_spec(w: Seq<u32>) -> Seq<u8> {
    Seq::new(w.len() * 4, |i: int| byte_of_word(w[i / 4], i % 4))
}

/// Positions inside the four-byte group of word `i` divide and reduce back
/// to the word index and the byte offset.
proof fn lemma_quad_index(i: int, k: int)
    requires
        0 <= i,
        0 <= k < 4,
    ensures
        (4 * i + k) / 4 == i,
        (4 * i + k) % 4 == k,
{
    assert((4 * i + k) / 4 == i && (4 * i + k) % 4 == k) by (nonlinear_arith)
        requires
            0 <= i,
            0 <= k < 4,
    ;
}

/// Reassembling a word from its four little-endian bytes yields the word.
proof fn lemma_word_roundtrip(x: u32)
    ensures
        word_of_bytes(byte_of_word(x, 0), byte_of_word(x, 1), byte_of_word(x, 2), byte_of_word(x, 3)) == x,
{
    assert(((x & 0xff) as u8 as u32) | ((((x >> 8) & 0xff) as u8 as u32) << 8)
        | ((((x >> 16) & 0xff) as u8 as u32) << 16) | ((((x >> 24) & 0xff) as u8 as u32) << 24)
        == x) by (bit_vector);
}

/// Decoding is the exact inverse of encoding: a blob written for the words
/// `w` reads back as `w`, bit for bit.
pub proof fn lemma_decode_encode(w: Seq<u32>)
    ensures
        decode_spec(encode_spec(w)) == w,
{
    let b = encode_spec(w);
    assert(b.len() / 4 == w.len()) by (nonlinear_arith)
        requires
            b.len() == w.len() * 4,
    ;
    assert forall|i: int| 0 <= i < w.len() implies decode_spec(b)[i] == w[i] by {
        lemma_quad_index(i, 0);
        lemma_quad_index(i, 1);
        lemma_quad_index(i, 2);
        lemma_quad_index(i, 3);
        lemma_word_roundtrip(w[i]);
    }
    assert(decode_spec(encode_spec(w)) =~= w);
}

/// Checks that an embedding has the configured dimension. Succeeds exactly
/// when the length equals `EMBEDDING_DIM`; on failure it reports the
/// expected and the actual length.
pub fn validate_embedding(embedding: &Vec<u32>) -> (r: Result<(), DatabaseError>)
    ensures
        r is Ok <==> embedding@.len() == EMBEDDING_DIM,
        r matches Err(e) ==> e matches DatabaseError::InvalidEmbeddingDimension {
            expected,
            actual,
        } && expected == EMBEDDING_DIM && actual == embedding@.len(),
{
    if embedding.len() != EMBEDDING_DIM {
        Err(DatabaseError::InvalidEmbeddingDimension {
            expected: EMBEDDING_DIM,
            actual: embedding.len(),
        })
    } else {
        Ok(())
    }
}

/// Encodes an embedding into its storage blob, four bytes per word in
/// little-endian order.
pub fn encode_embedding(words: &Vec<u32>) -> (blob: Vec<u8>)
    ensures
        blob@ == encode_spec(words@),
{
    let mut blob: Vec<u8> = Vec::new();
    let n = words.len();
    let mut i: usize = 0;
    while i < n
        invariant
            i <= n,
            n == words@.len(),
            blob@.len() == 4 * i,
            forall|j: int| 0 <= j < blob@.len() ==> blob@[j] == encode_spec(words@)[j],
        decreases n - i,
    {
        let w = words[i];
        proof {
            lemma_quad_index(i as int, 0);
            lemma_quad_index(i as int, 1);
            lemma_quad_index(i as int, 2);
            lemma_quad_index(i as int, 3);
            assert(4 * (i + 1) <= 4 * n) by (nonlinear_arith)
                requires
                    i < n,
            ;
        }
        blob.push((w & 0xff) as u8);
        blob.push(((w >> 8) & 0xff) as u8);
        blob.push(((w >> 16) & 0xff) as u8);
        blob.push(((w >> 24) & 0xff) as u8);
        i = i + 1;
    }
    assert(blob@ =~= encode_spec(words@));
    blob
}

/// Decodes a storage blob back into its words, reading each aligned group
/// of four bytes as one little-endian 32-bit word. Bytes past the last full
/// group are ignored, as the engine's binary column reader ignores them.
pub fn decode_embedding_blob(blob: &Vec<u8>) -> (words: Vec<u32>)
    ensures
        words@ == decode_spec(blob@),
{
    let mut words: Vec<u32> = Vec::new();
    let n = blob.len() / 4;
    proof {
        assert(4 * n <= blob@.len()) by (nonlinear_arith)
            requires
                n == blob@.len() / 4,
                blob@.len() >= 0,
        ;
    }
    let mut i: usize = 0;
    while i < n
        invariant
            i <= n,
            n == blob@.len() / 4,
            4 * n <= blob@.len(),
            blob@.len() <= usize::MAX,
            words@.len() == i,
            forall|j: int| 0 <= j < i ==> words@[j] == decode_spec(blob@)[j],
        decreases n - i,
    {
        proof {
            assert(4 * i + 3 < 4 * n) by (nonlinear_arith)
                requires
                    i < n,
            ;
        }
        let b0 = blob[4 * i];
        let b1 = blob[4 * i + 1];
        let b2 = blob[4 * i + 2];
        let b3 = blob[4 * i + 3];
        let w = (b0 as u32) | ((b1 as u32) << 8) | ((b2 as u32) << 16) | ((b3 as u32) << 24);
        words.push(w);
        i = i + 1;
    }
    assert(words@ =~= decode_spec(blob@));
    words
}

} // verus!
