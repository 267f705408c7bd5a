//! How a vector is laid down in bytes.
//!
//! A vector is stored as the bit patterns of its components, four bytes
//! each, the low byte first, one after the other. The components themselves
//! are not read here: the caller hands over their bit patterns and gets them
//! back unchanged.

use vstd::prelude::*;

verus! {

/// Bytes that one component takes.
pub const COMPONENT_BYTES: usize = 4;

/// Byte `k` of `word`, counted from the low end.
pub open spec fn byte_of(word: u32, k: int) -> u8 {
    if k == 0 {
        (word % 256) as u8
    } else if k == 1 {
        ((word / 256) % 256) as u8
    } else if k == 2 {
        ((word / 65536) % 256) as u8
    } else {
        ((word / 16777216) % 256) as u8
    }
}

/// The word with the given bytes, the low one first.
pub open spec fn word_of(b0: u8, b1: u8, b2: u8, b3: u8) -> u32 {
    (b0 + 256 * b1 + 65536 * b2 + 16777216 * b3) as u32
}

/// The bytes of a vector.
pub open spec fn encoded(words: Seq<u32>) -> Seq<u8> {
    Seq::new(4 * words.len(), |i: int| byte_of(words[i / 4], i % 4))
}

/// The vector laid down in `bytes`, if their number is a multiple of four.
pub open spec fn decoded(bytes: Seq<u8>) -> Option<Seq<u32>> {
    if bytes.len() % 4 == 0 {
        Some(
            Seq::new(
                bytes.len() / 4,
                |i: int| word_of(bytes[4 * i], bytes[4 * i + 1], bytes[4 * i + 2], bytes[4 * i + 3]),
            ),
        )
    } else {
        None
    }
}

/// A word is found again in its bytes.
pub proof fn lemma_word_round_trip(word: u32)
    ensures
        word_of(byte_of(word, 0), byte_of(word, 1), byte_of(word, 2), byte_of(word, 3)) == word,
{
}

/// Bytes are found again in their word.
pub proof fn lemma_bytes_round_trip(b0: u8, b1: u8, b2: u8, b3: u8)
    ensures
        byte_of(word_of(b0, b1, b2, b3), 0) == b0,
        byte_of(word_of(b0, b1, b2, b3), 1) == b1,
        byte_of(word_of(b0, b1, b2, b3), 2) == b2,
        byte_of(word_of(b0, b1, b2, b3), 3) == b3,
{
}

/// Decoding what was encoded gives the vector back, bit for bit.
pub proof fn lemma_decode_encoded(words: Seq<u32>)
    ensures
        encoded(words).len() == 4 * words.len(),
        decoded(encoded(words)) == Some(words),
{
    let bytes = encoded(words);
    let back = decoded(bytes)->0;
    assert(back.len() == words.len());
    assert forall|i: int| 0 <= i < words.len() implies back[i] == words[i] by {
        lemma_word_round_trip(words[i]);
        assert(bytes[4 * i] == byte_of(words[i], 0));
        assert(bytes[4 * i + 1] == byte_of(words[i], 1));
        assert(bytes[4 * i + 2] == byte_of(words[i], 2));
        assert(bytes[4 * i + 3] == byte_of(words[i], 3));
    }
    assert(back =~= words);
}

/// Encoding what was decoded gives the bytes back.
pub proof fn lemma_encode_decoded(bytes: Seq<u8>)
    requires
        bytes.len() % 4 == 0,
    ensures
        decoded(bytes) is Some,
        encoded(decoded(bytes)->0) == bytes,
{
    let words = decoded(bytes)->0;
    let again = encoded(words);
    assert forall|i: int| 0 <= i < bytes.len() implies again[i] == bytes[i] by {
        let w = i / 4;
        lemma_bytes_round_trip(bytes[4 * w], bytes[4 * w + 1], bytes[4 * w + 2], bytes[4 * w + 3]);
    }
    assert(again =~= bytes);
}

/// The bytes of the vector with the given bit patterns.
pub fn encode_vector(words: &[u32]) -> (bytes: Vec<u8>)
    ensures
        bytes@ == encoded(words@),
        bytes@.len() == 4 * words@.len(),
        decoded(bytes@) == Some(words@),
{
    let mut bytes: Vec<u8> = Vec::new();
    let mut i: usize = 0;
    while i < words.len()
        invariant
            i <= words.len(),
            bytes@.len() == 4 * i,
            forall|k: int| 0 <= k < 4 * i ==> #[trigger] bytes@[k] == byte_of(words@[k / 4], k % 4),
        decreases words.len() - i,
    {
        let word = words[i];
        bytes.push((word % 256) as u8);
        bytes.push(((word / 256) % 256) as u8);
        bytes.push(((word / 65536) % 256) as u8);
        bytes.push(((word / 16777216) % 256) as u8);
        i += 1;
    }
    assert(bytes@ =~= encoded(words@));
    proof {
        lemma_decode_encoded(words@);
    }
    bytes
}

/// The bit patterns of the vector laid down in `bytes`, if their number is
/// a multiple of four.
pub fn decode_vector(bytes: &[u8]) -> (r: Option<Vec<u32>>)
    ensures
        r is Some <==> bytes@.len() % 4 == 0,
        r matches Some(words) ==> decoded(bytes@) == Some(words@),
{
    if bytes.len() % 4 != 0 {
        return None;
    }
    let n = bytes.len() / 4;
    let mut words: Vec<u32> = Vec::new();
    let mut i: usize = 0;
    while i < n
        invariant
            i <= n,
            4 * n == bytes.len(),
            words@.len() == i,
            forall|k: int|
                0 <= k < i ==> #[trigger] words@[k] == word_of(
                    bytes@[4 * k],
                    bytes@[4 * k + 1],
                    bytes@[4 * k + 2],
                    bytes@[4 * k + 3],
                ),
        decreases n - i,
    {
        let b0 = bytes[4 * i] as u32;
        let b1 = bytes[4 * i + 1] as u32;
        let b2 = bytes[4 * i + 2] as u32;
        let b3 = bytes[4 * i + 3] as u32;
        words.push(b0 + 256 * b1 + 65536 * b2 + 16777216 * b3);
        i += 1;
    }
    assert(words@ =~= decoded(bytes@)->0);
    Some(words)
}

} // verus!
