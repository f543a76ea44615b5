//! Little-endian encoding of 32-bit words, four bytes each, with no header
//! and no padding.

use vstd::prelude::*;

verus! {

/// The four bytes of a word, least significant first.
pub open spec fn word_bytes(w: u32) -> Seq<u8> {
    seq![
        (w % 256) as u8,
        (w / 256 % 256) as u8,
        (w / 65536 % 256) as u8,
        (w / 16777216) as u8,
    ]
}

/// The word whose bytes, least significant first, are the first four of `b`.
pub open spec fn word_of(b: Seq<u8>) -> u32
    recommends
        b.len() >= 4,
{
    (b[0] + 256 * b[1] + 65536 * b[2] + 16777216 * b[3]) as u32
}

/// The bytes of every word of `ws`, in order.
pub open spec fn encode_words(ws: Seq<u32>) -> Seq<u8> {
    Seq::new(4 * ws.len(), |i: int| word_bytes(ws[i / 4])[i % 4])
}

/// The words held by the whole four-byte groups of `bytes`, in order.
pub open spec fn decode_words(bytes: Seq<u8>) -> Seq<u32> {
    Seq::new((bytes.len() / 4) as nat, |i: int| word_of(bytes.subrange(4 * i, 4 * i + 4)))
}

/// Decoding the bytes of a word gives the word back.
pub proof fn lemma_word_round_trip(w: u32)
    ensures
        word_bytes(w).len() == 4,
        word_of(word_bytes(w)) == w,
{
}

/// Encoding the word read from four bytes gives those bytes back.
pub proof fn lemma_bytes_round_trip(b: Seq<u8>)
    requires
        b.len() == 4,
    ensures
        word_bytes(word_of(b)) == b,
{
    let b0 = b[0] as int;
    let b1 = b[1] as int;
    let b2 = b[2] as int;
    let b3 = b[3] as int;
    let x = b0 + 256 * b1 + 65536 * b2 + 16777216 * b3;
    assert(word_of(b) == x);
    assert(x % 256 == b0);
    assert(x / 256 == b1 + 256 * b2 + 65536 * b3);
    assert(x / 65536 == b2 + 256 * b3);
    assert(x / 16777216 == b3);
    assert(word_bytes(word_of(b)) =~= b);
}

/// Decoding an encoded sequence of words gives the sequence back.
pub proof fn lemma_encode_decode(ws: Seq<u32>)
    ensures
        encode_words(ws).len() == 4 * ws.len(),
        decode_words(encode_words(ws)) == ws,
{
    let bytes = encode_words(ws);
    assert forall|i: int| 0 <= i < ws.len() implies #[trigger] decode_words(bytes)[i] == ws[i] by {
        let group = bytes.subrange(4 * i, 4 * i + 4);
        assert(group =~= word_bytes(ws[i])) by {
            assert forall|j: int| 0 <= j < 4 implies group[j] == word_bytes(ws[i])[j] by {
                assert((4 * i + j) / 4 == i);
                assert((4 * i + j) % 4 == j);
            }
        }
        lemma_word_round_trip(ws[i]);
    }
    assert(decode_words(bytes) =~= ws);
}

/// Encoding the words decoded from whole four-byte groups gives the bytes back.
pub proof fn lemma_decode_encode(bytes: Seq<u8>)
    requires
        bytes.len() % 4 == 0,
    ensures
        encode_words(decode_words(bytes)) == bytes,
{
    let ws = decode_words(bytes);
    assert forall|i: int| 0 <= i < bytes.len() implies #[trigger] encode_words(ws)[i]
        == bytes[i] by {
        let g = i / 4;
        let group = bytes.subrange(4 * g, 4 * g + 4);
        lemma_bytes_round_trip(group);
        assert(group[i % 4] == bytes[4 * g + i % 4]);
    }
    assert(encode_words(ws) =~= bytes);
}

/// Encodes one word, least significant byte first.
pub fn encode_word(w: u32) -> (b: [u8; 4])
    ensures
        b@ == word_bytes(w),
{
    let b0: u8 = (w & 0xff) as u8;
    let b1: u8 = ((w >> 8) & 0xff) as u8;
    let b2: u8 = ((w >> 16) & 0xff) as u8;
    let b3: u8 = (w >> 24) as u8;
    assert(w & 0xff == w % 256) by (bit_vector);
    assert((w >> 8) & 0xff == w / 256 % 256) by (bit_vector);
    assert((w >> 16) & 0xff == w / 65536 % 256) by (bit_vector);
    assert(w >> 24 == w / 16777216) by (bit_vector);
    let b = [b0, b1, b2, b3];
    assert(b@ =~= word_bytes(w));
    b
}

/// Decodes the word stored at `at`, least significant byte first.
pub fn decode_word(bytes: &[u8], at: usize) -> (w: u32)
    requires
        at + 4 <= bytes.len(),
    ensures
        w == word_of(bytes@.subrange(at as int, at + 4)),
{
    let b0: u32 = bytes[at] as u32;
    let b1: u32 = bytes[at + 1] as u32;
    let b2: u32 = bytes[at + 2] as u32;
    let b3: u32 = bytes[at + 3] as u32;
    assert(b0 < 256 && b1 < 256 && b2 < 256 && b3 < 256 ==> (b0 | (b1 << 8) | (b2 << 16) | (b3
        << 24)) == b0 + 256 * b1 + 65536 * b2 + 16777216 * b3) by (bit_vector);
    b0 | (b1 << 8) | (b2 << 16) | (b3 << 24)
}

/// Encodes a vector of words as one record.
pub fn encode_vector(v: &[u32]) -> (bytes: Vec<u8>)
    ensures
        bytes@ == encode_words(v@),
{
    let mut bytes: Vec<u8> = Vec::new();
    let mut i: usize = 0;
    while i < v.len()
        invariant
            i <= v.len(),
            bytes@ == encode_words(v@.take(i as int)),
        decreases v.len() - i,
    {
        let b = encode_word(v[i]);
        let ghost before = bytes@;
        bytes.push(b[0]);
        bytes.push(b[1]);
        bytes.push(b[2]);
        bytes.push(b[3]);
        proof {
            let next = encode_words(v@.take(i + 1));
            assert(bytes@.len() == next.len());
            assert forall|j: int| 0 <= j < next.len() implies bytes@[j] == next[j] by {
                if j < 4 * i {
                    assert(before[j] == encode_words(v@.take(i as int))[j]);
                } else {
                    assert(j / 4 == i);
                }
            }
            assert(bytes@ =~= next);
        }
        i += 1;
    }
    assert(v@.take(i as int) =~= v@);
    bytes
}

/// Decodes the record of `dim` words that starts at byte `start`.
pub fn decode_vector(bytes: &[u8], start: usize, dim: usize) -> (v: Vec<u32>)
    requires
        start + 4 * dim <= bytes.len(),
    ensures
        v@ == decode_words(bytes@.subrange(start as int, start + 4 * dim)),
{
    let ghost record = bytes@.subrange(start as int, start + 4 * dim);
    let mut v: Vec<u32> = Vec::new();
    let mut i: usize = 0;
    while i < dim
        invariant
            i <= dim,
            start + 4 * dim <= bytes.len(),
            record == bytes@.subrange(start as int, start + 4 * dim),
            v@.len() == i,
            forall|j: int| 0 <= j < i ==> v@[j] == #[trigger] decode_words(record)[j],
        decreases dim - i,
    {
        let w = decode_word(bytes, start + 4 * i);
        assert(bytes@.subrange(start + 4 * i, start + 4 * i + 4) =~= record.subrange(
            4 * i,
            4 * i + 4,
        ));
        v.push(w);
        i += 1;
    }
    assert(v@ =~= decode_words(record));
    v
}

} // verus!
