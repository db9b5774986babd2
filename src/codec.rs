//! Fixed-width little-endian encoding of vectors.
//!
//! A vector component is held as the IEEE-754 bit pattern of a 32-bit float,
//! and each component takes four bytes, least significant byte first.
use vstd::prelude::*;

verus! {

/// Byte `j` (0 to 3) of `w`, counting from the least significant one.
pub open spec fn le_byte(w: u32, j: int) -> u8 {
    if j == 0 {
        (w & 0xff) as u8
    } else if j == 1 {
        ((w >> 8u32) & 0xff) as u8
    } else if j == 2 {
        ((w >> 16u32) & 0xff) as u8
    } else {
        ((w >> 24u32) & 0xff) as u8
    }
}

/// The word whose little-endian bytes are `b0 b1 b2 b3`.
pub open spec fn le_word(b0: u8, b1: u8, b2: u8, b3: u8) -> u32 {
    (b0 as u32) | ((b1 as u32) << 8u32) | ((b2 as u32) << 16u32) | ((b3 as u32) << 24u32)
}

/// The encoding of a whole vector: four bytes per component, in order.
pub open spec fn encode(v: Seq<u32>) -> Seq<u8> {
    Seq::new(4 * v.len(), |k: int| le_byte(v[k / 4], k % 4))
}

/// The decoding of a byte string: one component per complete group of four
/// bytes; trailing bytes that do not fill a group are ignored.
pub open spec fn decode(b: Seq<u8>) -> Seq<u32> {
    Seq::new(b.len() / 4, |i: int| le_word(b[4 * i], b[4 * i + 1], b[4 * i + 2], b[4 * i + 3]))
}

proof fn lemma_word_bytes(w: u32)
    ensures
        le_word(le_byte(w, 0), le_byte(w, 1), le_byte(w, 2), le_byte(w, 3)) == w,
{
    assert(((w & 0xff) as u8) as u32 | (((((w >> 8u32) & 0xff) as u8) as u32) << 8u32) | (((((w
        >> 16u32) & 0xff) as u8) as u32) << 16u32) | (((((w >> 24u32) & 0xff) as u8) as u32)
        << 24u32) == w) by (bit_vector);
}

proof fn lemma_bytes_word(b0: u8, b1: u8, b2: u8, b3: u8)
    ensures
        le_byte(le_word(b0, b1, b2, b3), 0) == b0,
        le_byte(le_word(b0, b1, b2, b3), 1) == b1,
        le_byte(le_word(b0, b1, b2, b3), 2) == b2,
        le_byte(le_word(b0, b1, b2, b3), 3) == b3,
{
    let w = le_word(b0, b1, b2, b3);
    assert(w == (b0 as u32) | ((b1 as u32) << 8u32) | ((b2 as u32) << 16u32) | ((b3 as u32)
        << 24u32));
    assert(((((b0 as u32) | ((b1 as u32) << 8u32) | ((b2 as u32) << 16u32) | ((b3 as u32)
        << 24u32)) & 0xff) as u8) == b0) by (bit_vector);
    assert((((((b0 as u32) | ((b1 as u32) << 8u32) | ((b2 as u32) << 16u32) | ((b3 as u32)
        << 24u32)) >> 8u32) & 0xff) as u8) == b1) by (bit_vector);
    assert((((((b0 as u32) | ((b1 as u32) << 8u32) | ((b2 as u32) << 16u32) | ((b3 as u32)
        << 24u32)) >> 16u32) & 0xff) as u8) == b2) by (bit_vector);
    assert((((((b0 as u32) | ((b1 as u32) << 8u32) | ((b2 as u32) << 16u32) | ((b3 as u32)
        << 24u32)) >> 24u32) & 0xff) as u8) == b3) by (bit_vector);
}

/// Decoding what was encoded gives the vector back.
pub proof fn lemma_decode_encode(v: Seq<u32>)
    ensures
        decode(encode(v)) == v,
{
    let d = decode(encode(v));
    assert forall|i: int| 0 <= i < v.len() implies d[i] == v[i] by {
        lemma_word_bytes(v[i]);
        assert((4 * i) / 4 == i && (4 * i + 1) / 4 == i && (4 * i + 2) / 4 == i && (4 * i + 3)
            / 4 == i);
        assert((4 * i) % 4 == 0 && (4 * i + 1) % 4 == 1 && (4 * i + 2) % 4 == 2 && (4 * i + 3)
            % 4 == 3);
    }
    assert(d =~= v);
}

/// Encoding what was decoded gives the bytes back, when they come in whole
/// groups of four.
pub proof fn lemma_encode_decode(b: Seq<u8>)
    requires
        b.len() % 4 == 0,
    ensures
        encode(decode(b)) == b,
{
    let e = encode(decode(b));
    assert forall|k: int| 0 <= k < b.len() implies e[k] == b[k] by {
        let i = k / 4;
        lemma_bytes_word(b[4 * i], b[4 * i + 1], b[4 * i + 2], b[4 * i + 3]);
    }
    assert(e =~= b);
}

/// Encodes each component of `vector` as four little-endian bytes.
pub fn vector_to_blob(vector: &[u32]) -> (r: Vec<u8>)
    requires
        vector@.len() * 4 <= usize::MAX,
    ensures
        r@ == encode(vector@),
{
    let mut out: Vec<u8> = Vec::new();
    let mut i: usize = 0;
    while i < vector.len()
        invariant
            i <= vector@.len(),
            vector@.len() * 4 <= usize::MAX,
            out@.len() == 4 * i,
            forall|k: int| 0 <= k < 4 * i ==> out@[k] == le_byte(vector@[k / 4], k % 4),
        decreases vector@.len() - i,
    {
        let w = vector[i];
        out.push((w & 0xff) as u8);
        out.push(((w >> 8u32) & 0xff) as u8);
        out.push(((w >> 16u32) & 0xff) as u8);
        out.push(((w >> 24u32) & 0xff) as u8);
        i = i + 1;
    }
    assert(out@ =~= encode(vector@));
    out
}

/// Decodes each complete group of four bytes of `blob` into one component.
pub fn blob_to_vector(blob: &[u8]) -> (r: Vec<u32>)
    ensures
        r@ == decode(blob@),
{
    let len: usize = blob.len();
    let n: usize = len / 4;
    let mut out: Vec<u32> = Vec::new();
    let mut i: usize = 0;
    while i < n
        invariant
            len == blob@.len(),
            n == len / 4,
            i <= n,
            out@.len() == i,
            forall|j: int| 0 <= j < i ==> out@[j] == decode(blob@)[j],
        decreases n - i,
    {
        assert(4 * i + 3 < blob@.len());
        let b: usize = 4 * i;
        let w: u32 = (blob[b] as u32) | ((blob[b + 1] as u32) << 8u32) | ((blob[b + 2] as u32)
            << 16u32) | ((blob[b + 3] as u32) << 24u32);
        out.push(w);
        i = i + 1;
    }
    assert(out@ =~= decode(blob@));
    out
}

} // verus!
