//! Record identifiers: 128-bit values generated fresh at create, carried
//! in keys as 16 big-endian bytes so that the key order follows the
//! identifiers' byte order.

use vstd::prelude::*;

verus! {

/// A record identifier. Generated once at create, immutable for the
/// lifetime of the record; its big-endian encoding is the primary-key
/// suffix.
#[derive(Debug, Clone, Copy, PartialEq, Eq, Structural)]
pub struct Id(pub u128);

/// The 16-byte big-endian encoding of a 128-bit value.
pub open spec fn u128_be(x: u128) -> Seq<u8> {
    seq![
        (x >> 120) as u8,
        (x >> 112) as u8,
        (x >> 104) as u8,
        (x >> 96) as u8,
        (x >> 88) as u8,
        (x >> 80) as u8,
        (x >> 72) as u8,
        (x >> 64) as u8,
        (x >> 56) as u8,
        (x >> 48) as u8,
        (x >> 40) as u8,
        (x >> 32) as u8,
        (x >> 24) as u8,
        (x >> 16) as u8,
        (x >> 8) as u8,
        x as u8,
    ]
}

/// The value carried by 16 big-endian bytes.
pub open spec fn be16_val(s: Seq<u8>) -> u128 {
    ((s[0] as u128) << 120) | ((s[1] as u128) << 112) | ((s[2] as u128) << 104) | ((s[3] as u128)
        << 96) | ((s[4] as u128) << 88) | ((s[5] as u128) << 80) | ((s[6] as u128) << 72) | ((
    s[7] as u128) << 64) | ((s[8] as u128) << 56) | ((s[9] as u128) << 48) | ((s[10] as u128)
        << 40) | ((s[11] as u128) << 32) | ((s[12] as u128) << 24) | ((s[13] as u128) << 16) | ((
    s[14] as u128) << 8) | (s[15] as u128)
}

/// Reading the encoding back yields the encoded value.
pub proof fn lemma_u128_be_val(x: u128)
    ensures
        be16_val(u128_be(x)) == x,
{
    assert((((x >> 120) as u8) as u128) << 120 | (((x >> 112) as u8) as u128) << 112 | (((x >> 104)
        as u8) as u128) << 104 | (((x >> 96) as u8) as u128) << 96 | (((x >> 88) as u8) as u128)
        << 88 | (((x >> 80) as u8) as u128) << 80 | (((x >> 72) as u8) as u128) << 72 | (((x >> 64)
        as u8) as u128) << 64 | (((x >> 56) as u8) as u128) << 56 | (((x >> 48) as u8) as u128)
        << 48 | (((x >> 40) as u8) as u128) << 40 | (((x >> 32) as u8) as u128) << 32 | (((x >> 24)
        as u8) as u128) << 24 | (((x >> 16) as u8) as u128) << 16 | (((x >> 8) as u8) as u128) << 8
        | ((x as u8) as u128) == x) by (bit_vector);
}

/// The encoding is injective: no two identifiers share it.
pub proof fn lemma_u128_be_injective(x: u128, y: u128)
    requires
        u128_be(x) == u128_be(y),
    ensures
        x == y,
{
    lemma_u128_be_val(x);
    lemma_u128_be_val(y);
}


/// Encoding the value read from 16 bytes gives those bytes back.
pub proof fn lemma_be16_val_bytes(s: Seq<u8>)
    requires
        s.len() == 16,
    ensures
        u128_be(be16_val(s)) == s,
{
    let b0 = s[0];
    let b1 = s[1];
    let b2 = s[2];
    let b3 = s[3];
    let b4 = s[4];
    let b5 = s[5];
    let b6 = s[6];
    let b7 = s[7];
    let b8 = s[8];
    let b9 = s[9];
    let b10 = s[10];
    let b11 = s[11];
    let b12 = s[12];
    let b13 = s[13];
    let b14 = s[14];
    let b15 = s[15];
    let x = be16_val(s);
    assert(x == (b0 as u128) << 120 | (b1 as u128) << 112 | (b2 as u128) << 104 | (b3 as u128) << 96 | (b4 as u128) << 88 | (b5 as u128) << 80 | (b6 as u128) << 72 | (b7 as u128) << 64 | (b8 as u128) << 56 | (b9 as u128) << 48 | (b10 as u128) << 40 | (b11 as u128) << 32 | (b12 as u128) << 24 | (b13 as u128) << 16 | (b14 as u128) << 8 | (b15 as u128));
    assert((((b0 as u128) << 120 | (b1 as u128) << 112 | (b2 as u128) << 104 | (b3 as u128) << 96 | (b4 as u128) << 88 | (b5 as u128) << 80 | (b6 as u128) << 72 | (b7 as u128) << 64 | (b8 as u128) << 56 | (b9 as u128) << 48 | (b10 as u128) << 40 | (b11 as u128) << 32 | (b12 as u128) << 24 | (b13 as u128) << 16 | (b14 as u128) << 8 | (b15 as u128)) >> 120) as u8 == b0) by (bit_vector);
    assert((((b0 as u128) << 120 | (b1 as u128) << 112 | (b2 as u128) << 104 | (b3 as u128) << 96 | (b4 as u128) << 88 | (b5 as u128) << 80 | (b6 as u128) << 72 | (b7 as u128) << 64 | (b8 as u128) << 56 | (b9 as u128) << 48 | (b10 as u128) << 40 | (b11 as u128) << 32 | (b12 as u128) << 24 | (b13 as u128) << 16 | (b14 as u128) << 8 | (b15 as u128)) >> 112) as u8 == b1) by (bit_vector);
    assert((((b0 as u128) << 120 | (b1 as u128) << 112 | (b2 as u128) << 104 | (b3 as u128) << 96 | (b4 as u128) << 88 | (b5 as u128) << 80 | (b6 as u128) << 72 | (b7 as u128) << 64 | (b8 as u128) << 56 | (b9 as u128) << 48 | (b10 as u128) << 40 | (b11 as u128) << 32 | (b12 as u128) << 24 | (b13 as u128) << 16 | (b14 as u128) << 8 | (b15 as u128)) >> 104) as u8 == b2) by (bit_vector);
    assert((((b0 as u128) << 120 | (b1 as u128) << 112 | (b2 as u128) << 104 | (b3 as u128) << 96 | (b4 as u128) << 88 | (b5 as u128) << 80 | (b6 as u128) << 72 | (b7 as u128) << 64 | (b8 as u128) << 56 | (b9 as u128) << 48 | (b10 as u128) << 40 | (b11 as u128) << 32 | (b12 as u128) << 24 | (b13 as u128) << 16 | (b14 as u128) << 8 | (b15 as u128)) >> 96) as u8 == b3) by (bit_vector);
    assert((((b0 as u128) << 120 | (b1 as u128) << 112 | (b2 as u128) << 104 | (b3 as u128) << 96 | (b4 as u128) << 88 | (b5 as u128) << 80 | (b6 as u128) << 72 | (b7 as u128) << 64 | (b8 as u128) << 56 | (b9 as u128) << 48 | (b10 as u128) << 40 | (b11 as u128) << 32 | (b12 as u128) << 24 | (b13 as u128) << 16 | (b14 as u128) << 8 | (b15 as u128)) >> 88) as u8 == b4) by (bit_vector);
    assert((((b0 as u128) << 120 | (b1 as u128) << 112 | (b2 as u128) << 104 | (b3 as u128) << 96 | (b4 as u128) << 88 | (b5 as u128) << 80 | (b6 as u128) << 72 | (b7 as u128) << 64 | (b8 as u128) << 56 | (b9 as u128) << 48 | (b10 as u128) << 40 | (b11 as u128) << 32 | (b12 as u128) << 24 | (b13 as u128) << 16 | (b14 as u128) << 8 | (b15 as u128)) >> 80) as u8 == b5) by (bit_vector);
    assert((((b0 as u128) << 120 | (b1 as u128) << 112 | (b2 as u128) << 104 | (b3 as u128) << 96 | (b4 as u128) << 88 | (b5 as u128) << 80 | (b6 as u128) << 72 | (b7 as u128) << 64 | (b8 as u128) << 56 | (b9 as u128) << 48 | (b10 as u128) << 40 | (b11 as u128) << 32 | (b12 as u128) << 24 | (b13 as u128) << 16 | (b14 as u128) << 8 | (b15 as u128)) >> 72) as u8 == b6) by (bit_vector);
    assert((((b0 as u128) << 120 | (b1 as u128) << 112 | (b2 as u128) << 104 | (b3 as u128) << 96 | (b4 as u128) << 88 | (b5 as u128) << 80 | (b6 as u128) << 72 | (b7 as u128) << 64 | (b8 as u128) << 56 | (b9 as u128) << 48 | (b10 as u128) << 40 | (b11 as u128) << 32 | (b12 as u128) << 24 | (b13 as u128) << 16 | (b14 as u128) << 8 | (b15 as u128)) >> 64) as u8 == b7) by (bit_vector);
    assert((((b0 as u128) << 120 | (b1 as u128) << 112 | (b2 as u128) << 104 | (b3 as u128) << 96 | (b4 as u128) << 88 | (b5 as u128) << 80 | (b6 as u128) << 72 | (b7 as u128) << 64 | (b8 as u128) << 56 | (b9 as u128) << 48 | (b10 as u128) << 40 | (b11 as u128) << 32 | (b12 as u128) << 24 | (b13 as u128) << 16 | (b14 as u128) << 8 | (b15 as u128)) >> 56) as u8 == b8) by (bit_vector);
    assert((((b0 as u128) << 120 | (b1 as u128) << 112 | (b2 as u128) << 104 | (b3 as u128) << 96 | (b4 as u128) << 88 | (b5 as u128) << 80 | (b6 as u128) << 72 | (b7 as u128) << 64 | (b8 as u128) << 56 | (b9 as u128) << 48 | (b10 as u128) << 40 | (b11 as u128) << 32 | (b12 as u128) << 24 | (b13 as u128) << 16 | (b14 as u128) << 8 | (b15 as u128)) >> 48) as u8 == b9) by (bit_vector);
    assert((((b0 as u128) << 120 | (b1 as u128) << 112 | (b2 as u128) << 104 | (b3 as u128) << 96 | (b4 as u128) << 88 | (b5 as u128) << 80 | (b6 as u128) << 72 | (b7 as u128) << 64 | (b8 as u128) << 56 | (b9 as u128) << 48 | (b10 as u128) << 40 | (b11 as u128) << 32 | (b12 as u128) << 24 | (b13 as u128) << 16 | (b14 as u128) << 8 | (b15 as u128)) >> 40) as u8 == b10) by (bit_vector);
    assert((((b0 as u128) << 120 | (b1 as u128) << 112 | (b2 as u128) << 104 | (b3 as u128) << 96 | (b4 as u128) << 88 | (b5 as u128) << 80 | (b6 as u128) << 72 | (b7 as u128) << 64 | (b8 as u128) << 56 | (b9 as u128) << 48 | (b10 as u128) << 40 | (b11 as u128) << 32 | (b12 as u128) << 24 | (b13 as u128) << 16 | (b14 as u128) << 8 | (b15 as u128)) >> 32) as u8 == b11) by (bit_vector);
    assert((((b0 as u128) << 120 | (b1 as u128) << 112 | (b2 as u128) << 104 | (b3 as u128) << 96 | (b4 as u128) << 88 | (b5 as u128) << 80 | (b6 as u128) << 72 | (b7 as u128) << 64 | (b8 as u128) << 56 | (b9 as u128) << 48 | (b10 as u128) << 40 | (b11 as u128) << 32 | (b12 as u128) << 24 | (b13 as u128) << 16 | (b14 as u128) << 8 | (b15 as u128)) >> 24) as u8 == b12) by (bit_vector);
    assert((((b0 as u128) << 120 | (b1 as u128) << 112 | (b2 as u128) << 104 | (b3 as u128) << 96 | (b4 as u128) << 88 | (b5 as u128) << 80 | (b6 as u128) << 72 | (b7 as u128) << 64 | (b8 as u128) << 56 | (b9 as u128) << 48 | (b10 as u128) << 40 | (b11 as u128) << 32 | (b12 as u128) << 24 | (b13 as u128) << 16 | (b14 as u128) << 8 | (b15 as u128)) >> 16) as u8 == b13) by (bit_vector);
    assert((((b0 as u128) << 120 | (b1 as u128) << 112 | (b2 as u128) << 104 | (b3 as u128) << 96 | (b4 as u128) << 88 | (b5 as u128) << 80 | (b6 as u128) << 72 | (b7 as u128) << 64 | (b8 as u128) << 56 | (b9 as u128) << 48 | (b10 as u128) << 40 | (b11 as u128) << 32 | (b12 as u128) << 24 | (b13 as u128) << 16 | (b14 as u128) << 8 | (b15 as u128)) >> 8) as u8 == b14) by (bit_vector);
    assert(((b0 as u128) << 120 | (b1 as u128) << 112 | (b2 as u128) << 104 | (b3 as u128) << 96 | (b4 as u128) << 88 | (b5 as u128) << 80 | (b6 as u128) << 72 | (b7 as u128) << 64 | (b8 as u128) << 56 | (b9 as u128) << 48 | (b10 as u128) << 40 | (b11 as u128) << 32 | (b12 as u128) << 24 | (b13 as u128) << 16 | (b14 as u128) << 8 | (b15 as u128)) as u8 == b15) by (bit_vector);
    assert(u128_be(x) =~= s);
}

impl Id {
    /// The 16 big-endian bytes of this identifier.
    pub fn to_be_bytes(&self) -> (r: Vec<u8>)
        ensures
            r@ == u128_be(self.0),
    {
        let x = self.0;
        let mut v: Vec<u8> = Vec::new();
        v.push(#[verifier::truncate] ((x >> 120) as u8));
        v.push(#[verifier::truncate] ((x >> 112) as u8));
        v.push(#[verifier::truncate] ((x >> 104) as u8));
        v.push(#[verifier::truncate] ((x >> 96) as u8));
        v.push(#[verifier::truncate] ((x >> 88) as u8));
        v.push(#[verifier::truncate] ((x >> 80) as u8));
        v.push(#[verifier::truncate] ((x >> 72) as u8));
        v.push(#[verifier::truncate] ((x >> 64) as u8));
        v.push(#[verifier::truncate] ((x >> 56) as u8));
        v.push(#[verifier::truncate] ((x >> 48) as u8));
        v.push(#[verifier::truncate] ((x >> 40) as u8));
        v.push(#[verifier::truncate] ((x >> 32) as u8));
        v.push(#[verifier::truncate] ((x >> 24) as u8));
        v.push(#[verifier::truncate] ((x >> 16) as u8));
        v.push(#[verifier::truncate] ((x >> 8) as u8));
        v.push(#[verifier::truncate] (x as u8));
        proof {
            assert(v@ =~= u128_be(x));
        }
        v
    }
}

/// Reads the identifier carried by `bytes[offset..offset + 16]`.
pub fn id_at(bytes: &[u8], offset: usize) -> (r: Id)
    requires
        offset + 16 <= bytes@.len(),
    ensures
        r.0 == be16_val(bytes@.subrange(offset as int, offset as int + 16)),
{
    let x: u128 = ((bytes[offset] as u128) << 120) | ((bytes[offset + 1] as u128) << 112) | ((
    bytes[offset + 2] as u128) << 104) | ((bytes[offset + 3] as u128) << 96) | ((bytes[offset
        + 4] as u128) << 88) | ((bytes[offset + 5] as u128) << 80) | ((bytes[offset + 6] as u128)
        << 72) | ((bytes[offset + 7] as u128) << 64) | ((bytes[offset + 8] as u128) << 56) | ((
    bytes[offset + 9] as u128) << 48) | ((bytes[offset + 10] as u128) << 40) | ((bytes[offset
        + 11] as u128) << 32) | ((bytes[offset + 12] as u128) << 24) | ((bytes[offset + 13]
        as u128) << 16) | ((bytes[offset + 14] as u128) << 8) | (bytes[offset + 15] as u128);
    proof {
        let s = bytes@.subrange(offset as int, offset as int + 16);
        assert(forall|i: int| 0 <= i < 16 ==> s[i] == bytes@[offset + i]);
    }
    Id(x)
}

/// Relies on `ulid::Ulid::generate`: a 128-bit identifier built from
/// the current time and random bits. Its own documentation does not
/// guarantee monotonic sort order (draws within one millisecond are
/// ordered by their random bits), so nothing is assumed of the value
/// returned.
#[verifier::external_body]
pub(crate) fn fresh_id() -> Id {
    Id(ulid::Ulid::generate().0)
}

} // verus!
