//! The key codec: pure transforms from (table, slot, key material,
//! identifier) to byte keys of the shared keyspace, and back.
//!
//! Layout, all multi-byte integers big-endian:
//! - primary entry:      `table(4) . 0x00 . id(16)`
//! - unique index:       `table(4) . slot(1) . value`
//! - non-unique index:   `table(4) . slot(1) . value . id(16)`

use vstd::prelude::*;

use crate::bytes::is_prefix;
use crate::error::Error;
use crate::id::{be16_val, id_at, u128_be, Id};

verus! {

/// The 4-byte big-endian encoding of a 32-bit value.
pub open spec fn u32_be(x: u32) -> Seq<u8> {
    seq![(x >> 24) as u8, (x >> 16) as u8, (x >> 8) as u8, x as u8]
}

pub proof fn lemma_u32_be_injective(x: u32, y: u32)
    requires
        u32_be(x) == u32_be(y),
    ensures
        x == y,
{
    assert(u32_be(x)[0] == u32_be(y)[0] && u32_be(x)[1] == u32_be(y)[1] && u32_be(x)[2] == u32_be(
        y,
    )[2] && u32_be(x)[3] == u32_be(y)[3]);
    assert(((x >> 24) as u8 == (y >> 24) as u8 && (x >> 16) as u8 == (y >> 16) as u8 && (x >> 8)
        as u8 == (y >> 8) as u8 && x as u8 == y as u8) ==> x == y) by (bit_vector);
}

/// The 5-byte region prefix shared by every key of one (table, slot).
pub open spec fn spec_key_prefix(table: u32, slot: u8) -> Seq<u8> {
    u32_be(table).push(slot)
}

/// The key of the primary entry of record `id`.
pub open spec fn spec_primary_key(table: u32, id: u128) -> Seq<u8> {
    spec_key_prefix(table, 0).add(u128_be(id))
}

/// The key of the unique-index entry for `value` in `slot`.
pub open spec fn spec_unique_key(table: u32, slot: u8, value: Seq<u8>) -> Seq<u8> {
    spec_key_prefix(table, slot).add(value)
}

/// The scan prefix shared by the non-unique entries for `value` in `slot`.
pub open spec fn spec_non_unique_prefix(table: u32, slot: u8, value: Seq<u8>) -> Seq<u8> {
    spec_key_prefix(table, slot).add(value)
}

/// The key of the non-unique-index entry of record `id` for `value`.
pub open spec fn spec_non_unique_key(table: u32, slot: u8, value: Seq<u8>, id: u128) -> Seq<u8> {
    spec_non_unique_prefix(table, slot, value).add(u128_be(id))
}

/// Two keys of the shared keyspace agree only if they were built from
/// the same table, the same slot and the same payload.
pub proof fn lemma_prefixed_key_injective(t1: u32, s1: u8, a: Seq<u8>, t2: u32, s2: u8, b: Seq<u8>)
    requires
        spec_key_prefix(t1, s1).add(a) == spec_key_prefix(t2, s2).add(b),
    ensures
        t1 == t2,
        s1 == s2,
        a == b,
{
    let p1 = spec_key_prefix(t1, s1);
    let p2 = spec_key_prefix(t2, s2);
    let k1 = p1.add(a);
    let k2 = p2.add(b);
    assert(p1.len() == 5 && p2.len() == 5);
    assert forall|i: int| 0 <= i < 4 implies u32_be(t1)[i] == u32_be(t2)[i] by {
        assert(k1[i] == p1[i] && p1[i] == u32_be(t1)[i]);
        assert(k2[i] == p2[i] && p2[i] == u32_be(t2)[i]);
    }
    assert(u32_be(t1) =~= u32_be(t2));
    lemma_u32_be_injective(t1, t2);
    assert(k1[4] == p1[4] && p1[4] == s1);
    assert(k2[4] == p2[4] && p2[4] == s2);
    assert(k1.len() == 5 + a.len() && k2.len() == 5 + b.len() && k1.len() == k2.len());
    assert(a.len() == b.len());
    assert forall|i: int| 0 <= i < a.len() implies a[i] == b[i] by {
        assert(k1[i + 5] == a[i]);
        assert(k2[i + 5] == b[i]);
    }
    assert(a =~= b);
}

/// A region prefix reaches into another region's key only if table and
/// slot agree.
pub proof fn lemma_region_prefix(t1: u32, s1: u8, t2: u32, s2: u8, b: Seq<u8>)
    requires
        is_prefix(spec_key_prefix(t1, s1), spec_key_prefix(t2, s2).add(b)),
    ensures
        t1 == t2,
        s1 == s2,
{
    let p = spec_key_prefix(t1, s1);
    let p2 = spec_key_prefix(t2, s2);
    let k = p2.add(b);
    assert(p.len() == 5 && p2.len() == 5);
    assert(k.subrange(0, 5) == p);
    assert forall|i: int| 0 <= i < 4 implies u32_be(t1)[i] == u32_be(t2)[i] by {
        assert(u32_be(t1)[i] == p[i] && p[i] == k.subrange(0, 5)[i]);
        assert(k.subrange(0, 5)[i] == k[i]);
        assert(k[i] == p2[i] && p2[i] == u32_be(t2)[i]);
    }
    assert(u32_be(t1) =~= u32_be(t2));
    lemma_u32_be_injective(t1, t2);
    assert(s1 == p[4] && p[4] == k.subrange(0, 5)[4]);
    assert(k.subrange(0, 5)[4] == k[4]);
    assert(k[4] == p2[4] && p2[4] == s2);
}

/// Every key is an extension of its own region prefix.
pub proof fn lemma_prefix_extends(t: u32, s: u8, b: Seq<u8>)
    ensures
        is_prefix(spec_key_prefix(t, s), spec_key_prefix(t, s).add(b)),
{
    let p = spec_key_prefix(t, s);
    assert(p.add(b).subrange(0, 5) =~= p);
}

/// Builds the 5-byte region prefix of (table, index).
pub fn key_prefix(table: u32, index: u8) -> (r: Vec<u8>)
    ensures
        r@ == spec_key_prefix(table, index),
{
    let mut prefix: Vec<u8> = Vec::new();
    prefix.push(#[verifier::truncate] ((table >> 24) as u8));
    prefix.push(#[verifier::truncate] ((table >> 16) as u8));
    prefix.push(#[verifier::truncate] ((table >> 8) as u8));
    prefix.push(#[verifier::truncate] (table as u8));
    prefix.push(index);
    proof {
        assert(prefix@ =~= spec_key_prefix(table, index));
    }
    prefix
}

/// Builds the primary key of record `id` in `table`.
pub fn primary_key(table: u32, id: Id) -> (r: Vec<u8>)
    ensures
        r@ == spec_primary_key(table, id.0),
{
    let mut key = key_prefix(table, 0);
    let mut tail = id.to_be_bytes();
    key.append(&mut tail);
    key
}

/// Builds the unique-index key for `value` in (table, index).
pub fn unique_key(table: u32, index: u8, value: &[u8]) -> (r: Vec<u8>)
    ensures
        r@ == spec_unique_key(table, index, value@),
{
    let mut key = key_prefix(table, index);
    let mut tail = vstd::slice::slice_to_vec(value);
    key.append(&mut tail);
    key
}

/// Builds the scan prefix of the non-unique entries for `value` in
/// (table, index).
pub fn non_unique_prefix(table: u32, index: u8, value: &[u8]) -> (r: Vec<u8>)
    ensures
        r@ == spec_non_unique_prefix(table, index, value@),
{
    let mut prefix = key_prefix(table, index);
    let mut tail = vstd::slice::slice_to_vec(value);
    prefix.append(&mut tail);
    prefix
}

/// Builds the non-unique-index key of record `id` for `value` in
/// (table, index).
pub fn non_unique_key(table: u32, index: u8, value: &[u8], id: Id) -> (r: Vec<u8>)
    ensures
        r@ == spec_non_unique_key(table, index, value@, id.0),
{
    let mut key = non_unique_prefix(table, index, value);
    let mut tail = id.to_be_bytes();
    key.append(&mut tail);
    key
}

/// Reads the identifier out of a primary key: the 16 bytes after the
/// 5-byte region prefix. A primary key has exactly 21 bytes.
pub fn id_from_primary_key(bytes: &[u8]) -> (r: Result<Id, Error>)
    ensures
        match r {
            Ok(id) => bytes@.len() == 21 && id.0 == be16_val(bytes@.subrange(5, 21)),
            Err(e) => e == Error::MalformedKey && bytes@.len() != 21,
        },
{
    if bytes.len() != 21 {
        return Err(Error::MalformedKey);
    }
    Ok(id_at(bytes, 5))
}

/// Reads the identifier out of a non-unique-index key: its final 16
/// bytes. Such a key carries at least the 5-byte region prefix and the
/// 16 identifier bytes.
pub fn id_from_non_unique_key(bytes: &[u8]) -> (r: Result<Id, Error>)
    ensures
        match r {
            Ok(id) => bytes@.len() >= 21 && id.0 == be16_val(
                bytes@.subrange(bytes@.len() - 16, bytes@.len() as int),
            ),
            Err(e) => e == Error::MalformedKey && bytes@.len() < 21,
        },
{
    if bytes.len() < 21 {
        return Err(Error::MalformedKey);
    }
    Ok(id_at(bytes, bytes.len() - 16))
}

/// Reads an identifier stored on its own as 16 big-endian bytes, the
/// value format of unique-index entries.
pub fn id_from_slice(bytes: &[u8]) -> (r: Result<Id, Error>)
    ensures
        match r {
            Ok(id) => bytes@.len() == 16 && id.0 == be16_val(bytes@),
            Err(e) => e == Error::MalformedKey && bytes@.len() != 16,
        },
{
    if bytes.len() != 16 {
        return Err(Error::MalformedKey);
    }
    let id = id_at(bytes, 0);
    proof {
        assert(bytes@.subrange(0, 16) =~= bytes@);
    }
    Ok(id)
}

} // verus!
