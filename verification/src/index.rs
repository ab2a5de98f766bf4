//! Indexable values: the byte encodings that unique and non-unique
//! index slots are built from.
//!
//! Text is encoded as its UTF-8 bytes, integers as fixed-width
//! big-endian two's complement, identifiers as their 16 big-endian
//! bytes, and ordered collections as the concatenation of their
//! elements' encodings. These exact encodings are what the persisted
//! index keys carry.

use vstd::prelude::*;
use vstd::string::StrSliceExecFns;

use crate::id::{u128_be, Id};
use crate::keys::u32_be;

verus! {

/// Implemented by every type that can serve as the value of a unique
/// or non-unique index slot.
pub trait IndexValue {
    /// The byte encoding of this value in an index key.
    spec fn spec_index_bytes(&self) -> Seq<u8>;

    /// Returns the byte encoding of this value.
    fn as_bytes(&self) -> (r: Vec<u8>)
        ensures
            r@ == self.spec_index_bytes(),
    ;
}

impl IndexValue for String {
    open spec fn spec_index_bytes(&self) -> Seq<u8> {
        vstd::utf8::encode_utf8(self@)
    }

    fn as_bytes(&self) -> (r: Vec<u8>) {
        self.as_str().as_bytes_vec()
    }
}

/// The 2-byte big-endian encoding of a 16-bit value.
pub open spec fn u16_be(x: u16) -> Seq<u8> {
    seq![(x >> 8) as u8, x as u8]
}

/// The 8-byte big-endian encoding of a 64-bit value.
pub open spec fn u64_be(x: u64) -> Seq<u8> {
    seq![
        (x >> 56) as u8,
        (x >> 48) as u8,
        (x >> 40) as u8,
        (x >> 32) as u8,
        (x >> 24) as u8,
        (x >> 16) as u8,
        (x >> 8) as u8,
        x as u8,
    ]
}

impl IndexValue for u8 {
    open spec fn spec_index_bytes(&self) -> Seq<u8> {
        seq![*self]
    }

    fn as_bytes(&self) -> (r: Vec<u8>) {
        let mut v: Vec<u8> = Vec::new();
        v.push(*self);
        proof {
            assert(v@ =~= self.spec_index_bytes());
        }
        v
    }
}

impl IndexValue for u16 {
    open spec fn spec_index_bytes(&self) -> Seq<u8> {
        u16_be(*self)
    }

    fn as_bytes(&self) -> (r: Vec<u8>) {
        let x = *self;
        let mut v: Vec<u8> = Vec::new();
        v.push(#[verifier::truncate] ((x >> 8) as u8));
        v.push(#[verifier::truncate] (x as u8));
        proof {
            assert(v@ =~= self.spec_index_bytes());
        }
        v
    }
}

impl IndexValue for u32 {
    open spec fn spec_index_bytes(&self) -> Seq<u8> {
        u32_be(*self)
    }

    fn as_bytes(&self) -> (r: Vec<u8>) {
        let x = *self;
        let mut v: Vec<u8> = Vec::new();
        v.push(#[verifier::truncate] ((x >> 24) as u8));
        v.push(#[verifier::truncate] ((x >> 16) as u8));
        v.push(#[verifier::truncate] ((x >> 8) as u8));
        v.push(#[verifier::truncate] (x as u8));
        proof {
            assert(v@ =~= self.spec_index_bytes());
        }
        v
    }
}

impl IndexValue for u64 {
    open spec fn spec_index_bytes(&self) -> Seq<u8> {
        u64_be(*self)
    }

    fn as_bytes(&self) -> (r: Vec<u8>) {
        let x = *self;
        let mut v: Vec<u8> = Vec::new();
        v.push(#[verifier::truncate] ((x >> 56) as u8));
        v.push(#[verifier::truncate] ((x >> 48) as u8));
        v.push(#[verifier::truncate] ((x >> 40) as u8));
        v.push(#[verifier::truncate] ((x >> 32) as u8));
        v.push(#[verifier::truncate] ((x >> 24) as u8));
        v.push(#[verifier::truncate] ((x >> 16) as u8));
        v.push(#[verifier::truncate] ((x >> 8) as u8));
        v.push(#[verifier::truncate] (x as u8));
        proof {
            assert(v@ =~= self.spec_index_bytes());
        }
        v
    }
}

impl IndexValue for u128 {
    open spec fn spec_index_bytes(&self) -> Seq<u8> {
        u128_be(*self)
    }

    fn as_bytes(&self) -> (r: Vec<u8>) {
        Id(*self).to_be_bytes()
    }
}

impl IndexValue for i8 {
    open spec fn spec_index_bytes(&self) -> Seq<u8> {
        seq![*self as u8]
    }

    fn as_bytes(&self) -> (r: Vec<u8>) {
        let mut v: Vec<u8> = Vec::new();
        v.push(#[verifier::truncate] (*self as u8));
        proof {
            assert(v@ =~= self.spec_index_bytes());
        }
        v
    }
}

impl IndexValue for i16 {
    open spec fn spec_index_bytes(&self) -> Seq<u8> {
        u16_be(*self as u16)
    }

    fn as_bytes(&self) -> (r: Vec<u8>) {
        let x = #[verifier::truncate] (*self as u16);
        x.as_bytes()
    }
}

impl IndexValue for i32 {
    open spec fn spec_index_bytes(&self) -> Seq<u8> {
        u32_be(*self as u32)
    }

    fn as_bytes(&self) -> (r: Vec<u8>) {
        let x = #[verifier::truncate] (*self as u32);
        x.as_bytes()
    }
}

impl IndexValue for i64 {
    open spec fn spec_index_bytes(&self) -> Seq<u8> {
        u64_be(*self as u64)
    }

    fn as_bytes(&self) -> (r: Vec<u8>) {
        let x = #[verifier::truncate] (*self as u64);
        x.as_bytes()
    }
}

impl IndexValue for i128 {
    open spec fn spec_index_bytes(&self) -> Seq<u8> {
        u128_be(*self as u128)
    }

    fn as_bytes(&self) -> (r: Vec<u8>) {
        let x = #[verifier::truncate] (*self as u128);
        x.as_bytes()
    }
}

impl IndexValue for Id {
    open spec fn spec_index_bytes(&self) -> Seq<u8> {
        u128_be(self.0)
    }

    fn as_bytes(&self) -> (r: Vec<u8>) {
        self.to_be_bytes()
    }
}

/// The concatenation of the encodings of a sequence of values.
pub open spec fn spec_concat_bytes<T: IndexValue>(s: Seq<T>) -> Seq<u8>
    decreases s.len(),
{
    if s.len() == 0 {
        Seq::empty()
    } else {
        spec_concat_bytes(s.drop_last()).add(s.last().spec_index_bytes())
    }
}

impl<T: IndexValue> IndexValue for Vec<T> {
    open spec fn spec_index_bytes(&self) -> Seq<u8> {
        spec_concat_bytes(self@)
    }

    fn as_bytes(&self) -> (r: Vec<u8>) {
        let mut acc: Vec<u8> = Vec::new();
        proof {
            assert(acc@ =~= spec_concat_bytes(self@.take(0)));
        }
        let mut i: usize = 0;
        while i < self.len()
            invariant
                i <= self@.len(),
                acc@ == spec_concat_bytes(self@.take(i as int)),
            decreases self@.len() - i,
        {
            let mut bytes = self[i].as_bytes();
            acc.append(&mut bytes);
            proof {
                assert(self@.take(i + 1).drop_last() =~= self@.take(i as int));
                assert(self@.take(i + 1).last() == self@[i as int]);
            }
            i += 1;
        }
        proof {
            assert(self@.take(self@.len() as int) =~= self@);
        }
        acc
    }
}

} // verus!
