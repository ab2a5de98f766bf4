//! Singletons: at most one serializable value per type, keyed only by
//! a type tag in the reserved table 0.

use vstd::prelude::*;

use crate::error::Error;
use crate::keys::{key_prefix, spec_key_prefix, u32_be};
use crate::store::Store;

verus! {

/// The capability contract of a singleton: a type tag unique per
/// singleton type, and the codec hooks.
pub trait Single: Sized {
    /// The type tag, unique per singleton type.
    ///
    /// As in [`crate::table::Table`], the specification functions
    /// carry defaults so that an implementation left unverified
    /// compiles; the verified contracts describe such an
    /// implementation only as far as its executable methods agree
    /// with the defaults. A verified implementation overrides them.
    open spec fn spec_single() -> u32 {
        1
    }

    /// The serialized form of this value.
    open spec fn spec_bytes(&self) -> Seq<u8> {
        Seq::empty()
    }

    /// Whether this value serializes at all.
    open spec fn spec_encodable(&self) -> bool {
        true
    }

    /// The type tag.
    fn single() -> (t: u32)
        ensures
            t == Self::spec_single(),
    ;

    /// Serializes this value. Deterministic: equal values give equal
    /// bytes.
    fn to_bytes(&self) -> (r: Result<Vec<u8>, Error>)
        ensures
            match r {
                Ok(b) => self.spec_encodable() && b@ == self.spec_bytes(),
                Err(e) => e == Error::Encoding && !self.spec_encodable(),
            },
    ;

    /// Deserializes a value. Whatever serialized an encodable value is
    /// read back as that value.
    fn from_bytes(bytes: &[u8]) -> (r: Result<Self, Error>)
        ensures
            forall|v: Self|
                bytes@ == v.spec_bytes() && v.spec_encodable() ==> r == Ok::<Self, Error>(v),
            r matches Err(e) ==> e == Error::Encoding,
    ;
}

/// The key of the singleton entry for type tag `single`: the reserved
/// table 0, slot 0, then the tag itself.
pub open spec fn spec_single_key(single: u32) -> Seq<u8> {
    spec_key_prefix(0, 0).add(u32_be(single))
}

/// Builds the key of the singleton entry for `single`.
pub fn key(single: u32) -> (r: Vec<u8>)
    ensures
        r@ == spec_single_key(single),
{
    let mut k = key_prefix(0, 0);
    k.push(#[verifier::truncate] ((single >> 24) as u8));
    k.push(#[verifier::truncate] ((single >> 16) as u8));
    k.push(#[verifier::truncate] ((single >> 8) as u8));
    k.push(#[verifier::truncate] (single as u8));
    proof {
        assert(k@ =~= spec_single_key(single));
    }
    k
}

/// Stores the value, overwriting any previous one: a single key, so no
/// uniqueness concerns.
pub fn put<S: Single>(item: &S, store: &mut Store) -> (r: Result<(), Error>)
    ensures
        match r {
            Ok(()) => item.spec_encodable() && final(store).contents() == old(
                store,
            ).contents().insert(spec_single_key(S::spec_single()), item.spec_bytes()),
            Err(e) => e == Error::Encoding && !item.spec_encodable() && final(store).contents()
                == old(store).contents(),
        },
{
    let serialized = match item.to_bytes() {
        Ok(b) => b,
        Err(e) => {
            return Err(e);
        },
    };
    store.put(key(S::single()), serialized);
    Ok(())
}

/// Reads the stored value. Fails with `NotFound` exactly when the type
/// was never put.
pub fn get<S: Single>(store: &Store) -> (r: Result<S, Error>)
    ensures
        ({
            let m = store.contents();
            let k = spec_single_key(S::spec_single());
            match r {
                Ok(v) => m.dom().contains(k) && (forall|w: S|
                    m[k] == w.spec_bytes() && w.spec_encodable() ==> v == w),
                Err(e) => (e == Error::NotFound <==> !m.dom().contains(k)) && (e
                    == Error::NotFound || e == Error::Encoding) && (e == Error::Encoding
                    ==> forall|w: S| w.spec_encodable() ==> m[k] != w.spec_bytes()),
            }
        }),
{
    let k = key(S::single());
    match store.get(k.as_slice()) {
        None => Err(Error::NotFound),
        Some(bytes) => S::from_bytes(bytes.as_slice()),
    }
}

/// Removes the stored value; succeeds even if none was ever put.
pub fn delete<S: Single>(store: &mut Store) -> (r: Result<(), Error>)
    ensures
        r == Ok::<(), Error>(()),
        final(store).contents() == old(store).contents().remove(
            spec_single_key(S::spec_single()),
        ),
{
    let k = key(S::single());
    store.delete(k.as_slice());
    Ok(())
}

/// Table 0 is reserved for singletons: no table key of a valid schema
/// ever collides with a singleton entry.
pub proof fn lemma_singleton_key_reserved(single: u32, t: u32, s: u8, payload: Seq<u8>)
    requires
        t != 0,
    ensures
        spec_single_key(single) != spec_key_prefix(t, s).add(payload),
{
    if spec_single_key(single) == spec_key_prefix(t, s).add(payload) {
        crate::keys::lemma_prefixed_key_injective(0, 0, u32_be(single), t, s, payload);
    }
}

} // verus!
