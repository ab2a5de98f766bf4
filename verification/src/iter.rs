//! Prefix iteration: walking every entry whose key starts with a given
//! byte prefix, in ascending key order, and decoding typed records from
//! the primary-index prefix of a table.

use vstd::prelude::*;

use crate::bytes::{is_prefix, lemma_lex_antisymmetric, lemma_lex_reflexive, lemma_lex_transitive,
    lemma_prefix_le, lemma_prefix_range, lemma_successor, lex_le, lex_lt, starts_with};
use crate::error::Error;
use crate::id::be16_val;
use crate::keys::{id_from_primary_key, key_prefix, spec_key_prefix};
use crate::store::{copy_bytes, Store};
use crate::table::{Table, WithId};

verus! {

/// Strict order then weak order compose to a strict one.
pub proof fn lemma_lex_lt_le(a: Seq<u8>, b: Seq<u8>, c: Seq<u8>)
    requires
        lex_lt(a, b),
        lex_le(b, c),
    ensures
        lex_lt(a, c),
{
    lemma_lex_transitive(a, b, c);
    if a == c {
        lemma_lex_antisymmetric(a, b);
    }
}

/// Walks the entries whose keys start with a fixed prefix, in ascending
/// key order, by repeated ordered seeks; it stops exactly at the prefix
/// boundary. Forward-only and not restartable once exhausted.
pub struct PrefixIterator<'a> {
    store: &'a Store,
    prefix: Vec<u8>,
    pos: Vec<u8>,
    done: bool,
}

impl<'a> PrefixIterator<'a> {
    /// The keyspace being walked.
    pub closed spec fn contents(self) -> Map<Seq<u8>, Seq<u8>> {
        (*self.store).contents()
    }

    /// The prefix every yielded key starts with.
    pub closed spec fn prefix_of(self) -> Seq<u8> {
        self.prefix@
    }

    /// The cursor: every key not yet yielded is at or after it.
    pub closed spec fn cursor(self) -> Seq<u8> {
        self.pos@
    }

    /// Whether the iterator has passed the prefix boundary.
    pub closed spec fn exhausted(self) -> bool {
        self.done
    }

    #[verifier::type_invariant]
    spec fn wf(self) -> bool {
        lex_le(self.prefix@, self.pos@) && (self.done ==> forall|k2: Seq<u8>|
            (*self.store).contents().dom().contains(k2) && is_prefix(self.prefix@, k2) ==> !lex_le(
                self.pos@,
                k2,
            ))
    }

    /// Starts a walk of every entry whose key starts with `prefix`.
    pub fn new(store: &'a Store, prefix: Vec<u8>) -> (it: PrefixIterator<'a>)
        ensures
            it.contents() == store.contents(),
            it.prefix_of() == prefix@,
            it.cursor() == prefix@,
            !it.exhausted(),
    {
        proof {
            lemma_lex_reflexive(prefix@);
        }
        let pos = copy_bytes(prefix.as_slice());
        PrefixIterator { store, prefix, pos, done: false }
    }

    /// The next entry with the prefix, in ascending key order; `None`
    /// once no such entry remains at or after the cursor.
    pub fn next(&mut self) -> (r: Option<(Vec<u8>, Vec<u8>)>)
        ensures
            final(self).contents() == old(self).contents(),
            final(self).prefix_of() == old(self).prefix_of(),
            match r {
                Some(kv) => {
                    let m = old(self).contents();
                    let p = old(self).prefix_of();
                    &&& m.dom().contains(kv.0@) && m[kv.0@] == kv.1@
                    &&& is_prefix(p, kv.0@)
                    &&& lex_le(old(self).cursor(), kv.0@)
                    &&& !old(self).exhausted() && !final(self).exhausted()
                    &&& final(self).cursor() == kv.0@.push(0u8)
                    &&& forall|k2: Seq<u8>|
                        m.dom().contains(k2) && is_prefix(p, k2) && lex_le(old(self).cursor(), k2)
                            ==> (k2 == kv.0@ || lex_le(final(self).cursor(), k2))
                },
                None => {
                    let m = old(self).contents();
                    let p = old(self).prefix_of();
                    &&& final(self).exhausted()
                    &&& forall|k2: Seq<u8>|
                        m.dom().contains(k2) && is_prefix(p, k2) ==> !lex_le(
                            old(self).cursor(),
                            k2,
                        )
                },
            },
    {
        proof {
            use_type_invariant(&*self);
        }
        if self.done {
            return None;
        }
        match self.store.first_at_or_after(self.pos.as_slice()) {
            None => {
                proof {
                    assert forall|k2: Seq<u8>|
                        (*self.store).contents().dom().contains(k2) && is_prefix(
                            self.prefix@,
                            k2,
                        ) implies !lex_le(self.pos@, k2) by {}
                }
                self.done = true;
                None
            },
            Some((k, v)) => {
                if starts_with(k.as_slice(), self.prefix.as_slice()) {
                    let mut np = copy_bytes(k.as_slice());
                    np.push(0u8);
                    proof {
                        lemma_prefix_le(self.prefix@, k@);
                        assert(is_prefix(self.prefix@, k@.push(0u8))) by {
                            assert(k@.push(0u8).subrange(0, self.prefix@.len() as int) =~= k@.subrange(
                                0,
                                self.prefix@.len() as int,
                            ));
                        }
                        lemma_prefix_le(self.prefix@, k@.push(0u8));
                    }
                    self.pos = np;
                    proof {
                        assert forall|k2: Seq<u8>|
                            old(self).contents().dom().contains(k2) && is_prefix(
                                old(self).prefix_of(),
                                k2,
                            ) && lex_le(old(self).cursor(), k2) implies (k2 == k@ || lex_le(
                            final(self).cursor(),
                            k2,
                        )) by {
                            if k2 != k@ {
                                assert(lex_le(k@, k2));
                                lemma_successor(k@, k2);
                            }
                        }
                    }
                    Some((k, v))
                } else {
                    proof {
                        assert forall|k2: Seq<u8>|
                            (*self.store).contents().dom().contains(k2) && is_prefix(
                                self.prefix@,
                                k2,
                            ) implies !lex_le(self.pos@, k2) by {
                            if lex_le(self.pos@, k2) {
                                assert(lex_le(k@, k2));
                                lemma_lex_transitive(self.prefix@, self.pos@, k@);
                                lemma_prefix_range(self.prefix@, k@, k2);
                            }
                        }
                    }
                    self.done = true;
                    None
                }
            },
        }
    }
}

/// Drains a prefix walk: every entry whose key starts with `prefix`,
/// in ascending key order, each exactly once.
pub fn collect_prefix(store: &Store, prefix: Vec<u8>) -> (r: Vec<(Vec<u8>, Vec<u8>)>)
    ensures
        ({
            let m = store.contents();
            let p = prefix@;
            &&& forall|i: int| #![trigger r@[i]]
                0 <= i < r@.len() ==> m.dom().contains(r@[i].0@) && m[r@[i].0@] == r@[i].1@
                    && is_prefix(p, r@[i].0@)
            &&& forall|i: int, j: int| 0 <= i < j < r@.len() ==> lex_lt(r@[i].0@, r@[j].0@)
            &&& forall|k: Seq<u8>|
                m.dom().contains(k) && is_prefix(p, k) ==> exists|i: int|
                    0 <= i < r@.len() && #[trigger] r@[i].0@ == k
        }),
{
    let ghost m = store.contents();
    let ghost p = prefix@;
    let mut it = PrefixIterator::new(store, prefix);
    let mut r: Vec<(Vec<u8>, Vec<u8>)> = Vec::new();
    proof {
        store.lemma_contents_finite();
        assert forall|k: Seq<u8>| m.dom().contains(k) && is_prefix(p, k) implies lex_le(
            it.cursor(),
            k,
        ) by {
            lemma_prefix_le(p, k);
        }
    }
    loop
        invariant
            m == store.contents(),
            p == prefix@,
            m.dom().finite(),
            it.contents() == m,
            it.prefix_of() == p,
            forall|i: int| #![trigger r@[i]]
                0 <= i < r@.len() ==> m.dom().contains(r@[i].0@) && m[r@[i].0@] == r@[i].1@
                    && is_prefix(p, r@[i].0@) && lex_lt(r@[i].0@, it.cursor()),
            forall|i: int, j: int| 0 <= i < j < r@.len() ==> lex_lt(r@[i].0@, r@[j].0@),
            forall|k: Seq<u8>|
                m.dom().contains(k) && is_prefix(p, k) ==> (exists|i: int|
                    0 <= i < r@.len() && #[trigger] r@[i].0@ == k) || lex_le(it.cursor(), k),
            !it.exhausted(),
        decreases m.dom().len() + 1 - r@.len(),
    {
        let ghost cursor0 = it.cursor();
        match it.next() {
            None => {
                proof {
                    assert forall|k: Seq<u8>| m.dom().contains(k) && is_prefix(p, k) implies exists|
                        i: int,
                    |
                        0 <= i < r@.len() && #[trigger] r@[i].0@ == k by {
                        assert(!lex_le(cursor0, k));
                    }
                }
                return r;
            },
            Some((k, v)) => {
                proof {
                    // The yielded key is new: everything collected sits
                    // strictly below the old cursor, and the key does not.
                    assert forall|i: int| 0 <= i < r@.len() implies lex_lt(#[trigger] r@[i].0@, k@) by {
                        lemma_lex_lt_le(r@[i].0@, cursor0, k@);
                    }
                    // The collected keys form a growing subset of the
                    // finite domain, so the loop terminates.
                    assert(forall|i: int| #![trigger r@.push((k, v))[i]]
                        0 <= i < r@.len() + 1 ==> r@.push((k, v))[i] == (if i < r@.len() {
                            r@[i]
                        } else {
                            (k, v)
                        }));
                    lemma_distinct_keys_bound(r@.push((k, v)), m.dom());
                }
                let ghost r0 = r@;
                r.push((k, v));
                proof {
                    assert(r@ == r0.push((k, v)));
                    assert forall|k2: Seq<u8>| m.dom().contains(k2) && is_prefix(p, k2) implies ((
                    exists|i: int| 0 <= i < r@.len() && #[trigger] r@[i].0@ == k2) || lex_le(
                        it.cursor(),
                        k2,
                    )) by {
                        if !lex_le(it.cursor(), k2) {
                            if lex_le(cursor0, k2) {
                                assert(k2 == k@);
                                assert(r@[r@.len() - 1].0@ == k2);
                            } else {
                                let i = choose|i: int| 0 <= i < r0.len() && #[trigger] r0[i].0@
                                    == k2;
                                assert(r@[i].0@ == k2);
                            }
                        }
                    }
                    assert forall|i: int| #![trigger r@[i]]
                        0 <= i < r@.len() implies m.dom().contains(r@[i].0@) && m[r@[i].0@]
                        == r@[i].1@ && is_prefix(p, r@[i].0@) && lex_lt(r@[i].0@, it.cursor()) by {
                        if i < r@.len() - 1 {
                            assert(lex_le(k@, it.cursor())) by {
                                assert(is_prefix(k@, k@.push(0u8))) by {
                                    assert(k@.push(0u8).subrange(0, k@.len() as int) =~= k@);
                                }
                                lemma_prefix_le(k@, k@.push(0u8));
                            }
                            lemma_lex_lt_le(r@[i].0@, k@, it.cursor());
                        } else {
                            assert(lex_lt(k@, k@.push(0u8))) by {
                                assert(is_prefix(k@, k@.push(0u8))) by {
                                    assert(k@.push(0u8).subrange(0, k@.len() as int) =~= k@);
                                }
                                lemma_prefix_le(k@, k@.push(0u8));
                            }
                        }
                    }
                }
            },
        }
    }
}

/// Strictly increasing keys in a finite domain bound the list's length.
proof fn lemma_distinct_keys_bound(s: Seq<(Vec<u8>, Vec<u8>)>, dom: Set<Seq<u8>>)
    requires
        dom.finite(),
        forall|i: int| #![trigger s[i]] 0 <= i < s.len() ==> dom.contains(s[i].0@),
        forall|i: int, j: int| 0 <= i < j < s.len() ==> lex_lt(s[i].0@, s[j].0@),
    ensures
        s.len() <= dom.len(),
    decreases s.len(),
{
    if s.len() > 0 {
        let last = s.last();
        assert(forall|i: int| #![trigger s.drop_last()[i]]
            0 <= i < s.len() - 1 ==> s.drop_last()[i] == s[i]);
        assert forall|i: int| #![trigger s.drop_last()[i]]
            0 <= i < s.drop_last().len() implies dom.remove(last.0@).contains(
            s.drop_last()[i].0@,
        ) by {
            assert(lex_lt(s[i].0@, last.0@));
        }
        lemma_distinct_keys_bound(s.drop_last(), dom.remove(last.0@));
    }
}

/// Decodes one scanned primary entry into a record with its identity.
pub fn decode_item<T: Table>(key: &[u8], value: &[u8]) -> (r: Result<WithId<T>, Error>)
    ensures
        match r {
            Ok(w) => key@.len() == 21 && w.id.0 == be16_val(key@.subrange(5, 21)) && (forall|v: T|
                value@ == v.spec_bytes() && v.spec_encodable() ==> w.value == v),
            Err(e) => (e == Error::MalformedKey <==> key@.len() != 21) && (e == Error::MalformedKey
                || e == Error::Encoding) && (e == Error::Encoding ==> forall|v: T|
                v.spec_encodable() ==> value@ != v.spec_bytes()),
        },
{
    let id = match id_from_primary_key(key) {
        Ok(id) => id,
        Err(e) => {
            return Err(e);
        },
    };
    match T::from_bytes(value) {
        Ok(value) => Ok(WithId { id, value }),
        Err(e) => Err(e),
    }
}

/// A lazy walk of a table's records in ascending identifier-byte order:
/// the primary-index prefix scanned and decoded one entry at a time.
pub struct Items<'a, T> {
    inner: PrefixIterator<'a>,
    _marker: core::marker::PhantomData<T>,
}

impl<'a, T: Table> Items<'a, T> {
    /// The keyspace being walked.
    pub closed spec fn contents(self) -> Map<Seq<u8>, Seq<u8>> {
        self.inner.contents()
    }

    /// The cursor within the primary-index prefix.
    pub closed spec fn cursor(self) -> Seq<u8> {
        self.inner.cursor()
    }

    /// Whether the walk has ended.
    pub closed spec fn exhausted(self) -> bool {
        self.inner.exhausted()
    }

    /// The primary-index prefix being walked.
    pub closed spec fn prefix_of(self) -> Seq<u8> {
        self.inner.prefix_of()
    }

    /// Whether the walk is over `store` with `T`'s primary prefix.
    pub open spec fn wf_for(self, store: Store) -> bool {
        self.contents() == store.contents() && self.prefix_of() == spec_key_prefix(
            T::spec_table(),
            0,
        )
    }

    pub(crate) fn new(store: &'a Store) -> (it: Items<'a, T>)
        ensures
            it.wf_for(*store),
            it.cursor() == spec_key_prefix(T::spec_table(), 0),
            !it.exhausted(),
    {
        let prefix = key_prefix(T::table(), 0);
        Items { inner: PrefixIterator::new(store, prefix), _marker: core::marker::PhantomData }
    }

    /// The next record in ascending primary-key order: `None` once the
    /// table's primary prefix is exhausted, an error for an entry whose
    /// key is malformed or whose value does not decode.
    pub fn next(&mut self) -> (r: Option<Result<WithId<T>, Error>>)
        ensures
            final(self).contents() == old(self).contents(),
            final(self).prefix_of() == old(self).prefix_of(),
            match r {
                Some(item) => {
                    let m = old(self).contents();
                    let p = old(self).prefix_of();
                    exists|k: Seq<u8>|
                        {
                            &&& m.dom().contains(k) && is_prefix(p, k)
                            &&& lex_le(old(self).cursor(), k)
                            &&& #[trigger] final(self).cursor() == k.push(0u8)
                            &&& (forall|k2: Seq<u8>|
                                m.dom().contains(k2) && is_prefix(p, k2) && lex_le(
                                    old(self).cursor(),
                                    k2,
                                ) ==> (k2 == k || lex_le(final(self).cursor(), k2)))
                            &&& match item {
                                Ok(w) => k.len() == 21 && w.id.0 == be16_val(k.subrange(5, 21))
                                    && (forall|v: T|
                                    m[k] == v.spec_bytes() && v.spec_encodable() ==> w.value == v),
                                Err(e) => (e == Error::MalformedKey <==> k.len() != 21) && (e
                                    == Error::MalformedKey || e == Error::Encoding) && (e
                                    == Error::Encoding ==> forall|v: T|
                                    v.spec_encodable() ==> m[k] != v.spec_bytes()),
                            }
                        }
                },
                None => {
                    let m = old(self).contents();
                    let p = old(self).prefix_of();
                    &&& final(self).exhausted()
                    &&& forall|k2: Seq<u8>|
                        m.dom().contains(k2) && is_prefix(p, k2) ==> !lex_le(
                            old(self).cursor(),
                            k2,
                        )
                },
            },
    {
        match self.inner.next() {
            None => None,
            Some((k, v)) => {
                let item = decode_item::<T>(k.as_slice(), v.as_slice());
                proof {
                    let gk = k@;
                    assert(final(self).cursor() == gk.push(0u8));
                }
                Some(item)
            },
        }
    }
}

} // verus!
