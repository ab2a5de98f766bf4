//! The underlying key-value store: a flat, ordered byte keyspace with
//! point reads, point writes, batched reads, atomic batched writes and
//! ordered seeks.
//!
//! This backend keeps the keyspace in memory. Its contract is the one
//! the indexing layer needs of any such engine: a finite map from byte
//! keys to byte values, an atomic batch that applies all its operations
//! or none, and a seek that answers the least key at or after a bound
//! in lexicographic key order.

use vstd::prelude::*;

use crate::bytes::{bytes_eq, lemma_lex_reflexive, lemma_lex_total, lemma_lex_transitive,
    lex_le, lex_leq};

verus! {

/// One pending operation of an atomic batch.
pub enum BatchOp {
    Put(Vec<u8>, Vec<u8>),
    Delete(Vec<u8>),
}

/// The specification-level form of a pending operation.
pub enum OpView {
    Put(Seq<u8>, Seq<u8>),
    Delete(Seq<u8>),
}

impl View for BatchOp {
    type V = OpView;

    open spec fn view(&self) -> OpView {
        match self {
            BatchOp::Put(k, v) => OpView::Put(k@, v@),
            BatchOp::Delete(k) => OpView::Delete(k@),
        }
    }
}

/// The key an operation touches.
pub open spec fn op_key(op: OpView) -> Seq<u8> {
    match op {
        OpView::Put(k, _) => k,
        OpView::Delete(k) => k,
    }
}

/// One operation applied to a keyspace.
pub open spec fn apply_op(m: Map<Seq<u8>, Seq<u8>>, op: OpView) -> Map<Seq<u8>, Seq<u8>> {
    match op {
        OpView::Put(k, v) => m.insert(k, v),
        OpView::Delete(k) => m.remove(k),
    }
}

/// The keyspace reached by applying the operations in order.
pub open spec fn apply_ops(m: Map<Seq<u8>, Seq<u8>>, ops: Seq<OpView>) -> Map<Seq<u8>, Seq<u8>>
    decreases ops.len(),
{
    if ops.len() == 0 {
        m
    } else {
        apply_op(apply_ops(m, ops.drop_last()), ops.last())
    }
}

/// What a list of operations makes of one key: untouched (`None`),
/// deleted (`Some(None)`) or set (`Some(Some(v))`). The last operation
/// on the key wins.
pub open spec fn ops_effect(ops: Seq<OpView>, k: Seq<u8>) -> Option<Option<Seq<u8>>>
    decreases ops.len(),
{
    if ops.len() == 0 {
        None
    } else if op_key(ops.last()) == k {
        match ops.last() {
            OpView::Put(_, v) => Some(Some(v)),
            OpView::Delete(_) => Some(None),
        }
    } else {
        ops_effect(ops.drop_last(), k)
    }
}

/// Reads `apply_ops` pointwise through `ops_effect`.
pub proof fn lemma_apply_ops_at(m: Map<Seq<u8>, Seq<u8>>, ops: Seq<OpView>, k: Seq<u8>)
    ensures
        match ops_effect(ops, k) {
            Option::None => apply_ops(m, ops).dom().contains(k) == m.dom().contains(k) && (
            m.dom().contains(k) ==> apply_ops(m, ops)[k] == m[k]),
            Option::Some(e) => match e {
                Option::None => !apply_ops(m, ops).dom().contains(k),
                Option::Some(v) => apply_ops(m, ops).dom().contains(k) && apply_ops(m, ops)[k]
                    == v,
            },
        },
    decreases ops.len(),
{
    if ops.len() > 0 {
        lemma_apply_ops_at(m, ops.drop_last(), k);
    }
}

/// An atomic batch of write operations, committed by [`Store::write`].
pub struct Batch {
    ops: Vec<BatchOp>,
}

impl View for Batch {
    type V = Seq<OpView>;

    closed spec fn view(&self) -> Seq<OpView> {
        self.ops@.map_values(|op: BatchOp| op@)
    }
}

impl Batch {
    /// An empty batch.
    pub fn new() -> (b: Batch)
        ensures
            b@ == Seq::<OpView>::empty(),
    {
        let b = Batch { ops: Vec::new() };
        proof {
            assert(b@ =~= Seq::<OpView>::empty());
        }
        b
    }

    /// Queues an insertion.
    pub fn put(&mut self, key: Vec<u8>, value: Vec<u8>)
        ensures
            final(self)@ == old(self)@.push(OpView::Put(key@, value@)),
    {
        self.ops.push(BatchOp::Put(key, value));
        proof {
            assert(final(self)@ =~= old(self)@.push(OpView::Put(key@, value@)));
        }
    }

    /// Queues a removal.
    pub fn delete(&mut self, key: Vec<u8>)
        ensures
            final(self)@ == old(self)@.push(OpView::Delete(key@)),
    {
        self.ops.push(BatchOp::Delete(key));
        proof {
            assert(final(self)@ =~= old(self)@.push(OpView::Delete(key@)));
        }
    }
}

/// Copies a byte vector.
pub(crate) fn copy_bytes(v: &[u8]) -> (r: Vec<u8>)
    ensures
        r@ == v@,
{
    vstd::slice::slice_to_vec(v)
}

spec fn keys_distinct(s: Seq<(Vec<u8>, Vec<u8>)>) -> bool {
    forall|i: int, j: int| 0 <= i < j < s.len() ==> s[i].0@ != s[j].0@
}

spec fn kv_map(s: Seq<(Vec<u8>, Vec<u8>)>) -> Map<Seq<u8>, Seq<u8>>
    decreases s.len(),
{
    if s.len() == 0 {
        Map::empty()
    } else {
        kv_map(s.drop_last()).insert(s.last().0@, s.last().1@)
    }
}

proof fn lemma_kv_map_contains(s: Seq<(Vec<u8>, Vec<u8>)>, k: Seq<u8>)
    ensures
        kv_map(s).dom().contains(k) <==> exists|i: int| 0 <= i < s.len() && s[i].0@ == k,
    decreases s.len(),
{
    if s.len() > 0 {
        lemma_kv_map_contains(s.drop_last(), k);
        if s.last().0@ == k {
            assert(s[s.len() - 1].0@ == k);
        } else if kv_map(s).dom().contains(k) {
            let i = choose|i: int| 0 <= i < s.len() - 1 && s.drop_last()[i].0@ == k;
            assert(s[i].0@ == k);
        } else if exists|i: int| 0 <= i < s.len() && s[i].0@ == k {
            let i = choose|i: int| 0 <= i < s.len() && s[i].0@ == k;
            assert(s.drop_last()[i].0@ == k);
        }
    }
}

proof fn lemma_kv_map_value(s: Seq<(Vec<u8>, Vec<u8>)>, i: int)
    requires
        keys_distinct(s),
        0 <= i < s.len(),
    ensures
        kv_map(s).dom().contains(s[i].0@),
        kv_map(s)[s[i].0@] == s[i].1@,
    decreases s.len(),
{
    if i == s.len() - 1 {
    } else {
        assert(keys_distinct(s.drop_last())) by {
            assert(forall|x: int, y: int|
                0 <= x < y < s.len() - 1 ==> s.drop_last()[x].0@ == s[x].0@
                    && s.drop_last()[y].0@ == s[y].0@);
        }
        assert(s.drop_last()[i].0@ == s[i].0@ && s.drop_last()[i].1@ == s[i].1@);
        lemma_kv_map_value(s.drop_last(), i);
        assert(s.last().0@ != s[i].0@);
    }
}

fn find_in(entries: &Vec<(Vec<u8>, Vec<u8>)>, key: &[u8]) -> (r: Option<usize>)
    ensures
        match r {
            Some(i) => i < entries@.len() && entries@[i as int].0@ == key@,
            None => forall|j: int| 0 <= j < entries@.len() ==> entries@[j].0@ != key@,
        },
{
    let mut i: usize = 0;
    while i < entries.len()
        invariant
            i <= entries@.len(),
            forall|j: int| 0 <= j < i ==> entries@[j].0@ != key@,
        decreases entries@.len() - i,
    {
        if bytes_eq(entries[i].0.as_slice(), key) {
            return Some(i);
        }
        i += 1;
    }
    None
}

proof fn lemma_kv_map_finite(s: Seq<(Vec<u8>, Vec<u8>)>)
    ensures
        kv_map(s).dom().finite(),
    decreases s.len(),
{
    if s.len() > 0 {
        lemma_kv_map_finite(s.drop_last());
    }
}

/// The key-value store.
pub struct Store {
    entries: Vec<(Vec<u8>, Vec<u8>)>,
}

impl Store {
    /// The stored contents: a finite map from byte keys to byte values.
    pub closed spec fn contents(self) -> Map<Seq<u8>, Seq<u8>> {
        kv_map(self.entries@)
    }

    #[verifier::type_invariant]
    spec fn wf(self) -> bool {
        keys_distinct(self.entries@)
    }

    /// The contents are a finite map.
    pub proof fn lemma_contents_finite(self)
        ensures
            self.contents().dom().finite(),
    {
        lemma_kv_map_finite(self.entries@);
    }

    /// An empty store.
    pub fn new() -> (s: Store)
        ensures
            s.contents() == Map::<Seq<u8>, Seq<u8>>::empty(),
    {
        Store { entries: Vec::new() }
    }

    fn find(&self, key: &[u8]) -> (r: Option<usize>)
        ensures
            match r {
                Some(i) => i < self.entries@.len() && self.entries@[i as int].0@ == key@,
                None => forall|j: int| 0 <= j < self.entries@.len() ==> self.entries@[j].0@ != key@,
            },
    {
        find_in(&self.entries, key)
    }

    /// Point read: the value stored under `key`, if any.
    pub fn get(&self, key: &[u8]) -> (r: Option<&Vec<u8>>)
        ensures
            match r {
                Some(v) => self.contents().dom().contains(key@) && v@ == self.contents()[key@],
                None => !self.contents().dom().contains(key@),
            },
    {
        proof {
            use_type_invariant(&*self);
        }
        match self.find(key) {
            Some(i) => {
                proof {
                    lemma_kv_map_value(self.entries@, i as int);
                }
                Some(&self.entries[i].1)
            },
            None => {
                proof {
                    lemma_kv_map_contains(self.entries@, key@);
                }
                None
            },
        }
    }

    /// Batched point read: one answer per requested key, in order.
    pub fn multi_get(&self, keys: &Vec<Vec<u8>>) -> (r: Vec<Option<Vec<u8>>>)
        ensures
            r@.len() == keys@.len(),
            forall|i: int| #![trigger r@[i]]
                0 <= i < keys@.len() ==> match r@[i] {
                    Some(v) => self.contents().dom().contains(keys@[i]@) && v@
                        == self.contents().index(keys@[i]@),
                    None => !self.contents().dom().contains(keys@[i]@),
                },
    {
        let mut r: Vec<Option<Vec<u8>>> = Vec::new();
        let mut i: usize = 0;
        while i < keys.len()
            invariant
                i <= keys@.len(),
                r@.len() == i,
                forall|j: int| #![trigger r@[j]]
                    0 <= j < i ==> match r@[j] {
                        Some(v) => self.contents().dom().contains(keys@[j]@) && v@
                            == self.contents().index(keys@[j]@),
                        None => !self.contents().dom().contains(keys@[j]@),
                    },
            decreases keys@.len() - i,
        {
            match self.get(keys[i].as_slice()) {
                Some(v) => r.push(Some(copy_bytes(v.as_slice()))),
                None => r.push(None),
            }
            i += 1;
        }
        r
    }

    /// Point write: stores `value` under `key`, replacing any previous
    /// value.
    pub fn put(&mut self, key: Vec<u8>, value: Vec<u8>)
        ensures
            final(self).contents() == old(self).contents().insert(key@, value@),
    {
        proof {
            use_type_invariant(&*self);
        }
        let mut es: Vec<(Vec<u8>, Vec<u8>)> = Vec::new();
        core::mem::swap(&mut es, &mut self.entries);
        let ghost s0 = es@;
        match find_in(&es, key.as_slice()) {
            Some(i) => {
                let _ = es.remove(i);
                proof {
                    lemma_remove_entry(s0, i as int);
                }
            },
            None => {},
        }
        let ghost s1 = es@;
        es.push((key, value));
        proof {
            assert(es@.drop_last() =~= s1);
            lemma_kv_map_contains(s1, key@);
            assert(keys_distinct(es@)) by {
                assert(forall|x: int|
                    0 <= x < s1.len() ==> es@[x].0@ == s1[x].0@ && s1[x].0@ != key@);
            }
            assert(kv_map(es@) =~= kv_map(s0).insert(key@, value@));
        }
        self.entries = es;
    }

    /// Point removal: drops the entry under `key`, if any.
    pub fn delete(&mut self, key: &[u8])
        ensures
            final(self).contents() == old(self).contents().remove(key@),
    {
        proof {
            use_type_invariant(&*self);
        }
        let mut es: Vec<(Vec<u8>, Vec<u8>)> = Vec::new();
        core::mem::swap(&mut es, &mut self.entries);
        let ghost s0 = es@;
        match find_in(&es, key) {
            Some(i) => {
                let _ = es.remove(i);
                proof {
                    lemma_remove_entry(s0, i as int);
                }
            },
            None => {
                proof {
                    lemma_kv_map_contains(s0, key@);
                    assert(kv_map(es@) =~= kv_map(s0).remove(key@));
                }
            },
        }
        self.entries = es;
    }

    /// Commits an atomic batch: the keyspace moves to the batch applied
    /// in full, as a unit.
    pub fn write(&mut self, batch: Batch)
        ensures
            final(self).contents() == apply_ops(old(self).contents(), batch@),
    {
        let ghost m0 = self.contents();
        let ghost opsv = batch@;
        let Batch { ops } = batch;
        let mut i: usize = 0;
        while i < ops.len()
            invariant
                i <= ops@.len(),
                opsv == ops@.map_values(|op: BatchOp| op@),
                opsv.len() == ops@.len(),
                self.contents() == apply_ops(m0, opsv.take(i as int)),
            decreases ops@.len() - i,
        {
            proof {
                assert(opsv.take(i + 1).drop_last() =~= opsv.take(i as int));
                assert(opsv.take(i + 1).last() == opsv[i as int]);
            }
            match &ops[i] {
                BatchOp::Put(k, v) => {
                    self.put(copy_bytes(k.as_slice()), copy_bytes(v.as_slice()));
                },
                BatchOp::Delete(k) => {
                    let kc = copy_bytes(k.as_slice());
                    self.delete(kc.as_slice());
                },
            }
            i += 1;
        }
        proof {
            assert(opsv.take(opsv.len() as int) =~= opsv);
        }
    }

    /// Ordered seek: the entry with the least key at or after `from`
    /// in lexicographic key order, if any.
    pub fn first_at_or_after(&self, from: &[u8]) -> (r: Option<(Vec<u8>, Vec<u8>)>)
        ensures
            match r {
                Some(kv) => self.contents().dom().contains(kv.0@) && self.contents()[kv.0@]
                    == kv.1@ && lex_le(from@, kv.0@) && forall|k2: Seq<u8>|
                    self.contents().dom().contains(k2) && lex_le(from@, k2) ==> lex_le(kv.0@, k2),
                None => forall|k2: Seq<u8>| self.contents().dom().contains(k2) ==> !lex_le(
                    from@,
                    k2,
                ),
            },
    {
        proof {
            use_type_invariant(&*self);
        }
        let mut best: Option<usize> = None;
        let mut i: usize = 0;
        while i < self.entries.len()
            invariant
                i <= self.entries@.len(),
                match best {
                    Some(b) => b < i && lex_le(from@, self.entries@[b as int].0@) && forall|j: int|
                        0 <= j < i && lex_le(from@, self.entries@[j].0@) ==> lex_le(
                            self.entries@[b as int].0@,
                            self.entries@[j].0@,
                        ),
                    None => forall|j: int| 0 <= j < i ==> !lex_le(from@, self.entries@[j].0@),
                },
            decreases self.entries@.len() - i,
        {
            let cand = self.entries[i].0.as_slice();
            if lex_leq(from, cand) {
                match best {
                    Some(b) => {
                        let cur = self.entries[b].0.as_slice();
                        if lex_leq(cand, cur) {
                            proof {
                                lemma_better_candidate(
                                    self.entries@,
                                    from@,
                                    b as int,
                                    i as int,
                                );
                            }
                            best = Some(i);
                        } else {
                            proof {
                                lemma_lex_total(cand@, cur@);
                                assert(lex_le(
                                    self.entries@[b as int].0@,
                                    self.entries@[i as int].0@,
                                ));
                            }
                        }
                    },
                    None => {
                        proof {
                            lemma_lex_reflexive(cand@);
                        }
                        best = Some(i);
                    },
                }
            }
            i += 1;
        }
        match best {
            Some(b) => {
                proof {
                    lemma_kv_map_value(self.entries@, b as int);
                }
                let k = copy_bytes(self.entries[b].0.as_slice());
                let v = copy_bytes(self.entries[b].1.as_slice());
                proof {
                    assert forall|k2: Seq<u8>|
                        self.contents().dom().contains(k2) && lex_le(from@, k2) implies lex_le(
                        k@,
                        k2,
                    ) by {
                        lemma_kv_map_contains(self.entries@, k2);
                        let j = choose|j: int|
                            0 <= j < self.entries@.len() && self.entries@[j].0@ == k2;
                        assert(lex_le(self.entries@[b as int].0@, self.entries@[j].0@));
                    }
                }
                Some((k, v))
            },
            None => {
                proof {
                    assert forall|k2: Seq<u8>| self.contents().dom().contains(k2) implies !lex_le(
                        from@,
                        k2,
                    ) by {
                        lemma_kv_map_contains(self.entries@, k2);
                        let j = choose|j: int|
                            0 <= j < self.entries@.len() && self.entries@[j].0@ == k2;
                    }
                }
                None
            },
        }
    }
}

/// Removing the only entry holding a key removes that key from the map.
proof fn lemma_remove_entry(s: Seq<(Vec<u8>, Vec<u8>)>, i: int)
    requires
        keys_distinct(s),
        0 <= i < s.len(),
    ensures
        keys_distinct(s.remove(i)),
        kv_map(s.remove(i)) == kv_map(s).remove(s[i].0@),
{
    let t = s.remove(i);
    assert(keys_distinct(t)) by {
        assert(forall|x: int|
            0 <= x < t.len() ==> #[trigger] t[x] == (if x < i {
                s[x]
            } else {
                s[x + 1]
            }));
    }
    assert(kv_map(t) =~= kv_map(s).remove(s[i].0@)) by {
        assert forall|k: Seq<u8>| #[trigger]
            kv_map(t).dom().contains(k) == kv_map(s).remove(s[i].0@).dom().contains(k) && (kv_map(
            t,
        ).dom().contains(k) ==> kv_map(t)[k] == kv_map(s).remove(s[i].0@)[k]) by {
            lemma_kv_map_contains(t, k);
            lemma_kv_map_contains(s, k);
            if kv_map(t).dom().contains(k) {
                let x = choose|x: int| 0 <= x < t.len() && t[x].0@ == k;
                let y: int = if x < i {
                    x
                } else {
                    x + 1
                };
                assert(s[y] == t[x]);
                lemma_kv_map_value(t, x);
                lemma_kv_map_value(s, y);
                assert(k != s[i].0@);
            } else {
                if k != s[i].0@ && kv_map(s).dom().contains(k) {
                    let y = choose|y: int| 0 <= y < s.len() && s[y].0@ == k;
                    let x: int = if y < i {
                        y
                    } else {
                        y - 1
                    };
                    assert(t[x] == s[y]);
                    assert(kv_map(t).dom().contains(k));
                }
            }
        }
    }
}

proof fn lemma_better_candidate(s: Seq<(Vec<u8>, Vec<u8>)>, from: Seq<u8>, b: int, i: int)
    requires
        0 <= b < s.len(),
        0 <= i < s.len(),
        lex_le(from, s[i].0@),
        lex_le(s[i].0@, s[b].0@),
        forall|j: int| 0 <= j < i && lex_le(from, s[j].0@) ==> lex_le(s[b].0@, s[j].0@),
    ensures
        forall|j: int| 0 <= j < i + 1 && lex_le(from, s[j].0@) ==> lex_le(s[i].0@, s[j].0@),
{
    assert forall|j: int| 0 <= j < i + 1 && lex_le(from, s[j].0@) implies lex_le(
        s[i].0@,
        s[j].0@,
    ) by {
        if j < i {
            lemma_lex_transitive(s[i].0@, s[b].0@, s[j].0@);
        } else {
            lemma_lex_reflexive(s[i].0@);
        }
    }
}

} // verus!
