//! Byte-string comparison: the lexicographic order of the shared keyspace
//! and the prefix relation used by prefix scans.

use vstd::prelude::*;

verus! {

/// `p` is a prefix of `k`.
pub open spec fn is_prefix(p: Seq<u8>, k: Seq<u8>) -> bool {
    p.len() <= k.len() && k.subrange(0, p.len() as int) == p
}

/// Lexicographic order on byte strings, with a prefix ordered before
/// its extensions. This is the key order of the store.
pub open spec fn lex_le(a: Seq<u8>, b: Seq<u8>) -> bool
    decreases a.len(),
{
    if a.len() == 0 {
        true
    } else if b.len() == 0 {
        false
    } else if a[0] < b[0] {
        true
    } else if a[0] > b[0] {
        false
    } else {
        lex_le(a.skip(1), b.skip(1))
    }
}

pub open spec fn lex_lt(a: Seq<u8>, b: Seq<u8>) -> bool {
    lex_le(a, b) && a != b
}

pub proof fn lemma_lex_reflexive(a: Seq<u8>)
    ensures
        lex_le(a, a),
    decreases a.len(),
{
    if a.len() != 0 {
        lemma_lex_reflexive(a.skip(1));
    }
}

pub proof fn lemma_lex_total(a: Seq<u8>, b: Seq<u8>)
    ensures
        lex_le(a, b) || lex_le(b, a),
    decreases a.len(),
{
    if a.len() != 0 && b.len() != 0 && a[0] == b[0] {
        lemma_lex_total(a.skip(1), b.skip(1));
    }
}

pub proof fn lemma_lex_antisymmetric(a: Seq<u8>, b: Seq<u8>)
    requires
        lex_le(a, b),
        lex_le(b, a),
    ensures
        a == b,
    decreases a.len(),
{
    if a.len() != 0 && b.len() != 0 && a[0] == b[0] {
        lemma_lex_antisymmetric(a.skip(1), b.skip(1));
        assert(a =~= seq![a[0]].add(a.skip(1)));
        assert(b =~= seq![b[0]].add(b.skip(1)));
    } else if a.len() != 0 && b.len() == 0 {
        assert(!lex_le(a, b));
    }
}

pub proof fn lemma_lex_transitive(a: Seq<u8>, b: Seq<u8>, c: Seq<u8>)
    requires
        lex_le(a, b),
        lex_le(b, c),
    ensures
        lex_le(a, c),
    decreases a.len(),
{
    if a.len() != 0 && b.len() != 0 && c.len() != 0 {
        if a[0] == b[0] && b[0] == c[0] {
            lemma_lex_transitive(a.skip(1), b.skip(1), c.skip(1));
        }
    }
}

/// A prefix is ordered at or before everything it prefixes.
pub proof fn lemma_prefix_le(p: Seq<u8>, k: Seq<u8>)
    requires
        is_prefix(p, k),
    ensures
        lex_le(p, k),
    decreases p.len(),
{
    if p.len() != 0 {
        assert(k[0] == p[0]);
        assert(is_prefix(p.skip(1), k.skip(1))) by {
            assert(k.skip(1).subrange(0, p.len() - 1) =~= p.skip(1));
        }
        lemma_prefix_le(p.skip(1), k.skip(1));
    }
}

/// The keys sharing a prefix form a contiguous range of the key order:
/// anything between the prefix itself and a key carrying the prefix
/// carries the prefix too.
pub proof fn lemma_prefix_range(p: Seq<u8>, k: Seq<u8>, m: Seq<u8>)
    requires
        lex_le(p, k),
        lex_le(k, m),
        is_prefix(p, m),
    ensures
        is_prefix(p, k),
    decreases p.len(),
{
    if p.len() == 0 {
        assert(k.subrange(0, 0) =~= p);
    } else {
        assert(m[0] == p[0]);
        if k.len() == 0 {
            assert(!lex_le(p, k));
        } else {
            if k[0] < p[0] {
                assert(!lex_le(p, k));
            } else if k[0] > p[0] {
                assert(!lex_le(k, m));
            } else {
                assert(is_prefix(p.skip(1), m.skip(1))) by {
                    assert(m.skip(1).subrange(0, p.len() - 1) =~= p.skip(1));
                }
                lemma_prefix_range(p.skip(1), k.skip(1), m.skip(1));
                assert(k.subrange(0, p.len() as int) =~= seq![k[0]].add(
                    k.skip(1).subrange(0, p.len() - 1),
                ));
                assert(k.subrange(0, p.len() as int) =~= p);
            }
        }
    }
}

/// `k` followed by a zero byte is the immediate successor of `k`:
/// everything strictly above `k` is at or above it.
pub proof fn lemma_successor(k: Seq<u8>, m: Seq<u8>)
    requires
        lex_lt(k, m),
    ensures
        lex_le(k.push(0u8), m),
    decreases k.len(),
{
    if k.len() == 0 {
        if m.len() == 0 {
            assert(k =~= m);
        }
        assert(k.push(0u8) =~= seq![0u8]);
        assert(seq![0u8].skip(1).len() == 0);
        assert(lex_le(seq![0u8], m)) by {
            reveal_with_fuel(lex_le, 3);
        }
    } else {
        if m.len() == 0 {
            assert(!lex_le(k, m));
        }
        assert(k.push(0u8)[0] == k[0]);
        assert(k.push(0u8).len() != 0);
        if k[0] == m[0] {
            assert(k.skip(1) != m.skip(1)) by {
                if k.skip(1) == m.skip(1) {
                    assert(k =~= seq![k[0]].add(k.skip(1)));
                    assert(m =~= seq![m[0]].add(m.skip(1)));
                }
            }
            lemma_successor(k.skip(1), m.skip(1));
            assert(k.push(0u8).skip(1) =~= k.skip(1).push(0u8));
        }
    }
}

/// Appending to both sides of a shared prefix preserves the order.
pub proof fn lemma_lex_append(p: Seq<u8>, a: Seq<u8>, b: Seq<u8>)
    ensures
        lex_le(p.add(a), p.add(b)) == lex_le(a, b),
    decreases p.len(),
{
    if p.len() == 0 {
        assert(p.add(a) =~= a);
        assert(p.add(b) =~= b);
    } else {
        assert(p.add(a)[0] == p[0]);
        assert(p.add(b)[0] == p[0]);
        assert(p.add(a).skip(1) =~= p.skip(1).add(a));
        assert(p.add(b).skip(1) =~= p.skip(1).add(b));
        lemma_lex_append(p.skip(1), a, b);
    }
}

/// Dropping an equal count of leading bytes from both sides preserves
/// the order, when the dropped bytes agree.
pub proof fn lemma_lex_skip(a: Seq<u8>, b: Seq<u8>, n: int)
    requires
        0 <= n <= a.len(),
        n <= b.len(),
        forall|j: int| 0 <= j < n ==> a[j] == b[j],
    ensures
        lex_le(a, b) == lex_le(a.skip(n), b.skip(n)),
    decreases n,
{
    if n == 0 {
        assert(a.skip(0) =~= a);
        assert(b.skip(0) =~= b);
    } else {
        assert(a[0] == b[0]);
        assert(forall|j: int|
            0 <= j < n - 1 ==> #[trigger] a.skip(1)[j] == a.index(j + 1) && #[trigger] b.skip(1)[j]
                == b.index(j + 1));
        lemma_lex_skip(a.skip(1), b.skip(1), n - 1);
        assert(a.skip(1).skip(n - 1) =~= a.skip(n));
        assert(b.skip(1).skip(n - 1) =~= b.skip(n));
    }
}

/// A longer prefix carries every shorter one.
pub proof fn lemma_prefix_of_add(a: Seq<u8>, b: Seq<u8>, k: Seq<u8>)
    requires
        is_prefix(a.add(b), k),
    ensures
        is_prefix(a, k),
{
    assert(k.subrange(0, a.len() as int) =~= a) by {
        assert(forall|i: int|
            0 <= i < a.len() ==> k.subrange(0, a.len() as int + b.len() as int)[i] == #[trigger] k[i]);
        assert(forall|i: int| 0 <= i < a.len() ==> a.add(b)[i] == a[i]);
    }
}

/// Dropping a shared leading prefix preserves the prefix relation.
pub proof fn lemma_prefix_strip(p: Seq<u8>, a: Seq<u8>, b: Seq<u8>)
    ensures
        is_prefix(p.add(a), p.add(b)) == is_prefix(a, b),
{
    if is_prefix(p.add(a), p.add(b)) {
        assert(b.subrange(0, a.len() as int) =~= a) by {
            assert(forall|i: int|
                0 <= i < a.len() ==> p.add(b).subrange(0, p.len() as int + a.len() as int)[i + p.len()]
                    == #[trigger] p.add(b)[i + p.len()]);
            assert(forall|i: int| 0 <= i < a.len() ==> p.add(a)[i + p.len()] == a[i]);
            assert(forall|i: int| 0 <= i < b.len() ==> p.add(b)[i + p.len()] == b[i]);
        }
    }
    if is_prefix(a, b) {
        assert(p.add(b).subrange(0, p.len() as int + a.len() as int) =~= p.add(a)) by {
            assert(forall|i: int| 0 <= i < b.len() ==> p.add(b)[i + p.len()] == #[trigger] b[i]);
            assert(forall|i: int| 0 <= i < a.len() ==> b.subrange(0, a.len() as int)[i] == b[i]);
        }
    }
}

/// Whether `a` and `b` hold the same bytes.
pub fn bytes_eq(a: &[u8], b: &[u8]) -> (r: bool)
    ensures
        r == (a@ == b@),
{
    if a.len() != b.len() {
        assert(a@ != b@);
        return false;
    }
    let mut i: usize = 0;
    while i < a.len()
        invariant
            i <= a.len(),
            a@.len() == b@.len(),
            forall|j: int| 0 <= j < i ==> a@[j] == b@[j],
        decreases a.len() - i,
    {
        if a[i] != b[i] {
            return false;
        }
        i += 1;
    }
    assert(a@ =~= b@);
    true
}

/// Whether `k` starts with the bytes of `p`.
pub fn starts_with(k: &[u8], p: &[u8]) -> (r: bool)
    ensures
        r == is_prefix(p@, k@),
{
    if p.len() > k.len() {
        return false;
    }
    let mut i: usize = 0;
    while i < p.len()
        invariant
            i <= p.len(),
            p@.len() <= k@.len(),
            forall|j: int| 0 <= j < i ==> k@[j] == p@[j],
        decreases p.len() - i,
    {
        if k[i] != p[i] {
            assert(k@.subrange(0, p@.len() as int)[i as int] != p@[i as int]);
            return false;
        }
        i += 1;
    }
    assert(k@.subrange(0, p@.len() as int) =~= p@);
    true
}

/// Three-way test `a <= b` in the key order.
pub fn lex_leq(a: &[u8], b: &[u8]) -> (r: bool)
    ensures
        r == lex_le(a@, b@),
{
    let mut i: usize = 0;
    let min: usize = if a.len() < b.len() {
        a.len()
    } else {
        b.len()
    };
    while i < min
        invariant
            i <= min,
            min == if a@.len() < b@.len() {
                a@.len()
            } else {
                b@.len()
            },
            forall|j: int| 0 <= j < i ==> a@[j] == b@[j],
        decreases min - i,
    {
        if a[i] < b[i] {
            proof {
                lemma_lex_skip(a@, b@, i as int);
            }
            return true;
        }
        if a[i] > b[i] {
            proof {
                lemma_lex_skip(a@, b@, i as int);
            }
            return false;
        }
        i += 1;
    }
    proof {
        lemma_lex_skip(a@, b@, min as int);
    }
    a.len() <= b.len()
}

} // verus!
