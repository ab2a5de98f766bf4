//! Tables of records: the CRUD and index-maintenance protocol.
//!
//! A record type declares its capability contract by implementing
//! [`Table`]: a table identifier, the declared unique and non-unique
//! index slots, the byte value it produces for each slot, and its
//! serialized form. The provided operations encode keys, batch writes
//! and keep primary and index entries consistent; they never see
//! concrete field names.

use vstd::prelude::*;

use crate::bytes::{is_prefix, lex_lt};
use crate::error::Error;
use crate::id::{be16_val, fresh_id, u128_be, Id};
use crate::keys::{key_prefix, lemma_prefixed_key_injective, lemma_region_prefix, non_unique_key,
    non_unique_prefix, primary_key, spec_key_prefix, spec_non_unique_key, spec_non_unique_prefix,
    spec_primary_key, spec_unique_key, unique_key};
use crate::store::{apply_ops, lemma_apply_ops_at, ops_effect, Batch, OpView, Store};

verus! {

/// A record paired with its identifier, as every read returns it.
#[derive(Debug)]
pub struct WithId<T> {
    /// The identifier of the entry.
    pub id: Id,
    /// The value of the entry.
    pub value: T,
}

/// The declared schema of `T` is valid: a nonzero table identifier,
/// unique slots within 1..=126, non-unique slots within 128..=253, and
/// no slot declared twice. Slot 0 is reserved for the primary index.
pub open spec fn spec_valid_schema<T: Table>() -> bool {
    &&& T::spec_table() != 0
    &&& forall|i: int|
        0 <= i < T::spec_unique_slots().len() ==> 1 <= #[trigger] T::spec_unique_slots()[i] <= 126
    &&& forall|i: int, j: int|
        0 <= i < j < T::spec_unique_slots().len() ==> T::spec_unique_slots()[i]
            != T::spec_unique_slots()[j]
    &&& forall|i: int|
        0 <= i < T::spec_non_unique_slots().len() ==> 128 <= #[trigger] T::spec_non_unique_slots()[i]
            <= 253
    &&& forall|i: int, j: int|
        0 <= i < j < T::spec_non_unique_slots().len() ==> T::spec_non_unique_slots()[i]
            != T::spec_non_unique_slots()[j]
}

/// Some declared unique slot of `r` already has an entry in the store.
pub open spec fn unique_conflict<T: Table>(m: Map<Seq<u8>, Seq<u8>>, r: T) -> bool {
    exists|i: int|
        0 <= i < T::spec_unique_slots().len() && m.dom().contains(
            spec_unique_key(
                T::spec_table(),
                #[trigger] T::spec_unique_slots()[i],
                r.spec_unique_value(T::spec_unique_slots()[i]),
            ),
        )
}

/// Some declared unique slot of `r` has an entry in the store that is
/// not owned by record `id`.
pub open spec fn unique_conflict_other<T: Table>(
    m: Map<Seq<u8>, Seq<u8>>,
    r: T,
    id: u128,
) -> bool {
    exists|i: int|
        0 <= i < T::spec_unique_slots().len() && {
            let k = spec_unique_key(
                T::spec_table(),
                #[trigger] T::spec_unique_slots()[i],
                r.spec_unique_value(T::spec_unique_slots()[i]),
            );
            m.dom().contains(k) && m[k] != u128_be(id)
        }
}

/// The unique-index insertions of a create: one entry per declared
/// unique slot, mapping the record's value to its identifier.
pub open spec fn unique_put_ops<T: Table>(r: T, id: u128, n: int) -> Seq<OpView>
    decreases n,
{
    if n <= 0 {
        Seq::empty()
    } else {
        let s = T::spec_unique_slots()[n - 1];
        unique_put_ops(r, id, n - 1).push(
            OpView::Put(
                spec_unique_key(T::spec_table(), s, r.spec_unique_value(s)),
                u128_be(id),
            ),
        )
    }
}

/// The non-unique-index insertions of a create: one entry per declared
/// non-unique slot; the key itself carries the identifier and the
/// stored value is empty.
pub open spec fn non_unique_put_ops<T: Table>(r: T, id: u128, n: int) -> Seq<OpView>
    decreases n,
{
    if n <= 0 {
        Seq::empty()
    } else {
        let s = T::spec_non_unique_slots()[n - 1];
        non_unique_put_ops(r, id, n - 1).push(
            OpView::Put(
                spec_non_unique_key(T::spec_table(), s, r.spec_non_unique_value(s), id),
                Seq::empty(),
            ),
        )
    }
}

/// The full atomic batch of a create: the primary entry followed by
/// every declared index entry.
pub open spec fn create_ops<T: Table>(r: T, id: u128) -> Seq<OpView> {
    seq![OpView::Put(spec_primary_key(T::spec_table(), id), r.spec_bytes())].add(
        unique_put_ops(r, id, T::spec_unique_slots().len() as int),
    ).add(non_unique_put_ops(r, id, T::spec_non_unique_slots().len() as int))
}

/// Later operations shadow earlier ones key by key.
pub proof fn lemma_ops_effect_add(a: Seq<OpView>, b: Seq<OpView>, k: Seq<u8>)
    ensures
        ops_effect(a.add(b), k) == (match ops_effect(b, k) {
            Some(e) => Some(e),
            None => ops_effect(a, k),
        }),
    decreases b.len(),
{
    if b.len() == 0 {
        assert(a.add(b) =~= a);
    } else {
        assert(a.add(b).drop_last() =~= a.add(b.drop_last()));
        assert(a.add(b).last() == b.last());
        lemma_ops_effect_add(a, b.drop_last(), k);
    }
}

/// What the unique-index insertions make of key `k`.
proof fn lemma_unique_put_ops_effect<T: Table>(r: T, id: u128, n: int, k: Seq<u8>)
    requires
        n <= T::spec_unique_slots().len(),
    ensures
        ops_effect(unique_put_ops::<T>(r, id, n), k) == (if exists|i: int|
            0 <= i < n && k == spec_unique_key(
                T::spec_table(),
                #[trigger] T::spec_unique_slots()[i],
                r.spec_unique_value(T::spec_unique_slots()[i]),
            ) {
            Some(Some(u128_be(id)))
        } else {
            None::<Option<Seq<u8>>>
        }),
    decreases n,
{
    if n <= 0 {
        assert(ops_effect(unique_put_ops::<T>(r, id, n), k) == None::<Option<Seq<u8>>>);
    } else {
        let ops = unique_put_ops::<T>(r, id, n);
        let rest = unique_put_ops::<T>(r, id, n - 1);
        let s = T::spec_unique_slots()[n - 1];
        let opk = spec_unique_key(T::spec_table(), s, r.spec_unique_value(s));
        assert(ops.drop_last() =~= rest);
        assert(ops.last() == OpView::Put(opk, u128_be(id)));
        lemma_unique_put_ops_effect::<T>(r, id, n - 1, k);
        if k == opk {
            assert(0 <= n - 1 < n && k == spec_unique_key(
                T::spec_table(),
                T::spec_unique_slots()[n - 1],
                r.spec_unique_value(T::spec_unique_slots()[n - 1]),
            ));
        } else {
            if exists|i: int|
                0 <= i < n && k == spec_unique_key(
                    T::spec_table(),
                    #[trigger] T::spec_unique_slots()[i],
                    r.spec_unique_value(T::spec_unique_slots()[i]),
                ) {
                let i = choose|i: int|
                    0 <= i < n && k == spec_unique_key(
                        T::spec_table(),
                        #[trigger] T::spec_unique_slots()[i],
                        r.spec_unique_value(T::spec_unique_slots()[i]),
                    );
                assert(i < n - 1);
            }
        }
    }
}

/// What the non-unique-index insertions make of key `k`.
proof fn lemma_non_unique_put_ops_effect<T: Table>(r: T, id: u128, n: int, k: Seq<u8>)
    requires
        n <= T::spec_non_unique_slots().len(),
    ensures
        ops_effect(non_unique_put_ops::<T>(r, id, n), k) == (if exists|i: int|
            0 <= i < n && k == spec_non_unique_key(
                T::spec_table(),
                #[trigger] T::spec_non_unique_slots()[i],
                r.spec_non_unique_value(T::spec_non_unique_slots()[i]),
                id,
            ) {
            Some(Some(Seq::<u8>::empty()))
        } else {
            None::<Option<Seq<u8>>>
        }),
    decreases n,
{
    if n <= 0 {
        assert(ops_effect(non_unique_put_ops::<T>(r, id, n), k) == None::<Option<Seq<u8>>>);
    } else {
        let ops = non_unique_put_ops::<T>(r, id, n);
        let rest = non_unique_put_ops::<T>(r, id, n - 1);
        let s = T::spec_non_unique_slots()[n - 1];
        let opk = spec_non_unique_key(T::spec_table(), s, r.spec_non_unique_value(s), id);
        assert(ops.drop_last() =~= rest);
        assert(ops.last() == OpView::Put(opk, Seq::<u8>::empty()));
        lemma_non_unique_put_ops_effect::<T>(r, id, n - 1, k);
        if k == opk {
            assert(0 <= n - 1 < n && k == spec_non_unique_key(
                T::spec_table(),
                T::spec_non_unique_slots()[n - 1],
                r.spec_non_unique_value(T::spec_non_unique_slots()[n - 1]),
                id,
            ));
        } else {
            if exists|i: int|
                0 <= i < n && k == spec_non_unique_key(
                    T::spec_table(),
                    #[trigger] T::spec_non_unique_slots()[i],
                    r.spec_non_unique_value(T::spec_non_unique_slots()[i]),
                    id,
                ) {
                let i = choose|i: int|
                    0 <= i < n && k == spec_non_unique_key(
                        T::spec_table(),
                        #[trigger] T::spec_non_unique_slots()[i],
                        r.spec_non_unique_value(T::spec_non_unique_slots()[i]),
                        id,
                    );
                assert(i < n - 1);
            }
        }
    }
}

/// What a create makes of each key: the primary key now holds the
/// serialized record, each declared index key its entry, and every
/// other key is untouched.
pub proof fn lemma_create_effect<T: Table>(r: T, id: u128, k: Seq<u8>)
    requires
        spec_valid_schema::<T>(),
    ensures
        ops_effect(create_ops::<T>(r, id), k) == (if k == spec_primary_key(
            T::spec_table(),
            id,
        ) {
            Some(Some(r.spec_bytes()))
        } else if exists|i: int|
            0 <= i < T::spec_unique_slots().len() && k == spec_unique_key(
                T::spec_table(),
                #[trigger] T::spec_unique_slots()[i],
                r.spec_unique_value(T::spec_unique_slots()[i]),
            ) {
            Some(Some(u128_be(id)))
        } else if exists|i: int|
            0 <= i < T::spec_non_unique_slots().len() && k == spec_non_unique_key(
                T::spec_table(),
                #[trigger] T::spec_non_unique_slots()[i],
                r.spec_non_unique_value(T::spec_non_unique_slots()[i]),
                id,
            ) {
            Some(Some(Seq::<u8>::empty()))
        } else {
            None::<Option<Seq<u8>>>
        }),
{
    let t = T::spec_table();
    let pk = spec_primary_key(t, id);
    let head = seq![OpView::Put(pk, r.spec_bytes())];
    let uops = unique_put_ops::<T>(r, id, T::spec_unique_slots().len() as int);
    let nops = non_unique_put_ops::<T>(r, id, T::spec_non_unique_slots().len() as int);
    lemma_ops_effect_add(head.add(uops), nops, k);
    lemma_ops_effect_add(head, uops, k);
    lemma_unique_put_ops_effect::<T>(r, id, T::spec_unique_slots().len() as int, k);
    lemma_non_unique_put_ops_effect::<T>(r, id, T::spec_non_unique_slots().len() as int, k);
    assert(head.drop_last() =~= Seq::<OpView>::empty());
    assert(ops_effect(Seq::<OpView>::empty(), k) == None::<Option<Seq<u8>>>);
    assert(ops_effect(head, k) == (if k == pk {
        Some(Some(r.spec_bytes()))
    } else {
        None::<Option<Seq<u8>>>
    }));
    if k == pk {
        // The primary key cannot collide with an index key: its slot
        // byte is 0, index slots are not.
        assert forall|i: int|
            0 <= i < T::spec_unique_slots().len() implies k != spec_unique_key(
            t,
            #[trigger] T::spec_unique_slots()[i],
            r.spec_unique_value(T::spec_unique_slots()[i]),
        ) by {
            let s = T::spec_unique_slots()[i];
            if k == spec_unique_key(t, s, r.spec_unique_value(s)) {
                lemma_prefixed_key_injective(t, 0, u128_be(id), t, s, r.spec_unique_value(s));
            }
        }
        assert forall|i: int|
            0 <= i < T::spec_non_unique_slots().len() implies k != spec_non_unique_key(
            t,
            #[trigger] T::spec_non_unique_slots()[i],
            r.spec_non_unique_value(T::spec_non_unique_slots()[i]),
            id,
        ) by {
            let s = T::spec_non_unique_slots()[i];
            let payload = r.spec_non_unique_value(s).add(u128_be(id));
            if k == spec_non_unique_key(t, s, r.spec_non_unique_value(s), id) {
                assert(spec_non_unique_key(t, s, r.spec_non_unique_value(s), id)
                    == spec_unique_key(t, s, payload)) by {
                    assert(spec_non_unique_prefix(t, s, r.spec_non_unique_value(s)).add(
                        u128_be(id),
                    ) =~= crate::keys::spec_key_prefix(t, s).add(payload));
                }
                lemma_prefixed_key_injective(t, 0, u128_be(id), t, s, payload);
            }
        }
    } else {
        // A unique-index key cannot collide with a non-unique one:
        // their slot ranges are disjoint.
        if (exists|i: int|
            0 <= i < T::spec_unique_slots().len() && k == spec_unique_key(
                t,
                #[trigger] T::spec_unique_slots()[i],
                r.spec_unique_value(T::spec_unique_slots()[i]),
            )) && (exists|i: int|
            0 <= i < T::spec_non_unique_slots().len() && k == spec_non_unique_key(
                t,
                #[trigger] T::spec_non_unique_slots()[i],
                r.spec_non_unique_value(T::spec_non_unique_slots()[i]),
                id,
            )) {
            let i = choose|i: int|
                0 <= i < T::spec_unique_slots().len() && k == spec_unique_key(
                    t,
                    #[trigger] T::spec_unique_slots()[i],
                    r.spec_unique_value(T::spec_unique_slots()[i]),
                );
            let j = choose|j: int|
                0 <= j < T::spec_non_unique_slots().len() && k == spec_non_unique_key(
                    t,
                    #[trigger] T::spec_non_unique_slots()[j],
                    r.spec_non_unique_value(T::spec_non_unique_slots()[j]),
                    id,
                );
            let si = T::spec_unique_slots()[i];
            let sj = T::spec_non_unique_slots()[j];
            let payload = r.spec_non_unique_value(sj).add(u128_be(id));
            assert(spec_non_unique_key(t, sj, r.spec_non_unique_value(sj), id) == spec_unique_key(
                t,
                sj,
                payload,
            )) by {
                assert(spec_non_unique_prefix(t, sj, r.spec_non_unique_value(sj)).add(
                    u128_be(id),
                ) =~= crate::keys::spec_key_prefix(t, sj).add(payload));
            }
            lemma_prefixed_key_injective(t, si, r.spec_unique_value(si), t, sj, payload);
        }
    }
}

/// The unique-index removals of a delete: one per declared unique slot,
/// keyed by the stored record's value.
pub open spec fn unique_del_ops<T: Table>(prev: T, n: int) -> Seq<OpView>
    decreases n,
{
    if n <= 0 {
        Seq::empty()
    } else {
        let s = T::spec_unique_slots()[n - 1];
        unique_del_ops(prev, n - 1).push(
            OpView::Delete(spec_unique_key(T::spec_table(), s, prev.spec_unique_value(s))),
        )
    }
}

/// The non-unique-index removals of a delete.
pub open spec fn non_unique_del_ops<T: Table>(prev: T, id: u128, n: int) -> Seq<OpView>
    decreases n,
{
    if n <= 0 {
        Seq::empty()
    } else {
        let s = T::spec_non_unique_slots()[n - 1];
        non_unique_del_ops(prev, id, n - 1).push(
            OpView::Delete(
                spec_non_unique_key(T::spec_table(), s, prev.spec_non_unique_value(s), id),
            ),
        )
    }
}

/// The full atomic batch of a delete: the primary entry and every index
/// entry the stored record owns are removed.
pub open spec fn delete_ops<T: Table>(prev: T, id: u128) -> Seq<OpView> {
    seq![OpView::Delete(spec_primary_key(T::spec_table(), id))].add(
        unique_del_ops(prev, T::spec_unique_slots().len() as int),
    ).add(non_unique_del_ops(prev, id, T::spec_non_unique_slots().len() as int))
}

proof fn lemma_unique_del_ops_effect<T: Table>(prev: T, n: int, k: Seq<u8>)
    requires
        n <= T::spec_unique_slots().len(),
    ensures
        ops_effect(unique_del_ops::<T>(prev, n), k) == (if exists|i: int|
            0 <= i < n && k == spec_unique_key(
                T::spec_table(),
                #[trigger] T::spec_unique_slots()[i],
                prev.spec_unique_value(T::spec_unique_slots()[i]),
            ) {
            Some(None::<Seq<u8>>)
        } else {
            None::<Option<Seq<u8>>>
        }),
    decreases n,
{
    if n <= 0 {
        assert(ops_effect(unique_del_ops::<T>(prev, n), k) == None::<Option<Seq<u8>>>);
    } else {
        let ops = unique_del_ops::<T>(prev, n);
        let rest = unique_del_ops::<T>(prev, n - 1);
        let s = T::spec_unique_slots()[n - 1];
        let opk = spec_unique_key(T::spec_table(), s, prev.spec_unique_value(s));
        assert(ops.drop_last() =~= rest);
        assert(ops.last() == OpView::Delete(opk));
        lemma_unique_del_ops_effect::<T>(prev, n - 1, k);
        if k == opk {
            assert(0 <= n - 1 < n && k == spec_unique_key(
                T::spec_table(),
                T::spec_unique_slots()[n - 1],
                prev.spec_unique_value(T::spec_unique_slots()[n - 1]),
            ));
        } else {
            if exists|i: int|
                0 <= i < n && k == spec_unique_key(
                    T::spec_table(),
                    #[trigger] T::spec_unique_slots()[i],
                    prev.spec_unique_value(T::spec_unique_slots()[i]),
                ) {
                let i = choose|i: int|
                    0 <= i < n && k == spec_unique_key(
                        T::spec_table(),
                        #[trigger] T::spec_unique_slots()[i],
                        prev.spec_unique_value(T::spec_unique_slots()[i]),
                    );
                assert(i < n - 1);
            }
        }
    }
}

proof fn lemma_non_unique_del_ops_effect<T: Table>(prev: T, id: u128, n: int, k: Seq<u8>)
    requires
        n <= T::spec_non_unique_slots().len(),
    ensures
        ops_effect(non_unique_del_ops::<T>(prev, id, n), k) == (if exists|i: int|
            0 <= i < n && k == spec_non_unique_key(
                T::spec_table(),
                #[trigger] T::spec_non_unique_slots()[i],
                prev.spec_non_unique_value(T::spec_non_unique_slots()[i]),
                id,
            ) {
            Some(None::<Seq<u8>>)
        } else {
            None::<Option<Seq<u8>>>
        }),
    decreases n,
{
    if n <= 0 {
        assert(ops_effect(non_unique_del_ops::<T>(prev, id, n), k) == None::<Option<Seq<u8>>>);
    } else {
        let ops = non_unique_del_ops::<T>(prev, id, n);
        let rest = non_unique_del_ops::<T>(prev, id, n - 1);
        let s = T::spec_non_unique_slots()[n - 1];
        let opk = spec_non_unique_key(T::spec_table(), s, prev.spec_non_unique_value(s), id);
        assert(ops.drop_last() =~= rest);
        assert(ops.last() == OpView::Delete(opk));
        lemma_non_unique_del_ops_effect::<T>(prev, id, n - 1, k);
        if k == opk {
            assert(0 <= n - 1 < n && k == spec_non_unique_key(
                T::spec_table(),
                T::spec_non_unique_slots()[n - 1],
                prev.spec_non_unique_value(T::spec_non_unique_slots()[n - 1]),
                id,
            ));
        } else {
            if exists|i: int|
                0 <= i < n && k == spec_non_unique_key(
                    T::spec_table(),
                    #[trigger] T::spec_non_unique_slots()[i],
                    prev.spec_non_unique_value(T::spec_non_unique_slots()[i]),
                    id,
                ) {
                let i = choose|i: int|
                    0 <= i < n && k == spec_non_unique_key(
                        T::spec_table(),
                        #[trigger] T::spec_non_unique_slots()[i],
                        prev.spec_non_unique_value(T::spec_non_unique_slots()[i]),
                        id,
                    );
                assert(i < n - 1);
            }
        }
    }
}

/// What a delete makes of each key: the primary key and every owned
/// index key are gone, everything else is untouched.
pub proof fn lemma_delete_effect<T: Table>(prev: T, id: u128, k: Seq<u8>)
    ensures
        ops_effect(delete_ops::<T>(prev, id), k) == (if k == spec_primary_key(
            T::spec_table(),
            id,
        ) || (exists|i: int|
            0 <= i < T::spec_unique_slots().len() && k == spec_unique_key(
                T::spec_table(),
                #[trigger] T::spec_unique_slots()[i],
                prev.spec_unique_value(T::spec_unique_slots()[i]),
            )) || (exists|i: int|
            0 <= i < T::spec_non_unique_slots().len() && k == spec_non_unique_key(
                T::spec_table(),
                #[trigger] T::spec_non_unique_slots()[i],
                prev.spec_non_unique_value(T::spec_non_unique_slots()[i]),
                id,
            )) {
            Some(None::<Seq<u8>>)
        } else {
            None::<Option<Seq<u8>>>
        }),
{
    let head = seq![OpView::Delete(spec_primary_key(T::spec_table(), id))];
    let uops = unique_del_ops::<T>(prev, T::spec_unique_slots().len() as int);
    let nops = non_unique_del_ops::<T>(prev, id, T::spec_non_unique_slots().len() as int);
    lemma_ops_effect_add(head.add(uops), nops, k);
    lemma_ops_effect_add(head, uops, k);
    lemma_unique_del_ops_effect::<T>(prev, T::spec_unique_slots().len() as int, k);
    lemma_non_unique_del_ops_effect::<T>(prev, id, T::spec_non_unique_slots().len() as int, k);
    assert(head.drop_last() =~= Seq::<OpView>::empty());
    assert(ops_effect(Seq::<OpView>::empty(), k) == None::<Option<Seq<u8>>>);
}

/// The unique-index changes of an update: for each declared unique slot
/// whose computed value differs between the stored record and the new
/// one, the old entry is removed and the new one inserted; slots whose
/// value is unchanged are left untouched.
pub open spec fn unique_upd_ops<T: Table>(prev: T, new: T, id: u128, n: int) -> Seq<OpView>
    decreases n,
{
    if n <= 0 {
        Seq::empty()
    } else {
        let s = T::spec_unique_slots()[n - 1];
        let rest = unique_upd_ops(prev, new, id, n - 1);
        if new.spec_unique_value(s) == prev.spec_unique_value(s) {
            rest
        } else {
            rest.push(
                OpView::Delete(spec_unique_key(T::spec_table(), s, prev.spec_unique_value(s))),
            ).push(
                OpView::Put(
                    spec_unique_key(T::spec_table(), s, new.spec_unique_value(s)),
                    u128_be(id),
                ),
            )
        }
    }
}

/// The non-unique-index changes of an update, built the same way.
pub open spec fn non_unique_upd_ops<T: Table>(prev: T, new: T, id: u128, n: int) -> Seq<OpView>
    decreases n,
{
    if n <= 0 {
        Seq::empty()
    } else {
        let s = T::spec_non_unique_slots()[n - 1];
        let rest = non_unique_upd_ops(prev, new, id, n - 1);
        if new.spec_non_unique_value(s) == prev.spec_non_unique_value(s) {
            rest
        } else {
            rest.push(
                OpView::Delete(
                    spec_non_unique_key(T::spec_table(), s, prev.spec_non_unique_value(s), id),
                ),
            ).push(
                OpView::Put(
                    spec_non_unique_key(T::spec_table(), s, new.spec_non_unique_value(s), id),
                    Seq::empty(),
                ),
            )
        }
    }
}

/// The full atomic batch of an update: the primary value is replaced,
/// and exactly the index entries whose computed value differs are
/// replaced.
pub open spec fn update_ops<T: Table>(prev: T, new: T, id: u128) -> Seq<OpView> {
    seq![OpView::Put(spec_primary_key(T::spec_table(), id), new.spec_bytes())].add(
        unique_upd_ops(prev, new, id, T::spec_unique_slots().len() as int),
    ).add(non_unique_upd_ops(prev, new, id, T::spec_non_unique_slots().len() as int))
}

/// What the unique-index changes of an update make of key `k`.
pub proof fn lemma_unique_upd_ops_effect<T: Table>(prev: T, new: T, id: u128, n: int, k: Seq<u8>)
    requires
        n <= T::spec_unique_slots().len(),
        forall|i: int, j: int|
            0 <= i < j < T::spec_unique_slots().len() ==> T::spec_unique_slots()[i]
                != T::spec_unique_slots()[j],
    ensures
        ops_effect(unique_upd_ops::<T>(prev, new, id, n), k) == (if exists|i: int|
            0 <= i < n && new.spec_unique_value(#[trigger] T::spec_unique_slots()[i])
                != prev.spec_unique_value(T::spec_unique_slots()[i]) && k == spec_unique_key(
                T::spec_table(),
                T::spec_unique_slots()[i],
                new.spec_unique_value(T::spec_unique_slots()[i]),
            ) {
            Some(Some(u128_be(id)))
        } else if exists|i: int|
            0 <= i < n && new.spec_unique_value(#[trigger] T::spec_unique_slots()[i])
                != prev.spec_unique_value(T::spec_unique_slots()[i]) && k == spec_unique_key(
                T::spec_table(),
                T::spec_unique_slots()[i],
                prev.spec_unique_value(T::spec_unique_slots()[i]),
            ) {
            Some(None::<Seq<u8>>)
        } else {
            None::<Option<Seq<u8>>>
        }),
    decreases n,
{
    let t = T::spec_table();
    if n <= 0 {
        assert(ops_effect(unique_upd_ops::<T>(prev, new, id, n), k) == None::<Option<Seq<u8>>>);
    } else {
        lemma_unique_upd_ops_effect::<T>(prev, new, id, n - 1, k);
        let ops = unique_upd_ops::<T>(prev, new, id, n);
        let rest = unique_upd_ops::<T>(prev, new, id, n - 1);
        let s = T::spec_unique_slots()[n - 1];
        let newk = spec_unique_key(t, s, new.spec_unique_value(s));
        let prevk = spec_unique_key(t, s, prev.spec_unique_value(s));
        if new.spec_unique_value(s) == prev.spec_unique_value(s) {
            assert(ops == rest);
            if exists|i: int|
                0 <= i < n && new.spec_unique_value(#[trigger] T::spec_unique_slots()[i])
                    != prev.spec_unique_value(T::spec_unique_slots()[i]) && k == spec_unique_key(
                    t,
                    T::spec_unique_slots()[i],
                    new.spec_unique_value(T::spec_unique_slots()[i]),
                ) {
                let i = choose|i: int|
                    0 <= i < n && new.spec_unique_value(#[trigger] T::spec_unique_slots()[i])
                        != prev.spec_unique_value(T::spec_unique_slots()[i]) && k
                        == spec_unique_key(
                        t,
                        T::spec_unique_slots()[i],
                        new.spec_unique_value(T::spec_unique_slots()[i]),
                    );
                assert(i < n - 1);
            }
            if exists|i: int|
                0 <= i < n && new.spec_unique_value(#[trigger] T::spec_unique_slots()[i])
                    != prev.spec_unique_value(T::spec_unique_slots()[i]) && k == spec_unique_key(
                    t,
                    T::spec_unique_slots()[i],
                    prev.spec_unique_value(T::spec_unique_slots()[i]),
                ) {
                let i = choose|i: int|
                    0 <= i < n && new.spec_unique_value(#[trigger] T::spec_unique_slots()[i])
                        != prev.spec_unique_value(T::spec_unique_slots()[i]) && k
                        == spec_unique_key(
                        t,
                        T::spec_unique_slots()[i],
                        prev.spec_unique_value(T::spec_unique_slots()[i]),
                    );
                assert(i < n - 1);
            }
        } else {
            reveal_with_fuel(ops_effect, 3);
            let mid = rest.push(OpView::Delete(prevk));
            assert(ops.drop_last() =~= mid);
            assert(ops.last() == OpView::Put(newk, u128_be(id)));
            assert(mid.drop_last() =~= rest);
            assert(mid.last() == OpView::Delete(prevk));
            if k == newk {
                assert(0 <= n - 1 < n && new.spec_unique_value(T::spec_unique_slots()[n - 1])
                    != prev.spec_unique_value(T::spec_unique_slots()[n - 1]) && k
                    == spec_unique_key(
                    t,
                    T::spec_unique_slots()[n - 1],
                    new.spec_unique_value(T::spec_unique_slots()[n - 1]),
                ));
            } else if k == prevk {
                // No other slot's new key can equal this slot's old key.
                if exists|i: int|
                    0 <= i < n && new.spec_unique_value(#[trigger] T::spec_unique_slots()[i])
                        != prev.spec_unique_value(T::spec_unique_slots()[i]) && k
                        == spec_unique_key(
                        t,
                        T::spec_unique_slots()[i],
                        new.spec_unique_value(T::spec_unique_slots()[i]),
                    ) {
                    let i = choose|i: int|
                        0 <= i < n && new.spec_unique_value(#[trigger] T::spec_unique_slots()[i])
                            != prev.spec_unique_value(T::spec_unique_slots()[i]) && k
                            == spec_unique_key(
                            t,
                            T::spec_unique_slots()[i],
                            new.spec_unique_value(T::spec_unique_slots()[i]),
                        );
                    lemma_prefixed_key_injective(
                        t,
                        T::spec_unique_slots()[i],
                        new.spec_unique_value(T::spec_unique_slots()[i]),
                        t,
                        s,
                        prev.spec_unique_value(s),
                    );
                    assert(false);
                }
                assert(0 <= n - 1 < n && new.spec_unique_value(T::spec_unique_slots()[n - 1])
                    != prev.spec_unique_value(T::spec_unique_slots()[n - 1]) && k
                    == spec_unique_key(
                    t,
                    T::spec_unique_slots()[n - 1],
                    prev.spec_unique_value(T::spec_unique_slots()[n - 1]),
                ));
            } else {
                if exists|i: int|
                    0 <= i < n && new.spec_unique_value(#[trigger] T::spec_unique_slots()[i])
                        != prev.spec_unique_value(T::spec_unique_slots()[i]) && k
                        == spec_unique_key(
                        t,
                        T::spec_unique_slots()[i],
                        new.spec_unique_value(T::spec_unique_slots()[i]),
                    ) {
                    let i = choose|i: int|
                        0 <= i < n && new.spec_unique_value(#[trigger] T::spec_unique_slots()[i])
                            != prev.spec_unique_value(T::spec_unique_slots()[i]) && k
                            == spec_unique_key(
                            t,
                            T::spec_unique_slots()[i],
                            new.spec_unique_value(T::spec_unique_slots()[i]),
                        );
                    assert(i < n - 1);
                }
                if exists|i: int|
                    0 <= i < n && new.spec_unique_value(#[trigger] T::spec_unique_slots()[i])
                        != prev.spec_unique_value(T::spec_unique_slots()[i]) && k
                        == spec_unique_key(
                        t,
                        T::spec_unique_slots()[i],
                        prev.spec_unique_value(T::spec_unique_slots()[i]),
                    ) {
                    let i = choose|i: int|
                        0 <= i < n && new.spec_unique_value(#[trigger] T::spec_unique_slots()[i])
                            != prev.spec_unique_value(T::spec_unique_slots()[i]) && k
                            == spec_unique_key(
                            t,
                            T::spec_unique_slots()[i],
                            prev.spec_unique_value(T::spec_unique_slots()[i]),
                        );
                    assert(i < n - 1);
                }
            }
        }
    }
}

/// What the non-unique-index changes of an update make of key `k`.
pub proof fn lemma_non_unique_upd_ops_effect<T: Table>(prev: T, new: T, id: u128, n: int, k: Seq<u8>)
    requires
        n <= T::spec_non_unique_slots().len(),
        forall|i: int, j: int|
            0 <= i < j < T::spec_non_unique_slots().len() ==> T::spec_non_unique_slots()[i]
                != T::spec_non_unique_slots()[j],
    ensures
        ops_effect(non_unique_upd_ops::<T>(prev, new, id, n), k) == (if exists|i: int|
            0 <= i < n && new.spec_non_unique_value(#[trigger] T::spec_non_unique_slots()[i])
                != prev.spec_non_unique_value(T::spec_non_unique_slots()[i]) && k
                == spec_non_unique_key(
                T::spec_table(),
                T::spec_non_unique_slots()[i],
                new.spec_non_unique_value(T::spec_non_unique_slots()[i]),
                id,
            ) {
            Some(Some(Seq::<u8>::empty()))
        } else if exists|i: int|
            0 <= i < n && new.spec_non_unique_value(#[trigger] T::spec_non_unique_slots()[i])
                != prev.spec_non_unique_value(T::spec_non_unique_slots()[i]) && k
                == spec_non_unique_key(
                T::spec_table(),
                T::spec_non_unique_slots()[i],
                prev.spec_non_unique_value(T::spec_non_unique_slots()[i]),
                id,
            ) {
            Some(None::<Seq<u8>>)
        } else {
            None::<Option<Seq<u8>>>
        }),
    decreases n,
{
    let t = T::spec_table();
    if n <= 0 {
        assert(ops_effect(non_unique_upd_ops::<T>(prev, new, id, n), k) == None::<
            Option<Seq<u8>>,
        >);
    } else {
        lemma_non_unique_upd_ops_effect::<T>(prev, new, id, n - 1, k);
        let ops = non_unique_upd_ops::<T>(prev, new, id, n);
        let rest = non_unique_upd_ops::<T>(prev, new, id, n - 1);
        let s = T::spec_non_unique_slots()[n - 1];
        let newk = spec_non_unique_key(t, s, new.spec_non_unique_value(s), id);
        let prevk = spec_non_unique_key(t, s, prev.spec_non_unique_value(s), id);
        if new.spec_non_unique_value(s) == prev.spec_non_unique_value(s) {
            assert(ops == rest);
            if exists|i: int|
                0 <= i < n && new.spec_non_unique_value(#[trigger] T::spec_non_unique_slots()[i])
                    != prev.spec_non_unique_value(T::spec_non_unique_slots()[i]) && k
                    == spec_non_unique_key(
                    t,
                    T::spec_non_unique_slots()[i],
                    new.spec_non_unique_value(T::spec_non_unique_slots()[i]),
                    id,
                ) {
                let i = choose|i: int|
                    0 <= i < n && new.spec_non_unique_value(
                        #[trigger] T::spec_non_unique_slots()[i],
                    ) != prev.spec_non_unique_value(T::spec_non_unique_slots()[i]) && k
                        == spec_non_unique_key(
                        t,
                        T::spec_non_unique_slots()[i],
                        new.spec_non_unique_value(T::spec_non_unique_slots()[i]),
                        id,
                    );
                assert(i < n - 1);
            }
            if exists|i: int|
                0 <= i < n && new.spec_non_unique_value(#[trigger] T::spec_non_unique_slots()[i])
                    != prev.spec_non_unique_value(T::spec_non_unique_slots()[i]) && k
                    == spec_non_unique_key(
                    t,
                    T::spec_non_unique_slots()[i],
                    prev.spec_non_unique_value(T::spec_non_unique_slots()[i]),
                    id,
                ) {
                let i = choose|i: int|
                    0 <= i < n && new.spec_non_unique_value(
                        #[trigger] T::spec_non_unique_slots()[i],
                    ) != prev.spec_non_unique_value(T::spec_non_unique_slots()[i]) && k
                        == spec_non_unique_key(
                        t,
                        T::spec_non_unique_slots()[i],
                        prev.spec_non_unique_value(T::spec_non_unique_slots()[i]),
                        id,
                    );
                assert(i < n - 1);
            }
        } else {
            reveal_with_fuel(ops_effect, 3);
            let mid = rest.push(OpView::Delete(prevk));
            assert(ops.drop_last() =~= mid);
            assert(ops.last() == OpView::Put(newk, Seq::<u8>::empty()));
            assert(mid.drop_last() =~= rest);
            assert(mid.last() == OpView::Delete(prevk));
            if k == newk {
                assert(0 <= n - 1 < n && new.spec_non_unique_value(
                    T::spec_non_unique_slots()[n - 1],
                ) != prev.spec_non_unique_value(T::spec_non_unique_slots()[n - 1]) && k
                    == spec_non_unique_key(
                    t,
                    T::spec_non_unique_slots()[n - 1],
                    new.spec_non_unique_value(T::spec_non_unique_slots()[n - 1]),
                    id,
                ));
            } else if k == prevk {
                if exists|i: int|
                    0 <= i < n && new.spec_non_unique_value(
                        #[trigger] T::spec_non_unique_slots()[i],
                    ) != prev.spec_non_unique_value(T::spec_non_unique_slots()[i]) && k
                        == spec_non_unique_key(
                        t,
                        T::spec_non_unique_slots()[i],
                        new.spec_non_unique_value(T::spec_non_unique_slots()[i]),
                        id,
                    ) {
                    let i = choose|i: int|
                        0 <= i < n && new.spec_non_unique_value(
                            #[trigger] T::spec_non_unique_slots()[i],
                        ) != prev.spec_non_unique_value(T::spec_non_unique_slots()[i]) && k
                            == spec_non_unique_key(
                            t,
                            T::spec_non_unique_slots()[i],
                            new.spec_non_unique_value(T::spec_non_unique_slots()[i]),
                            id,
                        );
                    assert(spec_non_unique_key(
                        t,
                        T::spec_non_unique_slots()[i],
                        new.spec_non_unique_value(T::spec_non_unique_slots()[i]),
                        id,
                    ) == spec_unique_key(
                        t,
                        T::spec_non_unique_slots()[i],
                        new.spec_non_unique_value(T::spec_non_unique_slots()[i]).add(u128_be(id)),
                    )) by {
                        assert(spec_non_unique_prefix(
                            t,
                            T::spec_non_unique_slots()[i],
                            new.spec_non_unique_value(T::spec_non_unique_slots()[i]),
                        ).add(u128_be(id)) =~= crate::keys::spec_key_prefix(
                            t,
                            T::spec_non_unique_slots()[i],
                        ).add(new.spec_non_unique_value(T::spec_non_unique_slots()[i]).add(
                            u128_be(id),
                        )));
                    }
                    assert(spec_non_unique_key(t, s, prev.spec_non_unique_value(s), id)
                        == spec_unique_key(
                        t,
                        s,
                        prev.spec_non_unique_value(s).add(u128_be(id)),
                    )) by {
                        assert(spec_non_unique_prefix(t, s, prev.spec_non_unique_value(s)).add(
                            u128_be(id),
                        ) =~= crate::keys::spec_key_prefix(t, s).add(
                            prev.spec_non_unique_value(s).add(u128_be(id)),
                        ));
                    }
                    lemma_prefixed_key_injective(
                        t,
                        T::spec_non_unique_slots()[i],
                        new.spec_non_unique_value(T::spec_non_unique_slots()[i]).add(u128_be(id)),
                        t,
                        s,
                        prev.spec_non_unique_value(s).add(u128_be(id)),
                    );
                    assert(false);
                }
                assert(0 <= n - 1 < n && new.spec_non_unique_value(
                    T::spec_non_unique_slots()[n - 1],
                ) != prev.spec_non_unique_value(T::spec_non_unique_slots()[n - 1]) && k
                    == spec_non_unique_key(
                    t,
                    T::spec_non_unique_slots()[n - 1],
                    prev.spec_non_unique_value(T::spec_non_unique_slots()[n - 1]),
                    id,
                ));
            } else {
                if exists|i: int|
                    0 <= i < n && new.spec_non_unique_value(
                        #[trigger] T::spec_non_unique_slots()[i],
                    ) != prev.spec_non_unique_value(T::spec_non_unique_slots()[i]) && k
                        == spec_non_unique_key(
                        t,
                        T::spec_non_unique_slots()[i],
                        new.spec_non_unique_value(T::spec_non_unique_slots()[i]),
                        id,
                    ) {
                    let i = choose|i: int|
                        0 <= i < n && new.spec_non_unique_value(
                            #[trigger] T::spec_non_unique_slots()[i],
                        ) != prev.spec_non_unique_value(T::spec_non_unique_slots()[i]) && k
                            == spec_non_unique_key(
                            t,
                            T::spec_non_unique_slots()[i],
                            new.spec_non_unique_value(T::spec_non_unique_slots()[i]),
                            id,
                        );
                    assert(i < n - 1);
                }
                if exists|i: int|
                    0 <= i < n && new.spec_non_unique_value(
                        #[trigger] T::spec_non_unique_slots()[i],
                    ) != prev.spec_non_unique_value(T::spec_non_unique_slots()[i]) && k
                        == spec_non_unique_key(
                        t,
                        T::spec_non_unique_slots()[i],
                        prev.spec_non_unique_value(T::spec_non_unique_slots()[i]),
                        id,
                    ) {
                    let i = choose|i: int|
                        0 <= i < n && new.spec_non_unique_value(
                            #[trigger] T::spec_non_unique_slots()[i],
                        ) != prev.spec_non_unique_value(T::spec_non_unique_slots()[i]) && k
                            == spec_non_unique_key(
                            t,
                            T::spec_non_unique_slots()[i],
                            prev.spec_non_unique_value(T::spec_non_unique_slots()[i]),
                            id,
                        );
                    assert(i < n - 1);
                }
            }
        }
    }
}

/// Checks every declared unique slot of `item` against the store.
fn check_unique<T: Table>(store: &Store, item: &T) -> (r: Result<(), Error>)
    ensures
        match r {
            Ok(()) => !unique_conflict::<T>(store.contents(), *item),
            Err(e) => e == Error::AlreadyExists && unique_conflict::<T>(store.contents(), *item),
        },
{
    let slots = T::unique_slots();
    let mut i: usize = 0;
    while i < slots.len()
        invariant
            slots@ == T::spec_unique_slots(),
            i <= slots@.len(),
            forall|j: int|
                0 <= j < i ==> !store.contents().dom().contains(
                    spec_unique_key(
                        T::spec_table(),
                        #[trigger] T::spec_unique_slots()[j],
                        item.spec_unique_value(T::spec_unique_slots()[j]),
                    ),
                ),
        decreases slots@.len() - i,
    {
        let value = item.unique_value(slots[i]);
        let key = unique_key(T::table(), slots[i], value.as_slice());
        if store.get(key.as_slice()).is_some() {
            proof {
                let gi = i as int;
                assert(store.contents().dom().contains(
                    spec_unique_key(
                        T::spec_table(),
                        T::spec_unique_slots()[gi],
                        item.spec_unique_value(T::spec_unique_slots()[gi]),
                    ),
                ));
            }
            return Err(Error::AlreadyExists);
        }
        i += 1;
    }
    Ok(())
}

/// The capability contract of a table of serializable records, and the
/// operations provided over it.
///
/// A record type supplies the specification-level schema (table
/// identifier, declared slots, per-slot byte values, serialized form)
/// together with executable functions tied to it, and a proof that the
/// declared schema is valid. The engine operations are provided.
pub trait Table: Sized {
    /// The table identifier, unique per logical table; 0 is reserved.
    ///
    /// Every specification function of this trait has a default body
    /// so that an implementation left unverified compiles without
    /// naming ghost types. The defaults describe a one-table schema
    /// with no index slots: an unverified implementation whose
    /// executable methods disagree with them (a different table
    /// number, declared slots) is not described by the verified
    /// contracts. A verified implementation must override each
    /// specification function and prove the executable methods
    /// against them.
    open spec fn spec_table() -> u32 {
        1
    }

    /// The declared unique-index slots, each within 1..=126.
    open spec fn spec_unique_slots() -> Seq<u8> {
        Seq::empty()
    }

    /// The declared non-unique-index slots, each within 128..=253.
    open spec fn spec_non_unique_slots() -> Seq<u8> {
        Seq::empty()
    }

    /// The byte value this record produces for a unique slot.
    open spec fn spec_unique_value(&self, slot: u8) -> Seq<u8> {
        Seq::empty()
    }

    /// The byte value this record produces for a non-unique slot.
    open spec fn spec_non_unique_value(&self, slot: u8) -> Seq<u8> {
        Seq::empty()
    }

    /// The serialized form of this record.
    open spec fn spec_bytes(&self) -> Seq<u8> {
        Seq::empty()
    }

    /// Whether this record serializes at all.
    open spec fn spec_encodable(&self) -> bool {
        true
    }

    /// The declared schema is valid: a nonzero table identifier,
    /// unique slots within 1..=126, non-unique slots within 128..=253,
    /// and no slot declared twice.
    proof fn valid_schema()
        ensures
            Self::spec_table() != 0,
            forall|i: int|
                0 <= i < Self::spec_unique_slots().len() ==> 1 <= #[trigger] Self::spec_unique_slots()[i]
                    <= 126,
            forall|i: int, j: int|
                0 <= i < j < Self::spec_unique_slots().len() ==> Self::spec_unique_slots()[i]
                    != Self::spec_unique_slots()[j],
            forall|i: int|
                0 <= i < Self::spec_non_unique_slots().len() ==> 128
                    <= #[trigger] Self::spec_non_unique_slots()[i] <= 253,
            forall|i: int, j: int|
                0 <= i < j < Self::spec_non_unique_slots().len() ==> Self::spec_non_unique_slots()[i]
                    != Self::spec_non_unique_slots()[j],
    ;

    /// The table identifier.
    fn table() -> (t: u32)
        ensures
            t == Self::spec_table(),
    ;

    /// The declared unique-index slots.
    fn unique_slots() -> (s: Vec<u8>)
        ensures
            s@ == Self::spec_unique_slots(),
    ;

    /// The declared non-unique-index slots.
    fn non_unique_slots() -> (s: Vec<u8>)
        ensures
            s@ == Self::spec_non_unique_slots(),
    ;

    /// The byte value of this record for a declared unique slot.
    fn unique_value(&self, slot: u8) -> (v: Vec<u8>)
        ensures
            v@ == self.spec_unique_value(slot),
    ;

    /// The byte value of this record for a declared non-unique slot.
    fn non_unique_value(&self, slot: u8) -> (v: Vec<u8>)
        ensures
            v@ == self.spec_non_unique_value(slot),
    ;

    /// Serializes this record. Deterministic: equal records give equal
    /// bytes.
    fn to_bytes(&self) -> (r: Result<Vec<u8>, Error>)
        ensures
            match r {
                Ok(b) => self.spec_encodable() && b@ == self.spec_bytes(),
                Err(e) => e == Error::Encoding && !self.spec_encodable(),
            },
    ;

    /// Deserializes a record. Whatever serialized an encodable record
    /// is read back as that record; other byte strings may decode to
    /// anything the codec's evolution rules allow, or fail.
    fn from_bytes(bytes: &[u8]) -> (r: Result<Self, Error>)
        ensures
            forall|v: Self|
                bytes@ == v.spec_bytes() && v.spec_encodable() ==> r == Ok::<Self, Error>(v),
            r matches Err(e) ==> e == Error::Encoding,
    ;

}

/// Stores a new record: checks every declared unique slot against
/// already-committed state, draws a fresh identifier and commits the
/// primary entry and every index entry as one atomic batch. Fails with
/// `AlreadyExists` and writes nothing if a unique slot's value is
/// already present.
pub fn create<T: Table>(item: &T, store: &mut Store) -> (r: Result<Id, Error>)
    ensures
        match r {
            Ok(id) => !unique_conflict::<T>(old(store).contents(), *item) && item.spec_encodable()
                && final(store).contents() == apply_ops(
                old(store).contents(),
                create_ops::<T>(*item, id.0),
            ),
            Err(e) => final(store).contents() == old(store).contents() && (e
                == Error::AlreadyExists <==> unique_conflict::<T>(old(store).contents(), *item))
                && (e == Error::AlreadyExists || e == Error::Encoding) && (e == Error::Encoding
                ==> !item.spec_encodable()),
        },
{
    if let Err(e) = check_unique(store, item) {
        return Err(e);
    }
    let serialized = match item.to_bytes() {
        Ok(b) => b,
        Err(e) => {
            return Err(e);
        },
    };
    let id = fresh_id();
    let mut batch = Batch::new();
    let key = primary_key(T::table(), id);
    batch.put(key, serialized);

    let ghost head = seq![OpView::Put(spec_primary_key(T::spec_table(), id.0), item.spec_bytes())];
    proof {
        assert(batch@ =~= head);
        assert(head.add(unique_put_ops::<T>(*item, id.0, 0)) =~= head);
    }

    let slots = T::unique_slots();
    let mut i: usize = 0;
    while i < slots.len()
        invariant
            slots@ == T::spec_unique_slots(),
            i <= slots@.len(),
            batch@ == head.add(unique_put_ops::<T>(*item, id.0, i as int)),
        decreases slots@.len() - i,
    {
        let value = item.unique_value(slots[i]);
        let ukey = unique_key(T::table(), slots[i], value.as_slice());
        batch.put(ukey, id.to_be_bytes());
        proof {
            assert(batch@ =~= head.add(unique_put_ops::<T>(*item, id.0, i + 1)));
        }
        i += 1;
    }

    let ghost mid = head.add(unique_put_ops::<T>(*item, id.0, T::spec_unique_slots().len() as int));
    proof {
        assert(mid.add(non_unique_put_ops::<T>(*item, id.0, 0)) =~= mid);
    }

    let nslots = T::non_unique_slots();
    let mut j: usize = 0;
    while j < nslots.len()
        invariant
            nslots@ == T::spec_non_unique_slots(),
            j <= nslots@.len(),
            batch@ == mid.add(non_unique_put_ops::<T>(*item, id.0, j as int)),
        decreases nslots@.len() - j,
    {
        let value = item.non_unique_value(nslots[j]);
        let nkey = non_unique_key(T::table(), nslots[j], value.as_slice(), id);
        batch.put(nkey, Vec::new());
        proof {
            assert(batch@ =~= mid.add(non_unique_put_ops::<T>(*item, id.0, j + 1)));
        }
        j += 1;
    }

    proof {
        assert(batch@ =~= create_ops::<T>(*item, id.0));
    }
    store.write(batch);
    Ok(id)
}

/// Reads the record stored under `id`: a point lookup of the primary
/// key, decoded by the codec. Fails with `NotFound` exactly when the
/// primary entry is absent.
pub fn get<T: Table>(store: &Store, id: Id) -> (r: Result<WithId<T>, Error>)
    ensures
        ({
            let m = store.contents();
            let pk = spec_primary_key(T::spec_table(), id.0);
            match r {
                Ok(w) => m.dom().contains(pk) && w.id == id && (forall|v: T|
                    m[pk] == v.spec_bytes() && v.spec_encodable() ==> w.value == v),
                Err(e) => (e == Error::NotFound <==> !m.dom().contains(pk)) && (e
                    == Error::NotFound || e == Error::Encoding) && (e == Error::Encoding ==> forall|
                    v: T,
                |
                    v.spec_encodable() ==> m[pk] != v.spec_bytes()),
            }
        }),
{
    let key = primary_key(T::table(), id);
    match store.get(key.as_slice()) {
        None => Err(Error::NotFound),
        Some(bytes) => match T::from_bytes(bytes.as_slice()) {
            Ok(value) => Ok(WithId { id, value }),
            Err(e) => Err(e),
        },
    }
}

/// Reads the records stored under `ids`, one batched lookup, keeping
/// the caller's order. Fails with `NotFound` exactly when any requested
/// id is absent: all-or-nothing, never a partial answer.
pub fn get_many<T: Table>(store: &Store, ids: &[Id]) -> (r: Result<Vec<WithId<T>>, Error>)
    ensures
        ({
            let m = store.contents();
            match r {
                Ok(ws) => ws@.len() == ids@.len() && forall|i: int| #![trigger ws@[i]]
                    0 <= i < ids@.len() ==> {
                        let pk = spec_primary_key(T::spec_table(), ids@[i].0);
                        ws@[i].id == ids@[i] && m.dom().contains(pk) && (forall|v: T|
                            m[pk] == v.spec_bytes() && v.spec_encodable() ==> ws@[i].value == v)
                    },
                Err(e) => (e == Error::NotFound <==> exists|i: int|
                    0 <= i < ids@.len() && !m.dom().contains(
                        #[trigger] spec_primary_key(T::spec_table(), ids@[i].0),
                    )) && (e == Error::NotFound || e == Error::Encoding) && (e == Error::Encoding
                    ==> exists|i: int|
                    0 <= i < ids@.len() && {
                        let pk = #[trigger] spec_primary_key(T::spec_table(), ids@[i].0);
                        m.dom().contains(pk) && (forall|v: T|
                            v.spec_encodable() ==> m[pk] != v.spec_bytes())
                    }),
            }
        }),
{
    let mut keys: Vec<Vec<u8>> = Vec::new();
    let mut i: usize = 0;
    while i < ids.len()
        invariant
            i <= ids@.len(),
            keys@.len() == i,
            forall|j: int|
                0 <= j < i ==> #[trigger] keys@[j]@ == spec_primary_key(
                    T::spec_table(),
                    ids@[j].0,
                ),
        decreases ids@.len() - i,
    {
        keys.push(primary_key(T::table(), ids[i]));
        i += 1;
    }
    let found = store.multi_get(&keys);
    let mut j: usize = 0;
    while j < found.len()
        invariant
            found@.len() == ids@.len(),
            j <= found@.len(),
            keys@.len() == ids@.len(),
            forall|x: int|
                0 <= x < ids@.len() ==> #[trigger] keys@[x]@ == spec_primary_key(
                    T::spec_table(),
                    ids@[x].0,
                ),
            forall|x: int| #![trigger found@[x]]
                0 <= x < found@.len() ==> match found@[x] {
                    Some(v) => store.contents().dom().contains(keys@[x]@) && v@
                        == store.contents().index(keys@[x]@),
                    None => !store.contents().dom().contains(keys@[x]@),
                },
            forall|x: int|
                0 <= x < j ==> store.contents().dom().contains(
                    #[trigger] spec_primary_key(T::spec_table(), ids@[x].0),
                ),
        decreases found@.len() - j,
    {
        match &found[j] {
            None => {
                return Err(Error::NotFound);
            },
            Some(_) => {},
        }
        j += 1;
    }
    let mut items: Vec<WithId<T>> = Vec::new();
    let mut x: usize = 0;
    while x < found.len()
        invariant
            found@.len() == ids@.len(),
            x <= found@.len(),
            keys@.len() == ids@.len(),
            items@.len() == x,
            forall|y: int|
                0 <= y < ids@.len() ==> #[trigger] keys@[y]@ == spec_primary_key(
                    T::spec_table(),
                    ids@[y].0,
                ),
            forall|y: int| #![trigger found@[y]]
                0 <= y < found@.len() ==> match found@[y] {
                    Some(v) => store.contents().dom().contains(keys@[y]@) && v@
                        == store.contents().index(keys@[y]@),
                    None => !store.contents().dom().contains(keys@[y]@),
                },
            forall|y: int|
                0 <= y < found@.len() ==> store.contents().dom().contains(
                    #[trigger] spec_primary_key(T::spec_table(), ids@[y].0),
                ),
            forall|y: int| #![trigger items@[y]]
                0 <= y < x ==> {
                    let pk = spec_primary_key(T::spec_table(), ids@[y].0);
                    items@[y].id == ids@[y] && (forall|v: T|
                        store.contents().index(pk) == v.spec_bytes() && v.spec_encodable()
                            ==> items@[y].value == v)
                },
        decreases found@.len() - x,
    {
        match &found[x] {
            Some(bytes) => match T::from_bytes(bytes.as_slice()) {
                Ok(value) => items.push(WithId { id: ids[x], value }),
                Err(e) => {
                    proof {
                        let gx = x as int;
                        let pk = spec_primary_key(T::spec_table(), ids@[gx].0);
                        assert(store.contents().dom().contains(pk) && (forall|v: T|
                            v.spec_encodable() ==> store.contents().index(pk)
                                != v.spec_bytes()));
                    }
                    return Err(e);
                },
            },
            None => {
                proof {
                    // Every requested entry was found present above.
                    assert(false);
                }
                return Err(Error::Encoding);
            },
        }
        x += 1;
    }
    Ok(items)
}

/// Looks a record up by the value of one of its unique slots: a point
/// lookup of the unique-index entry yields the identifier, then the
/// record itself is read. Fails with `NotFound` when the index entry is
/// absent, or when it dangles; with `MalformedKey` when the entry does
/// not hold the 16 identifier bytes.
///
/// The contract speaks of the stored entries alone: that the returned
/// record's own value for `index` equals the queried value holds of
/// stores maintained through `create`/`update`/`delete`, whose batches
/// keep index entries and records consistent, but is not stated here,
/// since the store may hold entries written outside that protocol.
pub fn get_by_unique_index<T: Table>(store: &Store, index: u8, value: &[u8]) -> (r: Result<
    WithId<T>,
    Error,
>)
    ensures
        ({
            let m = store.contents();
            let uk = spec_unique_key(T::spec_table(), index, value@);
            match r {
                Ok(w) => m.dom().contains(uk) && m[uk].len() == 16 && w.id.0 == be16_val(m[uk])
                    && {
                    let pk = spec_primary_key(T::spec_table(), w.id.0);
                    m.dom().contains(pk) && (forall|v: T|
                        m[pk] == v.spec_bytes() && v.spec_encodable() ==> w.value == v)
                },
                Err(e) => (e == Error::NotFound <==> (!m.dom().contains(uk) || (m[uk].len() == 16
                    && !m.dom().contains(
                    spec_primary_key(T::spec_table(), be16_val(m[uk])),
                )))) && (e == Error::MalformedKey <==> m.dom().contains(uk) && m[uk].len() != 16)
                    && (e == Error::NotFound || e == Error::MalformedKey || e == Error::Encoding)
                    && (e == Error::Encoding ==> m.dom().contains(uk) && m[uk].len() == 16 && {
                    let pk = spec_primary_key(T::spec_table(), be16_val(m[uk]));
                    m.dom().contains(pk) && (forall|v: T|
                        v.spec_encodable() ==> m[pk] != v.spec_bytes())
                }),
            }
        }),
{
    let key = unique_key(T::table(), index, value);
    match store.get(key.as_slice()) {
        None => Err(Error::NotFound),
        Some(idb) => match crate::keys::id_from_slice(idb.as_slice()) {
            Err(e) => Err(e),
            Ok(id) => get::<T>(store, id),
        },
    }
}

/// Removes the record stored under `id`: reads it, then commits one
/// atomic batch removing the primary entry and every index entry the
/// record owns. Fails with `NotFound` exactly when the record is
/// absent.
pub fn delete<T: Table>(store: &mut Store, id: Id) -> (r: Result<(), Error>)
    ensures
        ({
            let m0 = old(store).contents();
            let pk = spec_primary_key(T::spec_table(), id.0);
            match r {
                Ok(()) => m0.dom().contains(pk) && (exists|prev: T|
                    final(store).contents() == apply_ops(
                        m0,
                        #[trigger] delete_ops::<T>(prev, id.0),
                    )) && (forall|prev: T|
                    m0[pk] == prev.spec_bytes() && prev.spec_encodable() ==> final(store).contents()
                        == apply_ops(m0, #[trigger] delete_ops::<T>(prev, id.0))),
                Err(e) => final(store).contents() == m0 && (e == Error::NotFound <==> !m0.dom().contains(
                    pk,
                )) && (e == Error::NotFound || e == Error::Encoding) && (e == Error::Encoding
                    ==> forall|v: T| v.spec_encodable() ==> m0[pk] != v.spec_bytes()),
            }
        }),
{
    let item = match get::<T>(store, id) {
        Ok(w) => w,
        Err(e) => {
            return Err(e);
        },
    };
    let prev = item.value;
    let key = primary_key(T::table(), id);
    let mut batch = Batch::new();
    batch.delete(key);

    let ghost head = seq![OpView::Delete(spec_primary_key(T::spec_table(), id.0))];
    proof {
        assert(batch@ =~= head);
        assert(head.add(unique_del_ops::<T>(prev, 0)) =~= head);
    }

    let slots = T::unique_slots();
    let mut i: usize = 0;
    while i < slots.len()
        invariant
            slots@ == T::spec_unique_slots(),
            i <= slots@.len(),
            batch@ == head.add(unique_del_ops::<T>(prev, i as int)),
        decreases slots@.len() - i,
    {
        let value = prev.unique_value(slots[i]);
        let ukey = unique_key(T::table(), slots[i], value.as_slice());
        batch.delete(ukey);
        proof {
            assert(batch@ =~= head.add(unique_del_ops::<T>(prev, i + 1)));
        }
        i += 1;
    }

    let ghost mid = head.add(unique_del_ops::<T>(prev, T::spec_unique_slots().len() as int));
    proof {
        assert(mid.add(non_unique_del_ops::<T>(prev, id.0, 0)) =~= mid);
    }

    let nslots = T::non_unique_slots();
    let mut j: usize = 0;
    while j < nslots.len()
        invariant
            nslots@ == T::spec_non_unique_slots(),
            j <= nslots@.len(),
            batch@ == mid.add(non_unique_del_ops::<T>(prev, id.0, j as int)),
        decreases nslots@.len() - j,
    {
        let value = prev.non_unique_value(nslots[j]);
        let nkey = non_unique_key(T::table(), nslots[j], value.as_slice(), id);
        batch.delete(nkey);
        proof {
            assert(batch@ =~= mid.add(non_unique_del_ops::<T>(prev, id.0, j + 1)));
        }
        j += 1;
    }

    proof {
        assert(batch@ =~= delete_ops::<T>(prev, id.0));
    }
    store.write(batch);
    proof {
        assert forall|p: T|
            old(store).contents()[spec_primary_key(T::spec_table(), id.0)] == p.spec_bytes()
                && p.spec_encodable() implies store.contents() == apply_ops(
            old(store).contents(),
            #[trigger] delete_ops::<T>(p, id.0),
        ) by {
            assert(p == prev);
        }
    }
    Ok(())
}

/// Checks that no declared unique slot of `item` maps to an entry owned
/// by a record other than `id`.
fn check_unique_other<T: Table>(store: &Store, item: &T, id: Id) -> (r: Result<(), Error>)
    ensures
        match r {
            Ok(()) => !unique_conflict_other::<T>(store.contents(), *item, id.0),
            Err(e) => e == Error::AlreadyExists && unique_conflict_other::<T>(
                store.contents(),
                *item,
                id.0,
            ),
        },
{
    let slots = T::unique_slots();
    let idb = id.to_be_bytes();
    let mut i: usize = 0;
    while i < slots.len()
        invariant
            slots@ == T::spec_unique_slots(),
            idb@ == u128_be(id.0),
            i <= slots@.len(),
            forall|j: int|
                0 <= j < i ==> {
                    let k = spec_unique_key(
                        T::spec_table(),
                        #[trigger] T::spec_unique_slots()[j],
                        item.spec_unique_value(T::spec_unique_slots()[j]),
                    );
                    !(store.contents().dom().contains(k) && store.contents()[k] != u128_be(id.0))
                },
        decreases slots@.len() - i,
    {
        let value = item.unique_value(slots[i]);
        let key = unique_key(T::table(), slots[i], value.as_slice());
        match store.get(key.as_slice()) {
            Some(v) => {
                if !crate::bytes::bytes_eq(v.as_slice(), idb.as_slice()) {
                    proof {
                        let gi = i as int;
                        let k = spec_unique_key(
                            T::spec_table(),
                            T::spec_unique_slots()[gi],
                            item.spec_unique_value(T::spec_unique_slots()[gi]),
                        );
                        assert(store.contents().dom().contains(k) && store.contents()[k]
                            != u128_be(id.0));
                    }
                    return Err(Error::AlreadyExists);
                }
            },
            None => {},
        }
        i += 1;
    }
    Ok(())
}

/// Replaces the record stored under `id` with `item`: reads the stored
/// record, checks unique slots against entries owned by other records,
/// and commits one atomic batch replacing the primary value and exactly
/// the index entries whose computed value differs; unchanged slots are
/// never touched.
pub fn update<T: Table>(item: &T, store: &mut Store, id: Id) -> (r: Result<(), Error>)
    ensures
        ({
            let m0 = old(store).contents();
            let pk = spec_primary_key(T::spec_table(), id.0);
            match r {
                Ok(()) => m0.dom().contains(pk) && item.spec_encodable()
                    && !unique_conflict_other::<T>(m0, *item, id.0) && (exists|prev: T|
                    final(store).contents() == apply_ops(
                        m0,
                        #[trigger] update_ops::<T>(prev, *item, id.0),
                    )) && (forall|prev: T|
                    m0[pk] == prev.spec_bytes() && prev.spec_encodable() ==> final(store).contents()
                        == apply_ops(m0, #[trigger] update_ops::<T>(prev, *item, id.0))),
                Err(e) => final(store).contents() == m0 && (e == Error::NotFound
                    <==> !m0.dom().contains(pk)) && (e == Error::AlreadyExists
                    ==> unique_conflict_other::<T>(m0, *item, id.0)) && (m0.dom().contains(pk)
                    && unique_conflict_other::<T>(m0, *item, id.0) && (exists|prev: T|
                    m0[pk] == prev.spec_bytes() && prev.spec_encodable()) ==> e
                    == Error::AlreadyExists) && (e == Error::NotFound || e == Error::AlreadyExists
                    || e == Error::Encoding) && (e == Error::Encoding ==> !item.spec_encodable()
                    || (forall|v: T| v.spec_encodable() ==> m0[pk] != v.spec_bytes())),
            }
        }),
{
    let previous = match get::<T>(store, id) {
        Ok(w) => w,
        Err(e) => {
            return Err(e);
        },
    };
    let prev = previous.value;
    if let Err(e) = check_unique_other(store, item, id) {
        return Err(e);
    }
    let serialized = match item.to_bytes() {
        Ok(b) => b,
        Err(e) => {
            return Err(e);
        },
    };
    let mut batch = Batch::new();
    let key = primary_key(T::table(), id);
    batch.put(key, serialized);

    let ghost head = seq![OpView::Put(spec_primary_key(T::spec_table(), id.0), item.spec_bytes())];
    proof {
        assert(batch@ =~= head);
        assert(head.add(unique_upd_ops::<T>(prev, *item, id.0, 0)) =~= head);
    }

    let slots = T::unique_slots();
    let mut i: usize = 0;
    while i < slots.len()
        invariant
            slots@ == T::spec_unique_slots(),
            i <= slots@.len(),
            batch@ == head.add(unique_upd_ops::<T>(prev, *item, id.0, i as int)),
        decreases slots@.len() - i,
    {
        let pv = prev.unique_value(slots[i]);
        let nv = item.unique_value(slots[i]);
        if !crate::bytes::bytes_eq(nv.as_slice(), pv.as_slice()) {
            let pkey = unique_key(T::table(), slots[i], pv.as_slice());
            let nkey = unique_key(T::table(), slots[i], nv.as_slice());
            batch.delete(pkey);
            batch.put(nkey, id.to_be_bytes());
        }
        proof {
            assert(batch@ =~= head.add(unique_upd_ops::<T>(prev, *item, id.0, i + 1)));
        }
        i += 1;
    }

    let ghost mid = head.add(
        unique_upd_ops::<T>(prev, *item, id.0, T::spec_unique_slots().len() as int),
    );
    proof {
        assert(mid.add(non_unique_upd_ops::<T>(prev, *item, id.0, 0)) =~= mid);
    }

    let nslots = T::non_unique_slots();
    let mut j: usize = 0;
    while j < nslots.len()
        invariant
            nslots@ == T::spec_non_unique_slots(),
            j <= nslots@.len(),
            batch@ == mid.add(non_unique_upd_ops::<T>(prev, *item, id.0, j as int)),
        decreases nslots@.len() - j,
    {
        let pv = prev.non_unique_value(nslots[j]);
        let nv = item.non_unique_value(nslots[j]);
        if !crate::bytes::bytes_eq(nv.as_slice(), pv.as_slice()) {
            let pkey = non_unique_key(T::table(), nslots[j], pv.as_slice(), id);
            let nkey = non_unique_key(T::table(), nslots[j], nv.as_slice(), id);
            batch.delete(pkey);
            batch.put(nkey, Vec::new());
        }
        proof {
            assert(batch@ =~= mid.add(non_unique_upd_ops::<T>(prev, *item, id.0, j + 1)));
        }
        j += 1;
    }

    proof {
        assert(batch@ =~= update_ops::<T>(prev, *item, id.0));
    }
    store.write(batch);
    proof {
        assert forall|p: T|
            old(store).contents()[spec_primary_key(T::spec_table(), id.0)] == p.spec_bytes()
                && p.spec_encodable() implies store.contents() == apply_ops(
            old(store).contents(),
            #[trigger] update_ops::<T>(p, *item, id.0),
        ) by {
            assert(p == prev);
        }
    }
    Ok(())
}

/// Every record of the scan decodes a stored primary entry of the
/// table, under its own identifier.
pub open spec fn table_scan_sound<T: Table>(m: Map<Seq<u8>, Seq<u8>>, ws: Seq<WithId<T>>) -> bool {
    forall|i: int| #![trigger ws[i]]
        0 <= i < ws.len() ==> {
            let pk = spec_primary_key(T::spec_table(), ws[i].id.0);
            m.dom().contains(pk) && (forall|v: T|
                m[pk] == v.spec_bytes() && v.spec_encodable() ==> ws[i].value == v)
        }
}

/// Every stored primary entry of the table appears in the scan.
pub open spec fn table_scan_complete<T: Table>(
    m: Map<Seq<u8>, Seq<u8>>,
    ws: Seq<WithId<T>>,
) -> bool {
    forall|id: u128|
        m.dom().contains(#[trigger] spec_primary_key(T::spec_table(), id)) ==> exists|i: int|
            0 <= i < ws.len() && #[trigger] ws[i].id.0 == id
}

/// The identifiers come in strictly ascending byte order, the order of
/// their big-endian encodings and so of the primary keys.
pub open spec fn ids_ascending<T: Table>(ws: Seq<WithId<T>>) -> bool {
    forall|i: int, j: int|
        0 <= i < j < ws.len() ==> lex_lt(u128_be(ws[i].id.0), u128_be(ws[j].id.0))
}

/// Every record of a non-unique lookup was named by a stored index
/// entry carrying the scanned prefix, and decodes its primary entry.
pub open spec fn non_unique_scan_sound<T: Table>(
    m: Map<Seq<u8>, Seq<u8>>,
    p: Seq<u8>,
    ws: Seq<WithId<T>>,
) -> bool {
    forall|i: int| #![trigger ws[i]]
        0 <= i < ws.len() ==> (exists|k: Seq<u8>|
            m.dom().contains(k) && #[trigger] is_prefix(p, k) && k.len() >= 21 && k.subrange(
                k.len() - 16,
                k.len() as int,
            ) == u128_be(ws[i].id.0)) && {
            let pk = spec_primary_key(T::spec_table(), ws[i].id.0);
            m.dom().contains(pk) && (forall|v: T|
                m[pk] == v.spec_bytes() && v.spec_encodable() ==> ws[i].value == v)
        }
}

/// Every stored index entry carrying the scanned prefix named one of
/// the records of a non-unique lookup.
pub open spec fn non_unique_scan_complete<T: Table>(
    m: Map<Seq<u8>, Seq<u8>>,
    p: Seq<u8>,
    ws: Seq<WithId<T>>,
) -> bool {
    forall|k: Seq<u8>|
        m.dom().contains(k) && #[trigger] is_prefix(p, k) ==> exists|i: int|
            0 <= i < ws.len() && u128_be(#[trigger] ws[i].id.0) == k.subrange(
                k.len() - 16,
                k.len() as int,
            )
}

/// Starts a lazy walk of every record of the table, in ascending
/// identifier-byte order.
pub fn iter<'a, T: Table>(store: &'a Store) -> (it: crate::iter::Items<'a, T>)
    ensures
        it.wf_for(*store),
        it.cursor() == spec_key_prefix(T::spec_table(), 0),
        !it.exhausted(),
{
    crate::iter::Items::new(store)
}

/// Reads every record of the table, in ascending identifier-byte
/// order: a drained prefix scan of the primary index, decoded record
/// by record, propagating the first failure.
#[verifier::rlimit(60)]
#[verifier::spinoff_prover]
pub fn all<T: Table>(store: &Store) -> (r: Result<Vec<WithId<T>>, Error>)
    ensures
        ({
            let m = store.contents();
            let p = spec_key_prefix(T::spec_table(), 0);
            match r {
                Ok(ws) => table_scan_sound::<T>(m, ws@) && table_scan_complete::<T>(m, ws@)
                    && ids_ascending::<T>(ws@),
                Err(e) => (e == Error::MalformedKey || e == Error::Encoding) && (e
                    == Error::MalformedKey ==> exists|k: Seq<u8>|
                    m.dom().contains(k) && #[trigger] is_prefix(p, k) && k.len() != 21) && (e
                    == Error::Encoding ==> exists|k: Seq<u8>|
                    m.dom().contains(k) && #[trigger] is_prefix(p, k) && k.len() == 21 && (forall|
                        v: T,
                    |
                        v.spec_encodable() ==> m[k] != v.spec_bytes())),
            }
        }),
{
    let ghost m = store.contents();
    let ghost p = spec_key_prefix(T::spec_table(), 0);
    let ghost t = T::spec_table();
    let prefix = key_prefix(T::table(), 0);
    let pairs = crate::iter::collect_prefix(store, prefix);
    let mut ws: Vec<WithId<T>> = Vec::new();
    let mut i: usize = 0;
    while i < pairs.len()
        invariant
            m == store.contents(),
            p == spec_key_prefix(t, 0),
            t == T::spec_table(),
            i <= pairs@.len(),
            ws@.len() == i,
            forall|x: int| #![trigger pairs@[x]]
                0 <= x < pairs@.len() ==> m.dom().contains(pairs@[x].0@) && m[pairs@[x].0@]
                    == pairs@[x].1@ && is_prefix(p, pairs@[x].0@),
            forall|x: int, y: int| 0 <= x < y < pairs@.len() ==> lex_lt(pairs@[x].0@, pairs@[y].0@),
            forall|k: Seq<u8>|
                m.dom().contains(k) && is_prefix(p, k) ==> exists|x: int|
                    0 <= x < pairs@.len() && #[trigger] pairs@[x].0@ == k,
            forall|x: int| #![trigger ws@[x]] #![trigger pairs@[x]]
                0 <= x < i ==> pairs@[x].0@.len() == 21 && ws@[x].id.0 == be16_val(
                    pairs@[x].0@.subrange(5, 21),
                ) && (forall|v: T|
                    m[pairs@[x].0@] == v.spec_bytes() && v.spec_encodable() ==> ws@[x].value == v),
        decreases pairs@.len() - i,
    {
        match crate::iter::decode_item::<T>(pairs[i].0.as_slice(), pairs[i].1.as_slice()) {
            Ok(w) => {
                ws.push(w);
                proof {
                    let gi = i as int;
                    assert(pairs@[gi].0@.len() == 21 && ws@[gi].id.0 == be16_val(
                        pairs@[gi].0@.subrange(5, 21),
                    ));
                    assert(m[pairs@[gi].0@] == pairs@[gi].1@);
                    assert(forall|v: T|
                        m[pairs@[gi].0@] == v.spec_bytes() && v.spec_encodable() ==> ws@[gi].value
                            == v);
                }
            },
            Err(e) => {
                proof {
                    let gi = i as int;
                    if e == Error::MalformedKey {
                        assert(m.dom().contains(pairs@[gi].0@) && is_prefix(p, pairs@[gi].0@)
                            && pairs@[gi].0@.len() != 21);
                    } else {
                        assert(m.dom().contains(pairs@[gi].0@) && is_prefix(p, pairs@[gi].0@)
                            && pairs@[gi].0@.len() == 21 && (forall|v: T|
                            v.spec_encodable() ==> m[pairs@[gi].0@] != v.spec_bytes()));
                    }
                }
                return Err(e);
            },
        }
        i += 1;
    }
    proof {
        assert forall|i2: int| #![trigger ws@[i2]] 0 <= i2 < ws@.len() implies pairs@[i2].0@
            == spec_primary_key(T::spec_table(), ws@[i2].id.0) by {
            let k = pairs@[i2].0@;
            crate::id::lemma_be16_val_bytes(k.subrange(5, 21));
            assert(k =~= p.add(k.subrange(5, 21)));
        }
        assert forall|i2: int| #![trigger ws@[i2]] 0 <= i2 < ws@.len() implies ({
            let pk = spec_primary_key(T::spec_table(), ws@[i2].id.0);
            m.dom().contains(pk) && (forall|v: T|
                m[pk] == v.spec_bytes() && v.spec_encodable() ==> ws@[i2].value == v)
        }) by {
            assert(pairs@[i2].0@ == spec_primary_key(T::spec_table(), ws@[i2].id.0));
            assert(m.dom().contains(pairs@[i2].0@));
        }
        assert forall|id: u128|
            m.dom().contains(#[trigger] spec_primary_key(T::spec_table(), id)) implies exists|
            x: int,
        |
            0 <= x < ws@.len() && #[trigger] ws@[x].id.0 == id by {
            crate::keys::lemma_prefix_extends(t, 0, u128_be(id));
            let x = choose|x: int| 0 <= x < pairs@.len() && #[trigger] pairs@[x].0@
                == spec_primary_key(t, id);
            assert(spec_primary_key(t, ws@[x].id.0) == spec_primary_key(t, id));
            lemma_prefixed_key_injective(t, 0, u128_be(ws@[x].id.0), t, 0, u128_be(id));
            crate::id::lemma_u128_be_injective(ws@[x].id.0, id);
        }
        assert forall|x: int, y: int| 0 <= x < y < ws@.len() implies lex_lt(
            u128_be(ws@[x].id.0),
            u128_be(ws@[y].id.0),
        ) by {
            let a = u128_be(ws@[x].id.0);
            let b = u128_be(ws@[y].id.0);
            assert(pairs@[x].0@ == spec_primary_key(T::spec_table(), ws@[x].id.0));
            assert(pairs@[y].0@ == spec_primary_key(T::spec_table(), ws@[y].id.0));
            assert(lex_lt(pairs@[x].0@, pairs@[y].0@));
            crate::bytes::lemma_lex_append(p, a, b);
            if a == b {
                assert(pairs@[x].0@ == pairs@[y].0@);
            }
        }
        assert(table_scan_sound::<T>(m, ws@));
        assert(table_scan_complete::<T>(m, ws@));
        assert(ids_ascending::<T>(ws@));
    }
    Ok(ws)
}

/// Looks up every record whose value for a non-unique slot matches: a
/// prefix scan over the slot's entries yields the identifiers, whose
/// records are then read in one batch. The answer follows the index's
/// key order: ascending by identifier among records sharing the value.
/// When every scanned key carries exactly the queried value (equal
/// lengths), the lookup's answer follows the index's key order:
/// ascending by identifier bytes.
#[verifier::rlimit(60)]
#[verifier::spinoff_prover]
proof fn lemma_scan_ids_ascending<T: Table>(
    m: Map<Seq<u8>, Seq<u8>>,
    p: Seq<u8>,
    pairs: Seq<(Vec<u8>, Vec<u8>)>,
    ids: Seq<Id>,
    ws: Seq<WithId<T>>,
)
    requires
        forall|x: int| #![trigger pairs[x]]
            0 <= x < pairs.len() ==> m.dom().contains(pairs[x].0@) && is_prefix(p, pairs[x].0@),
        forall|x: int, y: int| 0 <= x < y < pairs.len() ==> lex_lt(pairs[x].0@, pairs[y].0@),
        ids.len() == pairs.len(),
        forall|x: int| #![trigger ids[x]]
            0 <= x < ids.len() ==> pairs[x].0@.len() >= 21 && ids[x].0 == be16_val(
                pairs[x].0@.subrange(pairs[x].0@.len() - 16, pairs[x].0@.len() as int),
            ),
        ws.len() == ids.len(),
        forall|x: int| #![trigger ws[x]] 0 <= x < ws.len() ==> ws[x].id == ids[x],
        forall|k: Seq<u8>|
            m.dom().contains(k) && #[trigger] is_prefix(p, k) ==> k.len() == p.len() + 16,
    ensures
        ids_ascending::<T>(ws),
{
    assert forall|i2: int, j2: int| 0 <= i2 < j2 < ws.len() implies lex_lt(
        u128_be(ws[i2].id.0),
        u128_be(ws[j2].id.0),
    ) by {
        let ki = pairs[i2].0@;
        let kj = pairs[j2].0@;
        assert(m.dom().contains(ki) && is_prefix(p, ki));
        assert(m.dom().contains(kj) && is_prefix(p, kj));
        assert(ki.len() == p.len() + 16 && kj.len() == p.len() + 16);
        assert(ws[i2].id == ids[i2] && ws[j2].id == ids[j2]);
        crate::id::lemma_be16_val_bytes(ki.subrange(ki.len() - 16, ki.len() as int));
        crate::id::lemma_be16_val_bytes(kj.subrange(kj.len() - 16, kj.len() as int));
        let a = u128_be(ws[i2].id.0);
        let b = u128_be(ws[j2].id.0);
        assert(ki =~= p.add(a)) by {
            assert(forall|x: int|
                0 <= x < p.len() ==> ki.subrange(0, p.len() as int)[x] == #[trigger] ki[x]);
            assert(forall|x: int|
                0 <= x < 16 ==> #[trigger] ki.subrange(ki.len() - 16, ki.len() as int)[x]
                    == ki.index(p.len() + x));
        }
        assert(kj =~= p.add(b)) by {
            assert(forall|x: int|
                0 <= x < p.len() ==> kj.subrange(0, p.len() as int)[x] == #[trigger] kj[x]);
            assert(forall|x: int|
                0 <= x < 16 ==> #[trigger] kj.subrange(kj.len() - 16, kj.len() as int)[x]
                    == kj.index(p.len() + x));
        }
        assert(lex_lt(ki, kj));
        crate::bytes::lemma_lex_append(p, a, b);
        if a == b {
            assert(ki == kj);
        }
    }
}

#[verifier::rlimit(60)]
#[verifier::spinoff_prover]
pub fn get_by_non_unique_index<T: Table>(store: &Store, index: u8, value: &[u8]) -> (r: Result<
    Vec<WithId<T>>,
    Error,
>)
    ensures
        ({
            let m = store.contents();
            let p = spec_non_unique_prefix(T::spec_table(), index, value@);
            match r {
                Ok(ws) => (forall|k: Seq<u8>|
                    m.dom().contains(k) && #[trigger] is_prefix(p, k) ==> k.len() >= 21)
                    && non_unique_scan_sound::<T>(m, p, ws@) && non_unique_scan_complete::<T>(
                    m,
                    p,
                    ws@,
                ) && ((forall|k: Seq<u8>|
                    m.dom().contains(k) && #[trigger] is_prefix(p, k) ==> k.len() == p.len() + 16)
                    ==> ids_ascending::<T>(ws@)),
                Err(e) => {
                    &&& (e == Error::NotFound || e == Error::MalformedKey || e == Error::Encoding)
                    &&& (e == Error::MalformedKey <==> exists|k: Seq<u8>|
                        m.dom().contains(k) && #[trigger] is_prefix(p, k) && k.len() < 21)
                    &&& (e == Error::NotFound ==> exists|k: Seq<u8>|
                        m.dom().contains(k) && #[trigger] is_prefix(p, k) && k.len() >= 21
                            && !m.dom().contains(
                            spec_primary_key(
                                T::spec_table(),
                                be16_val(k.subrange(k.len() - 16, k.len() as int)),
                            ),
                        ))
                    &&& (e == Error::Encoding ==> exists|k: Seq<u8>|
                        m.dom().contains(k) && #[trigger] is_prefix(p, k) && k.len() >= 21 && {
                            let pk2 = spec_primary_key(
                                T::spec_table(),
                                be16_val(k.subrange(k.len() - 16, k.len() as int)),
                            );
                            m.dom().contains(pk2) && (forall|v: T|
                                v.spec_encodable() ==> m[pk2] != v.spec_bytes())
                        })
                },
            }
        }),
{
    let ghost m = store.contents();
    let prefix = non_unique_prefix(T::table(), index, value);
    let ghost p = prefix@;
    let pairs = crate::iter::collect_prefix(store, prefix);
    let mut ids: Vec<Id> = Vec::new();
    let mut i: usize = 0;
    while i < pairs.len()
        invariant
            m == store.contents(),
            p == spec_non_unique_prefix(T::spec_table(), index, value@),
            i <= pairs@.len(),
            ids@.len() == i,
            forall|x: int| #![trigger pairs@[x]]
                0 <= x < pairs@.len() ==> m.dom().contains(pairs@[x].0@) && m[pairs@[x].0@]
                    == pairs@[x].1@ && is_prefix(p, pairs@[x].0@),
            forall|x: int, y: int| 0 <= x < y < pairs@.len() ==> lex_lt(pairs@[x].0@, pairs@[y].0@),
            forall|k: Seq<u8>|
                m.dom().contains(k) && is_prefix(p, k) ==> exists|x: int|
                    0 <= x < pairs@.len() && #[trigger] pairs@[x].0@ == k,
            forall|x: int| #![trigger ids@[x]] #![trigger pairs@[x]]
                0 <= x < i ==> pairs@[x].0@.len() >= 21 && ids@[x].0 == be16_val(
                    pairs@[x].0@.subrange(pairs@[x].0@.len() - 16, pairs@[x].0@.len() as int),
                ),
        decreases pairs@.len() - i,
    {
        match crate::keys::id_from_non_unique_key(pairs[i].0.as_slice()) {
            Ok(id) => {
                ids.push(id);
                proof {
                    let gi = i as int;
                    assert(pairs@[gi].0@.len() >= 21 && ids@[gi].0 == be16_val(
                        pairs@[gi].0@.subrange(
                            pairs@[gi].0@.len() - 16,
                            pairs@[gi].0@.len() as int,
                        ),
                    ));
                }
            },
            Err(e) => {
                proof {
                    let gi = i as int;
                    assert(m.dom().contains(pairs@[gi].0@) && is_prefix(p, pairs@[gi].0@)
                        && pairs@[gi].0@.len() < 21);
                }
                return Err(e);
            },
        }
        i += 1;
    }
    proof {
        assert forall|k: Seq<u8>| m.dom().contains(k) && #[trigger] is_prefix(p, k) implies k.len()
            >= 21 by {
            let x = choose|x: int| 0 <= x < pairs@.len() && #[trigger] pairs@[x].0@ == k;
            assert(ids@[x].0 == be16_val(
                pairs@[x].0@.subrange(pairs@[x].0@.len() - 16, pairs@[x].0@.len() as int),
            ) && pairs@[x].0@.len() >= 21);
        }
    }
    match get_many::<T>(store, ids.as_slice()) {
        Ok(ws) => {
            proof {
                assert forall|k: Seq<u8>|
                    m.dom().contains(k) && #[trigger] is_prefix(p, k) implies exists|i2: int|
                    0 <= i2 < ws@.len() && u128_be(#[trigger] ws@[i2].id.0) == k.subrange(
                        k.len() - 16,
                        k.len() as int,
                    ) by {
                    let x = choose|x: int| 0 <= x < pairs@.len() && #[trigger] pairs@[x].0@ == k;
                    assert(ws@[x].id == ids@[x]);
                    crate::id::lemma_be16_val_bytes(k.subrange(k.len() - 16, k.len() as int));
                    assert(u128_be(ws@[x].id.0) == k.subrange(k.len() - 16, k.len() as int));
                }
                assert forall|i2: int| #![trigger ws@[i2]] 0 <= i2 < ws@.len() implies (exists|
                    k: Seq<u8>,
                |
                    m.dom().contains(k) && #[trigger] is_prefix(p, k) && k.len() >= 21
                        && k.subrange(k.len() - 16, k.len() as int) == u128_be(ws@[i2].id.0)) by {
                    assert(ws@[i2].id == ids@[i2]);
                    let k = pairs@[i2].0@;
                    crate::id::lemma_be16_val_bytes(k.subrange(k.len() - 16, k.len() as int));
                    assert(m.dom().contains(k) && is_prefix(p, k) && k.len() >= 21 && k.subrange(
                        k.len() - 16,
                        k.len() as int,
                    ) == u128_be(ws@[i2].id.0));
                }
                assert(non_unique_scan_sound::<T>(m, p, ws@));
                assert(non_unique_scan_complete::<T>(m, p, ws@));
                if forall|k: Seq<u8>|
                    m.dom().contains(k) && #[trigger] is_prefix(p, k) ==> k.len() == p.len()
                        + 16 {
                    assert(forall|x: int| #![trigger ws@[x]]
                        0 <= x < ws@.len() ==> ws@[x].id == ids@[x]);
                    lemma_scan_ids_ascending::<T>(m, p, pairs@, ids@, ws@);
                }
            }
            Ok(ws)
        },
        Err(e) => {
            proof {
                if e == Error::NotFound {
                    let x = choose|x: int|
                        0 <= x < ids@.len() && !m.dom().contains(
                            #[trigger] spec_primary_key(T::spec_table(), ids@[x].0),
                        );
                    let k = pairs@[x].0@;
                    assert(m.dom().contains(k) && is_prefix(p, k) && k.len() >= 21
                        && !m.dom().contains(
                        spec_primary_key(
                            T::spec_table(),
                            be16_val(k.subrange(k.len() - 16, k.len() as int)),
                        ),
                    )) by {
                        crate::id::lemma_u128_be_val(ids@[x].0);
                    }
                }
                if e == Error::Encoding {
                    let x = choose|x: int|
                        0 <= x < ids@.len() && {
                            let pk2 = #[trigger] spec_primary_key(T::spec_table(), ids@[x].0);
                            m.dom().contains(pk2) && (forall|v: T|
                                v.spec_encodable() ==> m[pk2] != v.spec_bytes())
                        };
                    let k = pairs@[x].0@;
                    assert(m.dom().contains(k) && is_prefix(p, k) && k.len() >= 21 && {
                        let pk2 = spec_primary_key(
                            T::spec_table(),
                            be16_val(k.subrange(k.len() - 16, k.len() as int)),
                        );
                        m.dom().contains(pk2) && (forall|v: T|
                            v.spec_encodable() ==> m[pk2] != v.spec_bytes())
                    });
                }
            }
            Err(e)
        },
    }
}


/// Round trip: after a create commits record `r` under identifier
/// `id`, the primary entry holds exactly `r`'s serialized form, so by
/// the contract of `get`, reading `id` back yields `r` unchanged.
pub proof fn lemma_create_round_trip<T: Table>(m: Map<Seq<u8>, Seq<u8>>, r: T, id: u128)
    requires
        spec_valid_schema::<T>(),
    ensures
        ({
            let m1 = apply_ops(m, create_ops::<T>(r, id));
            let pk = spec_primary_key(T::spec_table(), id);
            m1.dom().contains(pk) && m1[pk] == r.spec_bytes()
        }),
{
    let pk = spec_primary_key(T::spec_table(), id);
    lemma_create_effect::<T>(r, id, pk);
    lemma_apply_ops_at(m, create_ops::<T>(r, id), pk);
}

/// Unique slots stay unique: after a create commits record `r1`, any
/// record sharing the computed value of a declared unique slot is in
/// conflict, so by the contract of `create`, creating it fails with
/// `AlreadyExists` and leaves the store exactly as it was.
pub proof fn lemma_duplicate_unique_value_conflicts<T: Table>(
    m: Map<Seq<u8>, Seq<u8>>,
    r1: T,
    r2: T,
    id: u128,
    i: int,
)
    requires
        spec_valid_schema::<T>(),
        0 <= i < T::spec_unique_slots().len(),
        r2.spec_unique_value(T::spec_unique_slots()[i]) == r1.spec_unique_value(
            T::spec_unique_slots()[i],
        ),
    ensures
        unique_conflict::<T>(apply_ops(m, create_ops::<T>(r1, id)), r2),
{
    let t = T::spec_table();
    let s = T::spec_unique_slots()[i];
    let uk = spec_unique_key(t, s, r1.spec_unique_value(s));
    lemma_create_effect::<T>(r1, id, uk);
    lemma_apply_ops_at(m, create_ops::<T>(r1, id), uk);
    if uk == spec_primary_key(t, id) {
        lemma_prefixed_key_injective(t, s, r1.spec_unique_value(s), t, 0, u128_be(id));
    }
    assert(exists|j: int|
        0 <= j < T::spec_unique_slots().len() && uk == spec_unique_key(
            t,
            #[trigger] T::spec_unique_slots()[j],
            r1.spec_unique_value(T::spec_unique_slots()[j]),
        )) by {
        assert(uk == spec_unique_key(
            t,
            T::spec_unique_slots()[i],
            r1.spec_unique_value(T::spec_unique_slots()[i]),
        ));
    }
    assert(apply_ops(m, create_ops::<T>(r1, id)).dom().contains(uk));
    assert(spec_unique_key(t, T::spec_unique_slots()[i], r2.spec_unique_value(
        T::spec_unique_slots()[i],
    )) == uk);
}

/// An update never touches the unique-index entry of a slot whose
/// computed value is unchanged: that entry is neither removed nor
/// rewritten by the committed batch.
pub proof fn lemma_update_preserves_unchanged_unique_slot<T: Table>(
    m: Map<Seq<u8>, Seq<u8>>,
    prev: T,
    new: T,
    id: u128,
    i: int,
)
    requires
        spec_valid_schema::<T>(),
        0 <= i < T::spec_unique_slots().len(),
        new.spec_unique_value(T::spec_unique_slots()[i]) == prev.spec_unique_value(
            T::spec_unique_slots()[i],
        ),
    ensures
        ({
            let k = spec_unique_key(
                T::spec_table(),
                T::spec_unique_slots()[i],
                new.spec_unique_value(T::spec_unique_slots()[i]),
            );
            let m1 = apply_ops(m, update_ops::<T>(prev, new, id));
            m1.dom().contains(k) == m.dom().contains(k) && (m.dom().contains(k) ==> m1[k] == m[k])
        }),
{
    let t = T::spec_table();
    let s = T::spec_unique_slots()[i];
    let k = spec_unique_key(t, s, new.spec_unique_value(s));
    let head = seq![OpView::Put(spec_primary_key(t, id), new.spec_bytes())];
    let uops = unique_upd_ops::<T>(prev, new, id, T::spec_unique_slots().len() as int);
    let nops = non_unique_upd_ops::<T>(prev, new, id, T::spec_non_unique_slots().len() as int);
    lemma_ops_effect_add(head.add(uops), nops, k);
    lemma_ops_effect_add(head, uops, k);
    lemma_unique_upd_ops_effect::<T>(prev, new, id, T::spec_unique_slots().len() as int, k);
    lemma_non_unique_upd_ops_effect::<T>(prev, new, id, T::spec_non_unique_slots().len() as int, k);
    assert(head.drop_last() =~= Seq::<OpView>::empty());
    assert(ops_effect(Seq::<OpView>::empty(), k) == None::<Option<Seq<u8>>>);
    // The unchanged slot's key is not the primary key, not a changed
    // unique slot's key, and not a non-unique key.
    if k == spec_primary_key(t, id) {
        lemma_prefixed_key_injective(t, s, new.spec_unique_value(s), t, 0, u128_be(id));
    }
    if exists|j: int|
        0 <= j < T::spec_unique_slots().len() && new.spec_unique_value(
            #[trigger] T::spec_unique_slots()[j],
        ) != prev.spec_unique_value(T::spec_unique_slots()[j]) && k == spec_unique_key(
            t,
            T::spec_unique_slots()[j],
            new.spec_unique_value(T::spec_unique_slots()[j]),
        ) {
        let j = choose|j: int|
            0 <= j < T::spec_unique_slots().len() && new.spec_unique_value(
                #[trigger] T::spec_unique_slots()[j],
            ) != prev.spec_unique_value(T::spec_unique_slots()[j]) && k == spec_unique_key(
                t,
                T::spec_unique_slots()[j],
                new.spec_unique_value(T::spec_unique_slots()[j]),
            );
        lemma_prefixed_key_injective(
            t,
            T::spec_unique_slots()[j],
            new.spec_unique_value(T::spec_unique_slots()[j]),
            t,
            s,
            new.spec_unique_value(s),
        );
        assert(T::spec_unique_slots()[j] == s);
        assert(j == i) by {
            if j < i {
                assert(T::spec_unique_slots()[j] != T::spec_unique_slots()[i]);
            } else if i < j {
                assert(T::spec_unique_slots()[i] != T::spec_unique_slots()[j]);
            }
        }
        assert(false);
    }
    if exists|j: int|
        0 <= j < T::spec_unique_slots().len() && new.spec_unique_value(
            #[trigger] T::spec_unique_slots()[j],
        ) != prev.spec_unique_value(T::spec_unique_slots()[j]) && k == spec_unique_key(
            t,
            T::spec_unique_slots()[j],
            prev.spec_unique_value(T::spec_unique_slots()[j]),
        ) {
        let j = choose|j: int|
            0 <= j < T::spec_unique_slots().len() && new.spec_unique_value(
                #[trigger] T::spec_unique_slots()[j],
            ) != prev.spec_unique_value(T::spec_unique_slots()[j]) && k == spec_unique_key(
                t,
                T::spec_unique_slots()[j],
                prev.spec_unique_value(T::spec_unique_slots()[j]),
            );
        lemma_prefixed_key_injective(
            t,
            T::spec_unique_slots()[j],
            prev.spec_unique_value(T::spec_unique_slots()[j]),
            t,
            s,
            new.spec_unique_value(s),
        );
        assert(T::spec_unique_slots()[j] == s);
        assert(j == i) by {
            if j < i {
                assert(T::spec_unique_slots()[j] != T::spec_unique_slots()[i]);
            } else if i < j {
                assert(T::spec_unique_slots()[i] != T::spec_unique_slots()[j]);
            }
        }
        assert(false);
    }
    assert forall|j: int|
        0 <= j < T::spec_non_unique_slots().len() && new.spec_non_unique_value(
            #[trigger] T::spec_non_unique_slots()[j],
        ) != prev.spec_non_unique_value(T::spec_non_unique_slots()[j]) implies k
        != spec_non_unique_key(
        t,
        T::spec_non_unique_slots()[j],
        new.spec_non_unique_value(T::spec_non_unique_slots()[j]),
        id,
    ) && k != spec_non_unique_key(
        t,
        T::spec_non_unique_slots()[j],
        prev.spec_non_unique_value(T::spec_non_unique_slots()[j]),
        id,
    ) by {
        let sj = T::spec_non_unique_slots()[j];
        if k == spec_non_unique_key(t, sj, new.spec_non_unique_value(sj), id) {
            assert(spec_non_unique_key(t, sj, new.spec_non_unique_value(sj), id)
                == spec_unique_key(t, sj, new.spec_non_unique_value(sj).add(u128_be(id)))) by {
                assert(spec_non_unique_prefix(t, sj, new.spec_non_unique_value(sj)).add(
                    u128_be(id),
                ) =~= spec_key_prefix(t, sj).add(
                    new.spec_non_unique_value(sj).add(u128_be(id)),
                ));
            }
            lemma_prefixed_key_injective(
                t,
                sj,
                new.spec_non_unique_value(sj).add(u128_be(id)),
                t,
                s,
                new.spec_unique_value(s),
            );
        }
        if k == spec_non_unique_key(t, sj, prev.spec_non_unique_value(sj), id) {
            assert(spec_non_unique_key(t, sj, prev.spec_non_unique_value(sj), id)
                == spec_unique_key(t, sj, prev.spec_non_unique_value(sj).add(u128_be(id)))) by {
                assert(spec_non_unique_prefix(t, sj, prev.spec_non_unique_value(sj)).add(
                    u128_be(id),
                ) =~= spec_key_prefix(t, sj).add(
                    prev.spec_non_unique_value(sj).add(u128_be(id)),
                ));
            }
            lemma_prefixed_key_injective(
                t,
                sj,
                prev.spec_non_unique_value(sj).add(u128_be(id)),
                t,
                s,
                new.spec_unique_value(s),
            );
        }
    }
    lemma_apply_ops_at(m, update_ops::<T>(prev, new, id), k);
}


/// An update never touches the non-unique-index entry of a slot whose
/// computed value is unchanged: that entry is neither removed nor
/// rewritten by the committed batch.
pub proof fn lemma_update_preserves_unchanged_non_unique_slot<T: Table>(
    m: Map<Seq<u8>, Seq<u8>>,
    prev: T,
    new: T,
    id: u128,
    i: int,
)
    requires
        spec_valid_schema::<T>(),
        0 <= i < T::spec_non_unique_slots().len(),
        new.spec_non_unique_value(T::spec_non_unique_slots()[i]) == prev.spec_non_unique_value(
            T::spec_non_unique_slots()[i],
        ),
    ensures
        ({
            let k = spec_non_unique_key(
                T::spec_table(),
                T::spec_non_unique_slots()[i],
                new.spec_non_unique_value(T::spec_non_unique_slots()[i]),
                id,
            );
            let m1 = apply_ops(m, update_ops::<T>(prev, new, id));
            m1.dom().contains(k) == m.dom().contains(k) && (m.dom().contains(k) ==> m1[k] == m[k])
        }),
{
    let t = T::spec_table();
    let s = T::spec_non_unique_slots()[i];
    let k = spec_non_unique_key(t, s, new.spec_non_unique_value(s), id);
    let payload = new.spec_non_unique_value(s).add(u128_be(id));
    assert(k == spec_unique_key(t, s, payload)) by {
        assert(spec_non_unique_prefix(t, s, new.spec_non_unique_value(s)).add(u128_be(id))
            =~= spec_key_prefix(t, s).add(payload));
    }
    let head = seq![OpView::Put(spec_primary_key(t, id), new.spec_bytes())];
    let uops = unique_upd_ops::<T>(prev, new, id, T::spec_unique_slots().len() as int);
    let nops = non_unique_upd_ops::<T>(prev, new, id, T::spec_non_unique_slots().len() as int);
    lemma_ops_effect_add(head.add(uops), nops, k);
    lemma_ops_effect_add(head, uops, k);
    lemma_unique_upd_ops_effect::<T>(prev, new, id, T::spec_unique_slots().len() as int, k);
    lemma_non_unique_upd_ops_effect::<T>(prev, new, id, T::spec_non_unique_slots().len() as int, k);
    assert(head.drop_last() =~= Seq::<OpView>::empty());
    assert(ops_effect(Seq::<OpView>::empty(), k) == None::<Option<Seq<u8>>>);
    if k == spec_primary_key(t, id) {
        lemma_prefixed_key_injective(t, s, payload, t, 0, u128_be(id));
    }
    assert forall|j: int|
        0 <= j < T::spec_unique_slots().len() && new.spec_unique_value(
            #[trigger] T::spec_unique_slots()[j],
        ) != prev.spec_unique_value(T::spec_unique_slots()[j]) implies k != spec_unique_key(
        t,
        T::spec_unique_slots()[j],
        new.spec_unique_value(T::spec_unique_slots()[j]),
    ) && k != spec_unique_key(
        t,
        T::spec_unique_slots()[j],
        prev.spec_unique_value(T::spec_unique_slots()[j]),
    ) by {
        let sj = T::spec_unique_slots()[j];
        if k == spec_unique_key(t, sj, new.spec_unique_value(sj)) {
            lemma_prefixed_key_injective(t, s, payload, t, sj, new.spec_unique_value(sj));
        }
        if k == spec_unique_key(t, sj, prev.spec_unique_value(sj)) {
            lemma_prefixed_key_injective(t, s, payload, t, sj, prev.spec_unique_value(sj));
        }
    }
    assert forall|j: int|
        0 <= j < T::spec_non_unique_slots().len() && new.spec_non_unique_value(
            #[trigger] T::spec_non_unique_slots()[j],
        ) != prev.spec_non_unique_value(T::spec_non_unique_slots()[j]) implies k
        != spec_non_unique_key(
        t,
        T::spec_non_unique_slots()[j],
        new.spec_non_unique_value(T::spec_non_unique_slots()[j]),
        id,
    ) && k != spec_non_unique_key(
        t,
        T::spec_non_unique_slots()[j],
        prev.spec_non_unique_value(T::spec_non_unique_slots()[j]),
        id,
    ) by {
        let sj = T::spec_non_unique_slots()[j];
        let pj_new = new.spec_non_unique_value(sj).add(u128_be(id));
        let pj_prev = prev.spec_non_unique_value(sj).add(u128_be(id));
        if k == spec_non_unique_key(t, sj, new.spec_non_unique_value(sj), id) {
            assert(spec_non_unique_key(t, sj, new.spec_non_unique_value(sj), id)
                == spec_unique_key(t, sj, pj_new)) by {
                assert(spec_non_unique_prefix(t, sj, new.spec_non_unique_value(sj)).add(
                    u128_be(id),
                ) =~= spec_key_prefix(t, sj).add(pj_new));
            }
            lemma_prefixed_key_injective(t, s, payload, t, sj, pj_new);
            assert(sj == s);
            assert(j == i) by {
                if j < i {
                    assert(T::spec_non_unique_slots()[j] != T::spec_non_unique_slots()[i]);
                } else if i < j {
                    assert(T::spec_non_unique_slots()[i] != T::spec_non_unique_slots()[j]);
                }
            }
            assert(false);
        }
        if k == spec_non_unique_key(t, sj, prev.spec_non_unique_value(sj), id) {
            assert(spec_non_unique_key(t, sj, prev.spec_non_unique_value(sj), id)
                == spec_unique_key(t, sj, pj_prev)) by {
                assert(spec_non_unique_prefix(t, sj, prev.spec_non_unique_value(sj)).add(
                    u128_be(id),
                ) =~= spec_key_prefix(t, sj).add(pj_prev));
            }
            lemma_prefixed_key_injective(t, s, payload, t, sj, pj_prev);
            assert(sj == s);
            assert(j == i) by {
                if j < i {
                    assert(T::spec_non_unique_slots()[j] != T::spec_non_unique_slots()[i]);
                } else if i < j {
                    assert(T::spec_non_unique_slots()[i] != T::spec_non_unique_slots()[j]);
                }
            }
            assert(false);
        }
    }
    lemma_apply_ops_at(m, update_ops::<T>(prev, new, id), k);
}

/// Round trip through update: after an update commits `new` over the
/// record stored under `id`, the primary entry holds exactly `new`'s
/// serialized form, so by the contract of `get`, reading `id` back
/// yields `new` unchanged.
pub proof fn lemma_update_round_trip<T: Table>(m: Map<Seq<u8>, Seq<u8>>, prev: T, new: T, id: u128)
    requires
        spec_valid_schema::<T>(),
    ensures
        ({
            let m1 = apply_ops(m, update_ops::<T>(prev, new, id));
            let pk = spec_primary_key(T::spec_table(), id);
            m1.dom().contains(pk) && m1[pk] == new.spec_bytes()
        }),
{
    let t = T::spec_table();
    let pk = spec_primary_key(t, id);
    let head = seq![OpView::Put(pk, new.spec_bytes())];
    let uops = unique_upd_ops::<T>(prev, new, id, T::spec_unique_slots().len() as int);
    let nops = non_unique_upd_ops::<T>(prev, new, id, T::spec_non_unique_slots().len() as int);
    lemma_ops_effect_add(head.add(uops), nops, pk);
    lemma_ops_effect_add(head, uops, pk);
    lemma_unique_upd_ops_effect::<T>(prev, new, id, T::spec_unique_slots().len() as int, pk);
    lemma_non_unique_upd_ops_effect::<T>(
        prev,
        new,
        id,
        T::spec_non_unique_slots().len() as int,
        pk,
    );
    assert(head.drop_last() =~= Seq::<OpView>::empty());
    assert(ops_effect(Seq::<OpView>::empty(), pk) == None::<Option<Seq<u8>>>);
    // No index key of an update can be the primary key: their slot
    // bytes are nonzero.
    assert forall|j: int|
        0 <= j < T::spec_unique_slots().len() implies pk != spec_unique_key(
        t,
        #[trigger] T::spec_unique_slots()[j],
        new.spec_unique_value(T::spec_unique_slots()[j]),
    ) && pk != spec_unique_key(
        t,
        T::spec_unique_slots()[j],
        prev.spec_unique_value(T::spec_unique_slots()[j]),
    ) by {
        let sj = T::spec_unique_slots()[j];
        if pk == spec_unique_key(t, sj, new.spec_unique_value(sj)) {
            lemma_prefixed_key_injective(t, 0, u128_be(id), t, sj, new.spec_unique_value(sj));
        }
        if pk == spec_unique_key(t, sj, prev.spec_unique_value(sj)) {
            lemma_prefixed_key_injective(t, 0, u128_be(id), t, sj, prev.spec_unique_value(sj));
        }
    }
    assert forall|j: int|
        0 <= j < T::spec_non_unique_slots().len() implies pk != spec_non_unique_key(
        t,
        #[trigger] T::spec_non_unique_slots()[j],
        new.spec_non_unique_value(T::spec_non_unique_slots()[j]),
        id,
    ) && pk != spec_non_unique_key(
        t,
        T::spec_non_unique_slots()[j],
        prev.spec_non_unique_value(T::spec_non_unique_slots()[j]),
        id,
    ) by {
        let sj = T::spec_non_unique_slots()[j];
        let pj_new = new.spec_non_unique_value(sj).add(u128_be(id));
        let pj_prev = prev.spec_non_unique_value(sj).add(u128_be(id));
        if pk == spec_non_unique_key(t, sj, new.spec_non_unique_value(sj), id) {
            assert(spec_non_unique_key(t, sj, new.spec_non_unique_value(sj), id)
                == spec_unique_key(t, sj, pj_new)) by {
                assert(spec_non_unique_prefix(t, sj, new.spec_non_unique_value(sj)).add(
                    u128_be(id),
                ) =~= spec_key_prefix(t, sj).add(pj_new));
            }
            lemma_prefixed_key_injective(t, 0, u128_be(id), t, sj, pj_new);
        }
        if pk == spec_non_unique_key(t, sj, prev.spec_non_unique_value(sj), id) {
            assert(spec_non_unique_key(t, sj, prev.spec_non_unique_value(sj), id)
                == spec_unique_key(t, sj, pj_prev)) by {
                assert(spec_non_unique_prefix(t, sj, prev.spec_non_unique_value(sj)).add(
                    u128_be(id),
                ) =~= spec_key_prefix(t, sj).add(pj_prev));
            }
            lemma_prefixed_key_injective(t, 0, u128_be(id), t, sj, pj_prev);
        }
    }
    lemma_apply_ops_at(m, update_ops::<T>(prev, new, id), pk);
}

/// A delete removes the primary entry and every index entry the record
/// owned: after the batch commits, the identifier reads back
/// `NotFound` and neither the unique nor the non-unique indices name
/// the record any longer.
pub proof fn lemma_delete_removes_entries<T: Table>(m: Map<Seq<u8>, Seq<u8>>, prev: T, id: u128)
    ensures
        ({
            let m1 = apply_ops(m, delete_ops::<T>(prev, id));
            &&& !m1.dom().contains(spec_primary_key(T::spec_table(), id))
            &&& forall|i: int|
                0 <= i < T::spec_unique_slots().len() ==> !m1.dom().contains(
                    spec_unique_key(
                        T::spec_table(),
                        #[trigger] T::spec_unique_slots()[i],
                        prev.spec_unique_value(T::spec_unique_slots()[i]),
                    ),
                )
            &&& forall|i: int|
                0 <= i < T::spec_non_unique_slots().len() ==> !m1.dom().contains(
                    spec_non_unique_key(
                        T::spec_table(),
                        #[trigger] T::spec_non_unique_slots()[i],
                        prev.spec_non_unique_value(T::spec_non_unique_slots()[i]),
                        id,
                    ),
                )
        }),
{
    let t = T::spec_table();
    let ops = delete_ops::<T>(prev, id);
    let m1 = apply_ops(m, ops);
    lemma_delete_effect::<T>(prev, id, spec_primary_key(t, id));
    lemma_apply_ops_at(m, ops, spec_primary_key(t, id));
    assert forall|i: int| 0 <= i < T::spec_unique_slots().len() implies !m1.dom().contains(
        spec_unique_key(
            t,
            #[trigger] T::spec_unique_slots()[i],
            prev.spec_unique_value(T::spec_unique_slots()[i]),
        ),
    ) by {
        let k = spec_unique_key(
            t,
            T::spec_unique_slots()[i],
            prev.spec_unique_value(T::spec_unique_slots()[i]),
        );
        lemma_delete_effect::<T>(prev, id, k);
        lemma_apply_ops_at(m, ops, k);
    }
    assert forall|i: int| 0 <= i < T::spec_non_unique_slots().len() implies !m1.dom().contains(
        spec_non_unique_key(
            t,
            #[trigger] T::spec_non_unique_slots()[i],
            prev.spec_non_unique_value(T::spec_non_unique_slots()[i]),
            id,
        ),
    ) by {
        let k = spec_non_unique_key(
            t,
            T::spec_non_unique_slots()[i],
            prev.spec_non_unique_value(T::spec_non_unique_slots()[i]),
            id,
        );
        lemma_delete_effect::<T>(prev, id, k);
        lemma_apply_ops_at(m, ops, k);
    }
}

/// What a non-unique scan prefix selects among index keys: entries of
/// another table or slot never match; an entry of the queried slot
/// matches exactly when its value followed by its identifier bytes
/// starts with the queried value; and for values of the same length
/// that is exactly value equality. A value that extends the queried
/// one (the queried value plus a suffix) can thus match as well:
/// equal-length values are what the set-exactness of a lookup rests
/// on.
pub proof fn lemma_non_unique_prefix_selects(
    t: u32,
    s: u8,
    v: Seq<u8>,
    t2: u32,
    s2: u8,
    v2: Seq<u8>,
    id2: u128,
)
    ensures
        is_prefix(spec_non_unique_prefix(t, s, v), spec_non_unique_key(t2, s2, v2, id2)) ==> t2
            == t && s2 == s,
        t2 == t && s2 == s ==> (is_prefix(
            spec_non_unique_prefix(t, s, v),
            spec_non_unique_key(t2, s2, v2, id2),
        ) <==> is_prefix(v, v2.add(u128_be(id2)))),
        t2 == t && s2 == s && v2.len() == v.len() ==> (is_prefix(
            spec_non_unique_prefix(t, s, v),
            spec_non_unique_key(t2, s2, v2, id2),
        ) <==> v2 == v),
{
    let p = spec_non_unique_prefix(t, s, v);
    let k = spec_non_unique_key(t2, s2, v2, id2);
    let payload = v2.add(u128_be(id2));
    assert(k =~= spec_key_prefix(t2, s2).add(payload));
    if is_prefix(p, k) {
        crate::bytes::lemma_prefix_of_add(spec_key_prefix(t, s), v, k);
        lemma_region_prefix(t, s, t2, s2, payload);
    }
    if t2 == t && s2 == s {
        crate::bytes::lemma_prefix_strip(spec_key_prefix(t, s), v, payload);
        if v2.len() == v.len() {
            if is_prefix(v, payload) {
                assert(v2 =~= payload.subrange(0, v.len() as int));
            }
            if v2 == v {
                assert(payload.subrange(0, v.len() as int) =~= v);
            }
        }
    }
}

} // verus!
