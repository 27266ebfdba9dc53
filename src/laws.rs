//! Laws of the table's operations, stated over its contents as the
//! operations' contracts describe them (`Hashmap::insert` turns contents `m`
//! into `m.insert(k, v)`, `Hashmap::remove` into `m.remove(k)`, and `get`,
//! `contains_key` and `len` read `lookup`, `contains_key` and `len` of them).
use crate::table::lookup;
use vstd::prelude::*;

verus! {

/// After storing `v` under `k`, a lookup of `k` finds `v` and the key is
/// present.
pub proof fn law_insert_then_get<V>(m: Map<Seq<u8>, V>, k: Seq<u8>, v: V)
    ensures
        lookup(m.insert(k, v), k) == Some(v),
        m.insert(k, v).contains_key(k),
{
}

/// Storing `v2` under a key that holds `v1` hands back `v1`, leaves `v2` to be
/// found, and does not change the number of entries.
pub proof fn law_overwrite<V>(m: Map<Seq<u8>, V>, k: Seq<u8>, v1: V, v2: V)
    requires
        m.dom().finite(),
    ensures
        lookup(m.insert(k, v1), k) == Some(v1),
        lookup(m.insert(k, v1).insert(k, v2), k) == Some(v2),
        m.insert(k, v1).insert(k, v2).len() == m.insert(k, v1).len(),
{
    assert(m.insert(k, v1).insert(k, v2).dom() =~= m.insert(k, v1).dom());
}

/// Removing a present key makes it absent and lowers the count by one;
/// removing an absent key finds nothing and changes nothing.
pub proof fn law_remove<V>(m: Map<Seq<u8>, V>, k: Seq<u8>)
    requires
        m.dom().finite(),
    ensures
        lookup(m.remove(k), k) == None::<V>,
        !m.remove(k).contains_key(k),
        m.contains_key(k) ==> m.remove(k).len() == m.len() - 1,
        !m.contains_key(k) ==> lookup(m, k) == None::<V> && m.remove(k) == m,
{
    if !m.contains_key(k) {
        assert(m.remove(k) =~= m);
    }
}

/// Storing a key that is absent raises the count by one; any other store
/// leaves it as it was, so the count is always the number of stored keys.
pub proof fn law_insert_len<V>(m: Map<Seq<u8>, V>, k: Seq<u8>, v: V)
    requires
        m.dom().finite(),
    ensures
        m.insert(k, v).len() == if m.contains_key(k) {
            m.len()
        } else {
            m.len() + 1
        },
{
    if m.contains_key(k) {
        assert(m.insert(k, v).dom() =~= m.dom());
    }
}

/// Storing a key leaves what every other key finds as it was.
pub proof fn law_insert_keeps_others<V>(m: Map<Seq<u8>, V>, k: Seq<u8>, v: V, other: Seq<u8>)
    requires
        other != k,
    ensures
        lookup(m.insert(k, v), other) == lookup(m, other),
{
}

/// Removing a key leaves what every other key finds as it was.
pub proof fn law_remove_keeps_others<V>(m: Map<Seq<u8>, V>, k: Seq<u8>, other: Seq<u8>)
    requires
        other != k,
    ensures
        lookup(m.remove(k), other) == lookup(m, other),
{
}

/// The contents after storing each entry of `es` in turn, starting from `m`.
pub open spec fn insert_all<V>(m: Map<Seq<u8>, V>, es: Seq<(Seq<u8>, V)>) -> Map<Seq<u8>, V>
    decreases es.len(),
{
    if es.len() == 0 {
        m
    } else {
        insert_all(m, es.drop_last()).insert(es.last().0, es.last().1)
    }
}

/// Storing entries with distinct new keys one after another, however many
/// growth events that takes, loses none of them: each is found with its value
/// and the count rises by their number.
pub proof fn law_insert_all<V>(m: Map<Seq<u8>, V>, es: Seq<(Seq<u8>, V)>)
    requires
        m.dom().finite(),
        forall|i: int, j: int|
            0 <= i < es.len() && 0 <= j < es.len() && i != j ==> (#[trigger] es[i]).0 != (
            #[trigger] es[j]).0,
        forall|i: int| 0 <= i < es.len() ==> !m.contains_key((#[trigger] es[i]).0),
    ensures
        insert_all(m, es).dom().finite(),
        insert_all(m, es).len() == m.len() + es.len(),
        forall|i: int|
            0 <= i < es.len() ==> lookup(insert_all(m, es), (#[trigger] es[i]).0) == Some(
                es[i].1,
            ),
        forall|k: Seq<u8>|
            #[trigger] insert_all(m, es).contains_key(k) && !m.contains_key(k) ==> exists|i: int|
                0 <= i < es.len() && (#[trigger] es[i]).0 == k,
    decreases es.len(),
{
    if es.len() > 0 {
        let front = es.drop_last();
        assert forall|i: int, j: int|
            0 <= i < front.len() && 0 <= j < front.len() && i != j implies (#[trigger] front[i]).0
            != (#[trigger] front[j]).0 by {
            assert(front[i] == es[i] && front[j] == es[j]);
        }
        assert forall|i: int| 0 <= i < front.len() implies !m.contains_key(
            (#[trigger] front[i]).0,
        ) by {
            assert(front[i] == es[i]);
        }
        law_insert_all(m, front);
        let last = es.last();
        let before = insert_all(m, front);
        assert(!before.contains_key(last.0)) by {
            if before.contains_key(last.0) {
                if !m.contains_key(last.0) {
                    let i = choose|i: int|
                        0 <= i < front.len() && (#[trigger] front[i]).0 == last.0;
                    assert(front[i] == es[i]);
                    assert(es[es.len() - 1] == last);
                    assert(es[i].0 != es[es.len() - 1].0);
                }
            }
        }
        assert forall|i: int| 0 <= i < es.len() implies lookup(
            insert_all(m, es),
            (#[trigger] es[i]).0,
        ) == Some(es[i].1) by {
            if i < es.len() - 1 {
                assert(front[i] == es[i]);
                assert(es[es.len() - 1] == last);
            }
        }
        assert forall|k: Seq<u8>|
            #[trigger] insert_all(m, es).contains_key(k) && !m.contains_key(k) implies exists|i: int|
                0 <= i < es.len() && (#[trigger] es[i]).0 == k by {
            if k == last.0 {
                assert(es[es.len() - 1].0 == k);
            } else {
                assert(before.contains_key(k));
                let i = choose|i: int| 0 <= i < front.len() && (#[trigger] front[i]).0 == k;
                assert(front[i] == es[i]);
            }
        }
    }
}

} // verus!
