//! What holds of the table after any sequence of inserts, proved over the
//! model that the contracts of `HashTable` are stated in.

use crate::model::{capacity_after_all, growths_during, insert_all, lookup};
use vstd::prelude::*;

verus! {

/// The keys of `entries` are pairwise different.
pub open spec fn distinct_keys<K, V>(entries: Seq<(K, V)>) -> bool {
    forall|i: int, j: int|
        0 <= i < entries.len() && 0 <= j < entries.len() && i != j ==> entries[i].0 != entries[j].0
}

/// A key that was inserted with a value is looked up with that value, however
/// many inserts follow, as long as none of them gives the key another value.
pub proof fn lemma_insert_then_lookup<K, V>(m: Map<K, V>, k: K, v: V, later: Seq<(K, V)>)
    requires
        forall|i: int| 0 <= i < later.len() && later[i].0 == k ==> later[i].1 == v,
    ensures
        lookup(insert_all(m.insert(k, v), later), k) == Some(v),
    decreases later.len(),
{
    if later.len() > 0 {
        let earlier = later.drop_last();
        assert forall|i: int| 0 <= i < earlier.len() && earlier[i].0 == k
            implies earlier[i].1 == v by {
            assert(earlier[i] == later[i]);
        }
        lemma_insert_then_lookup(m, k, v, earlier);
    }
}

/// Inserting a key again with a new value changes the value under that key
/// and nothing else: the same keys are present, and as many of them.
pub proof fn lemma_reinsert_keeps_keys<K, V>(m: Map<K, V>, k: K, v: V)
    requires
        m.contains_key(k),
    ensures
        m.insert(k, v).dom() == m.dom(),
        m.insert(k, v).len() == m.len(),
        lookup(m.insert(k, v), k) == Some(v),
{
    assert(m.insert(k, v).dom() =~= m.dom());
}

/// A key that is not among the inserted ones is looked up in vain, in the
/// table that any sequence of inserts makes of an empty one.
pub proof fn lemma_never_inserted_is_absent<K, V>(entries: Seq<(K, V)>, k: K)
    requires
        forall|i: int| 0 <= i < entries.len() ==> entries[i].0 != k,
    ensures
        lookup(insert_all(Map::<K, V>::empty(), entries), k) == None::<V>,
    decreases entries.len(),
{
    if entries.len() > 0 {
        let earlier = entries.drop_last();
        assert forall|i: int| 0 <= i < earlier.len() implies earlier[i].0 != k by {
            assert(earlier[i] == entries[i]);
        }
        lemma_never_inserted_is_absent(earlier, k);
        assert(entries.last() == entries[entries.len() - 1]);
    }
}

/// Inserting entries with different keys into an empty table gives as many
/// entries as were inserted, and the keys present are the inserted ones.
pub proof fn lemma_distinct_inserts_count<K, V>(entries: Seq<(K, V)>)
    requires
        distinct_keys(entries),
    ensures
        insert_all(Map::<K, V>::empty(), entries).dom().finite(),
        insert_all(Map::<K, V>::empty(), entries).len() == entries.len(),
        forall|k: K|
            insert_all(Map::<K, V>::empty(), entries).contains_key(k) <==> exists|i: int|
                0 <= i < entries.len() && entries[i].0 == k,
    decreases entries.len(),
{
    let after = insert_all(Map::<K, V>::empty(), entries);
    if entries.len() > 0 {
        let earlier = entries.drop_last();
        let last = entries.last();
        let before = insert_all(Map::<K, V>::empty(), earlier);
        assert(distinct_keys(earlier)) by {
            assert forall|i: int, j: int|
                0 <= i < earlier.len() && 0 <= j < earlier.len() && i != j
                implies earlier[i].0 != earlier[j].0 by {
                assert(earlier[i] == entries[i] && earlier[j] == entries[j]);
            }
        }
        lemma_distinct_inserts_count(earlier);
        assert(!before.contains_key(last.0)) by {
            if before.contains_key(last.0) {
                let i = choose|i: int| 0 <= i < earlier.len() && earlier[i].0 == last.0;
                assert(earlier[i] == entries[i]);
                assert(entries[entries.len() - 1] == last);
            }
        }
        assert forall|k: K| after.contains_key(k) <==> exists|i: int|
            0 <= i < entries.len() && entries[i].0 == k by {
            if after.contains_key(k) {
                if k == last.0 {
                    assert(entries[entries.len() - 1].0 == k);
                } else {
                    let i = choose|i: int| 0 <= i < earlier.len() && earlier[i].0 == k;
                    assert(entries[i].0 == k);
                }
            }
            if exists|i: int| 0 <= i < entries.len() && entries[i].0 == k {
                let i = choose|i: int| 0 <= i < entries.len() && entries[i].0 == k;
                if i < earlier.len() {
                    assert(earlier[i].0 == k);
                }
            }
        }
    } else {
        assert(after.dom() =~= Set::<K>::empty());
    }
}

/// As long as no more different keys are inserted into an empty table than it
/// has slots, the table does not grow.
pub proof fn lemma_no_growth_within_capacity<K, V>(capacity: int, entries: Seq<(K, V)>)
    requires
        0 < capacity,
        entries.len() <= capacity,
        distinct_keys(entries),
    ensures
        growths_during(capacity, Map::<K, V>::empty(), entries) == 0,
        capacity_after_all(capacity, Map::<K, V>::empty(), entries) == capacity,
    decreases entries.len(),
{
    if entries.len() > 0 {
        let earlier = entries.drop_last();
        assert(distinct_keys(earlier)) by {
            assert forall|i: int, j: int|
                0 <= i < earlier.len() && 0 <= j < earlier.len() && i != j
                implies earlier[i].0 != earlier[j].0 by {
                assert(earlier[i] == entries[i] && earlier[j] == entries[j]);
            }
        }
        lemma_no_growth_within_capacity(capacity, earlier);
        lemma_distinct_inserts_count(earlier);
    }
}

/// Inserting one more different key than an empty table has slots makes the
/// table grow exactly once, at the last of these inserts, and the capacity
/// becomes twice the old one plus one, which is more than it was.
pub proof fn lemma_one_growth_past_capacity<K, V>(capacity: int, entries: Seq<(K, V)>)
    requires
        0 < capacity,
        entries.len() == capacity + 1,
        distinct_keys(entries),
    ensures
        growths_during(capacity, Map::<K, V>::empty(), entries) == 1,
        growths_during(capacity, Map::<K, V>::empty(), entries.drop_last()) == 0,
        capacity_after_all(capacity, Map::<K, V>::empty(), entries) == 2 * capacity + 1,
        capacity_after_all(capacity, Map::<K, V>::empty(), entries) > capacity,
{
    let earlier = entries.drop_last();
    assert(distinct_keys(earlier)) by {
        assert forall|i: int, j: int|
            0 <= i < earlier.len() && 0 <= j < earlier.len() && i != j
            implies earlier[i].0 != earlier[j].0 by {
            assert(earlier[i] == entries[i] && earlier[j] == entries[j]);
        }
    }
    lemma_no_growth_within_capacity(capacity, earlier);
    lemma_distinct_inserts_count(earlier);
    let before = insert_all(Map::<K, V>::empty(), earlier);
    assert(!before.contains_key(entries.last().0)) by {
        if before.contains_key(entries.last().0) {
            let i = choose|i: int| 0 <= i < earlier.len() && earlier[i].0 == entries.last().0;
            assert(earlier[i] == entries[i]);
            assert(entries[entries.len() - 1] == entries.last());
        }
    }
}

} // verus!
