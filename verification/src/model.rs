//! The table as a mathematical map with a capacity: what one insert does to
//! both, and what a sequence of inserts does.

use vstd::prelude::*;

verus! {

/// What a lookup of `k` returns from a table with the entries `m`.
pub open spec fn lookup<K, V>(m: Map<K, V>, k: K) -> Option<V> {
    if m.contains_key(k) {
        Some(m[k])
    } else {
        None
    }
}

/// Inserting the key `k` into a table of `capacity` slots with the entries
/// `m` makes the table grow: the key is new and every slot is taken.
pub open spec fn grows<K, V>(capacity: int, m: Map<K, V>, k: K) -> bool {
    !m.contains_key(k) && m.len() >= capacity
}

/// The capacity after inserting the key `k`: `2 * capacity + 1` where the
/// table grows, and `capacity` where it does not.
pub open spec fn capacity_after_insert<K, V>(capacity: int, m: Map<K, V>, k: K) -> int {
    if grows(capacity, m, k) {
        2 * capacity + 1
    } else {
        capacity
    }
}

/// The entries after inserting `entries` into `m`, first to last.
pub open spec fn insert_all<K, V>(m: Map<K, V>, entries: Seq<(K, V)>) -> Map<K, V>
    decreases entries.len(),
{
    if entries.len() == 0 {
        m
    } else {
        insert_all(m, entries.drop_last()).insert(entries.last().0, entries.last().1)
    }
}

/// The capacity after inserting `entries`, first to last, into a table of
/// `capacity` slots with the entries `m`.
pub open spec fn capacity_after_all<K, V>(capacity: int, m: Map<K, V>, entries: Seq<(K, V)>) -> int
    decreases entries.len(),
{
    if entries.len() == 0 {
        capacity
    } else {
        let earlier = entries.drop_last();
        capacity_after_insert(
            capacity_after_all(capacity, m, earlier),
            insert_all(m, earlier),
            entries.last().0,
        )
    }
}

/// How many of the inserts of `entries`, first to last, make the table grow.
pub open spec fn growths_during<K, V>(capacity: int, m: Map<K, V>, entries: Seq<(K, V)>) -> nat
    decreases entries.len(),
{
    if entries.len() == 0 {
        0
    } else {
        let earlier = entries.drop_last();
        let grew: nat = if grows(
            capacity_after_all(capacity, m, earlier),
            insert_all(m, earlier),
            entries.last().0,
        ) {
            1
        } else {
            0
        };
        growths_during(capacity, m, earlier) + grew
    }
}

} // verus!
