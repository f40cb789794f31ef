//! The slot array as a sequence: where probing goes, which arrays are well
//! laid out, what entries an array holds, and where a new entry lands.

use crate::hashable::Hashable;
use vstd::prelude::*;

verus! {

/// The slot that probing reaches `steps` steps after `start`, wrapping at `n`.
pub open spec fn slot_after(start: int, steps: int, n: int) -> int {
    if start + steps < n {
        start + steps
    } else {
        start + steps - n
    }
}

/// The number of steps that probing takes from `start` to reach `slot`.
pub open spec fn steps_to(start: int, slot: int, n: int) -> int {
    if slot >= start {
        slot - start
    } else {
        slot + n - start
    }
}

/// The slot at which probing for the key `k` starts among `n` slots.
pub open spec fn home<Key: Hashable>(k: Key::V, n: int) -> int {
    Key::hash_spec(k) as int % n
}

/// Slot `i` is taken and holds the key `k`.
pub open spec fn holds<K, V>(slots: Seq<Option<(K, V)>>, i: int, k: K) -> bool {
    0 <= i < slots.len() && slots[i] is Some && slots[i].unwrap().0 == k
}

/// A slot that holds the key `k`, if there is one.
pub open spec fn slot_of<K, V>(slots: Seq<Option<(K, V)>>, k: K) -> int {
    choose|i: int| holds(slots, i, k)
}

/// The entries of a slot array: each key that some taken slot holds, with the
/// value of that slot.
pub open spec fn entries<K, V>(slots: Seq<Option<(K, V)>>) -> Map<K, V> {
    Map::new(
        |k: K| exists|i: int| holds(slots, i, k),
        |k: K| slots[slot_of(slots, k)].unwrap().1,
    )
}

/// No two taken slots hold the same key.
pub open spec fn keys_distinct<K, V>(slots: Seq<Option<(K, V)>>) -> bool {
    forall|i: int, j: int|
        0 <= i < slots.len() && 0 <= j < slots.len() && i != j && (#[trigger] slots[i]) is Some
            && (#[trigger] slots[j]) is Some ==> slots[i].unwrap().0 != slots[j].unwrap().0
}

/// Probing from `start` meets only taken slots before it arrives at slot `i`.
pub open spec fn path_taken<K, V>(slots: Seq<Option<(K, V)>>, start: int, i: int) -> bool {
    let n = slots.len() as int;
    forall|d: int| 0 <= d < steps_to(start, i, n) ==> slots[#[trigger] slot_after(start, d, n)] is Some
}

/// A slot array that lookups can rely on: it has a slot, no key occurs twice,
/// and probing from the home slot of each stored key reaches the key before
/// it meets a slot that is not taken.
pub open spec fn well_laid_out<Key: Hashable, Value>(slots: Seq<Option<(Key::V, Value)>>) -> bool {
    &&& slots.len() > 0
    &&& keys_distinct(slots)
    &&& forall|i: int|
        0 <= i < slots.len() && (#[trigger] slots[i]) is Some
            ==> path_taken(slots, home::<Key>(slots[i].unwrap().0, slots.len() as int), i)
}

/// Slot `i` is the first slot not taken that probing from `start` meets.
pub open spec fn is_landing<K, V>(slots: Seq<Option<(K, V)>>, start: int, i: int) -> bool {
    0 <= i < slots.len() && slots[i] is None && path_taken(slots, start, i)
}

/// The first slot not taken that probing from `start` meets.
pub open spec fn landing<K, V>(slots: Seq<Option<(K, V)>>, start: int) -> int {
    choose|i: int| is_landing(slots, start, i)
}

/// The slot array after a new key was put into the first slot not taken on
/// the way from its home slot.
pub open spec fn placed<Key: Hashable, Value>(
    slots: Seq<Option<(Key::V, Value)>>,
    k: Key::V,
    v: Value,
) -> Seq<Option<(Key::V, Value)>> {
    slots.update(landing(slots, home::<Key>(k, slots.len() as int)), Some((k, v)))
}

/// The larger slot array after the entries in the first `upto` slots of
/// `slots` were placed in it, in the order of their slots.
pub open spec fn rehashed_upto<Key: Hashable, Value>(
    slots: Seq<Option<(Key::V, Value)>>,
    upto: int,
) -> Seq<Option<(Key::V, Value)>>
    decreases upto,
{
    if upto <= 0 {
        Seq::new(2 * slots.len() + 1, |i: int| None)
    } else {
        let earlier = rehashed_upto::<Key, Value>(slots, upto - 1);
        match slots[upto - 1] {
            Some((k, v)) => placed::<Key, Value>(earlier, k, v),
            None => earlier,
        }
    }
}

/// The slot array after growth: `2 * n + 1` slots, into which every entry of
/// the `n` old slots was placed, in the order of the old slots.
pub open spec fn rehashed<Key: Hashable, Value>(
    slots: Seq<Option<(Key::V, Value)>>,
) -> Seq<Option<(Key::V, Value)>> {
    rehashed_upto::<Key, Value>(slots, slots.len() as int)
}

/// The slot array after an insert: the value is replaced where the key is
/// stored; a new key is placed, after growth where every slot is taken.
pub open spec fn inserted<Key: Hashable, Value>(
    slots: Seq<Option<(Key::V, Value)>>,
    k: Key::V,
    v: Value,
) -> Seq<Option<(Key::V, Value)>> {
    if entries(slots).contains_key(k) {
        slots.update(slot_of(slots, k), Some((k, v)))
    } else if entries(slots).len() >= slots.len() {
        placed::<Key, Value>(rehashed::<Key, Value>(slots), k, v)
    } else {
        placed::<Key, Value>(slots, k, v)
    }
}

/// The entries held in the slots below `i`.
pub open spec fn entries_below<K, V>(slots: Seq<Option<(K, V)>>, i: int) -> Map<K, V> {
    Map::new(
        |k: K| exists|j: int| j < i && holds(slots, j, k),
        |k: K| slots[slot_of(slots, k)].unwrap().1,
    )
}

/// Stepping on by one slot with `%`, as the table does, follows `slot_after`.
pub proof fn lemma_next_slot(start: int, steps: int, n: int)
    requires
        0 <= start < n,
        0 <= steps < n,
    ensures
        (slot_after(start, steps, n) + 1) % n == if steps + 1 == n {
            start
        } else {
            slot_after(start, steps + 1, n)
        },
        0 <= slot_after(start, steps, n) < n,
{
    let here = slot_after(start, steps, n);
    if here + 1 < n {
        vstd::arithmetic::div_mod::lemma_small_mod((here + 1) as nat, n as nat);
    } else {
        vstd::arithmetic::div_mod::lemma_mod_self_0(n);
    }
}

/// `steps_to` and `slot_after` undo each other.
pub proof fn lemma_steps_roundtrip(start: int, slot: int, n: int)
    requires
        0 <= start < n,
        0 <= slot < n,
    ensures
        0 <= steps_to(start, slot, n) < n,
        slot_after(start, steps_to(start, slot, n), n) == slot,
{
}

/// The home slot of a key is a slot.
pub proof fn lemma_home_in_range<Key: Hashable>(k: Key::V, n: int)
    requires
        0 < n,
    ensures
        0 <= home::<Key>(k, n) < n,
{
    vstd::arithmetic::div_mod::lemma_mod_bound(Key::hash_spec(k) as int, n);
}

/// The entry under a key is the value of the slot that holds the key.
pub proof fn lemma_value_at<K, V>(slots: Seq<Option<(K, V)>>, i: int, k: K)
    requires
        keys_distinct(slots),
        holds(slots, i, k),
    ensures
        entries(slots).contains_key(k),
        entries(slots)[k] == slots[i].unwrap().1,
{
    let j = slot_of(slots, k);
    assert(holds(slots, j, k));
    assert(slots[i] is Some && slots[j] is Some);
}

/// An array without a taken slot has no entries.
pub proof fn lemma_no_slot_taken<K, V>(slots: Seq<Option<(K, V)>>)
    requires
        forall|i: int| 0 <= i < slots.len() ==> slots[i] is None,
    ensures
        entries(slots) == Map::<K, V>::empty(),
{
    assert(entries(slots) =~= Map::<K, V>::empty());
}

/// Probing for `k` from `start` met `steps` taken slots with other keys, and
/// then a slot that is not taken, unless it had gone round the whole array.
pub open spec fn probed_in_vain<K, V>(
    slots: Seq<Option<(K, V)>>,
    k: K,
    start: int,
    steps: int,
) -> bool {
    let n = slots.len() as int;
    &&& forall|d: int|
        0 <= d < steps ==> {
            let s = #[trigger] slot_after(start, d, n);
            slots[s] is Some && slots[s].unwrap().0 != k
        }
    &&& steps < n ==> slots[slot_after(start, steps, n)] is None
}

/// Where probing for `k` from its home slot was in vain, no slot holds `k`.
pub proof fn lemma_absent_after_probe<Key: Hashable, Value>(
    slots: Seq<Option<(Key::V, Value)>>,
    k: Key::V,
    steps: int,
)
    requires
        well_laid_out::<Key, Value>(slots),
        0 <= steps <= slots.len(),
        probed_in_vain(slots, k, home::<Key>(k, slots.len() as int), steps),
    ensures
        !entries(slots).contains_key(k),
{
    let n = slots.len() as int;
    let start = home::<Key>(k, n);
    lemma_home_in_range::<Key>(k, n);
    if entries(slots).contains_key(k) {
        let i = choose|i: int| holds(slots, i, k);
        lemma_steps_roundtrip(start, i, n);
        let d = steps_to(start, i, n);
        assert(slots[i] is Some);
        assert(path_taken(slots, start, i));
        if d < steps {
            assert(slots[slot_after(start, d, n)].unwrap().0 != k);
        } else if d > steps {
            assert(slots[slot_after(start, steps, n)] is Some);
        }
        assert(false);
    }
}

/// An array with fewer entries than slots has a slot that is not taken.
pub proof fn lemma_has_free_slot<K, V>(slots: Seq<Option<(K, V)>>)
    requires
        keys_distinct(slots),
        entries(slots).dom().finite(),
        entries(slots).len() < slots.len(),
    ensures
        exists|u: int| 0 <= u < slots.len() && slots[u] is None,
{
    let n = slots.len() as int;
    if forall|u: int| 0 <= u < n ==> slots[u] is Some {
        let keys = Seq::new(n as nat, |i: int| slots[i].unwrap().0);
        assert(keys.no_duplicates()) by {
            assert forall|i: int, j: int|
                0 <= i < keys.len() && 0 <= j < keys.len() && i != j
                implies keys[i] != keys[j] by {
                assert(slots[i] is Some && slots[j] is Some);
            }
        }
        keys.unique_seq_to_set();
        let stored = entries(slots).dom();
        assert(keys.to_set().subset_of(stored)) by {
            assert forall|k: K| keys.to_set().contains(k) implies stored.contains(k) by {
                let i = choose|i: int| 0 <= i < keys.len() && keys[i] == k;
                assert(holds(slots, i, k));
            }
        }
        vstd::set_lib::lemma_len_subset(keys.to_set(), stored);
        assert(false);
    }
}

/// At most one slot is the first free one on the way from `start`.
pub proof fn lemma_landing_is<K, V>(slots: Seq<Option<(K, V)>>, start: int, i: int)
    requires
        0 <= start < slots.len(),
        is_landing(slots, start, i),
    ensures
        landing(slots, start) == i,
{
    let n = slots.len() as int;
    let j = landing(slots, start);
    assert(is_landing(slots, start, j));
    lemma_steps_roundtrip(start, i, n);
    lemma_steps_roundtrip(start, j, n);
    let di = steps_to(start, i, n);
    let dj = steps_to(start, j, n);
    if di < dj {
        assert(slots[slot_after(start, di, n)] is Some);
    } else if dj < di {
        assert(slots[slot_after(start, dj, n)] is Some);
    }
}

/// Writing a new value into the slot that holds `k` keeps the array well
/// laid out and changes the entry under `k` alone.
pub proof fn lemma_overwrite<Key: Hashable, Value>(
    slots: Seq<Option<(Key::V, Value)>>,
    i: int,
    k: Key::V,
    v: Value,
)
    requires
        well_laid_out::<Key, Value>(slots),
        holds(slots, i, k),
    ensures
        well_laid_out::<Key, Value>(slots.update(i, Some((k, v)))),
        entries(slots.update(i, Some((k, v)))) == entries(slots).insert(k, v),
        entries(slots).contains_key(k),
        slot_of(slots, k) == i,
{
    let after = slots.update(i, Some((k, v)));
    let n = slots.len() as int;
    assert(slot_of(slots, k) == i) by {
        let j = slot_of(slots, k);
        assert(holds(slots, j, k));
        assert(slots[i] is Some && slots[j] is Some);
    }
    assert forall|j: int| 0 <= j < n implies {
        &&& ((#[trigger] after[j]) is Some) == (slots[j] is Some)
        &&& after[j] is Some ==> after[j].unwrap().0 == slots[j].unwrap().0
    } by {}
    assert forall|j: int, q: Key::V| holds(after, j, q) == holds(slots, j, q) by {
        if 0 <= j < n {
            assert((after[j] is Some) == (slots[j] is Some));
        }
    }
    assert(keys_distinct(after)) by {
        assert forall|a: int, b: int|
            0 <= a < n && 0 <= b < n && a != b && (#[trigger] after[a]) is Some
                && (#[trigger] after[b]) is Some
            implies after[a].unwrap().0 != after[b].unwrap().0 by {
            assert(slots[a] is Some && slots[b] is Some);
        }
    }
    let want = entries(slots).insert(k, v);
    assert forall|q: Key::V| entries(after).contains_key(q) == want.contains_key(q) by {
        if entries(slots).contains_key(q) {
            let j = choose|j: int| holds(slots, j, q);
            assert(holds(after, j, q));
        }
        if entries(after).contains_key(q) {
            let j = choose|j: int| holds(after, j, q);
            assert(holds(slots, j, q));
        }
    }
    assert forall|q: Key::V| entries(after).contains_key(q) implies entries(after)[q]
        == want[q] by {
        let j = choose|j: int| holds(after, j, q);
        assert(holds(slots, j, q));
        lemma_value_at(after, j, q);
        lemma_value_at(slots, j, q);
        if q == k {
            lemma_value_at(after, i, k);
        } else {
            assert(j != i);
        }
    }
    assert(entries(after) =~= want);
    assert forall|j: int| 0 <= j < n && (#[trigger] after[j]) is Some
        implies path_taken(after, home::<Key>(after[j].unwrap().0, n), j) by {
        assert(slots[j] is Some);
        let start = home::<Key>(slots[j].unwrap().0, n);
        lemma_home_in_range::<Key>(slots[j].unwrap().0, n);
        assert(path_taken(slots, start, j));
        assert forall|d: int| 0 <= d < steps_to(start, j, n)
            implies after[#[trigger] slot_after(start, d, n)] is Some by {
            assert(slots[slot_after(start, d, n)] is Some);
        }
    }
}

/// Placing a new key in the first slot not taken on the way from its home
/// slot keeps the array well laid out and adds the one entry.
pub proof fn lemma_place<Key: Hashable, Value>(
    slots: Seq<Option<(Key::V, Value)>>,
    i: int,
    k: Key::V,
    v: Value,
)
    requires
        well_laid_out::<Key, Value>(slots),
        !entries(slots).contains_key(k),
        is_landing(slots, home::<Key>(k, slots.len() as int), i),
    ensures
        placed::<Key, Value>(slots, k, v) == slots.update(i, Some((k, v))),
        well_laid_out::<Key, Value>(slots.update(i, Some((k, v)))),
        entries(slots.update(i, Some((k, v)))) == entries(slots).insert(k, v),
{
    let after = slots.update(i, Some((k, v)));
    let n = slots.len() as int;
    lemma_home_in_range::<Key>(k, n);
    lemma_landing_is(slots, home::<Key>(k, n), i);
    assert forall|j: int| 0 <= j < n && (#[trigger] slots[j]) is Some
        implies after[j] == slots[j] by {}
    assert forall|j: int| 0 <= j < n && j != i && (#[trigger] after[j]) is Some
        implies slots[j] == after[j] by {}
    assert forall|j: int| 0 <= j < n && (#[trigger] slots[j]) is Some
        implies slots[j].unwrap().0 != k by {
        if slots[j].unwrap().0 == k {
            assert(holds(slots, j, k));
        }
    }
    assert(keys_distinct(after)) by {
        assert forall|a: int, b: int|
            0 <= a < n && 0 <= b < n && a != b && (#[trigger] after[a]) is Some
                && (#[trigger] after[b]) is Some
            implies after[a].unwrap().0 != after[b].unwrap().0 by {
            if a != i {
                assert(slots[a] is Some);
            }
            if b != i {
                assert(slots[b] is Some);
            }
        }
    }
    let want = entries(slots).insert(k, v);
    assert forall|q: Key::V| entries(after).contains_key(q) == want.contains_key(q) by {
        if entries(slots).contains_key(q) {
            let j = choose|j: int| holds(slots, j, q);
            assert(holds(after, j, q));
        }
        if entries(after).contains_key(q) {
            let j = choose|j: int| holds(after, j, q);
            if j != i {
                assert(holds(slots, j, q));
            }
        }
        if q == k {
            assert(holds(after, i, k));
        }
    }
    assert forall|q: Key::V| entries(after).contains_key(q) implies entries(after)[q]
        == want[q] by {
        let j = choose|j: int| holds(after, j, q);
        lemma_value_at(after, j, q);
        if q != k {
            assert(j != i);
            assert(holds(slots, j, q));
            lemma_value_at(slots, j, q);
        } else {
            assert(holds(after, i, k));
            lemma_value_at(after, i, k);
        }
    }
    assert(entries(after) =~= want);
    assert forall|j: int| 0 <= j < n && (#[trigger] after[j]) is Some
        implies path_taken(after, home::<Key>(after[j].unwrap().0, n), j) by {
        let start = home::<Key>(after[j].unwrap().0, n);
        lemma_home_in_range::<Key>(after[j].unwrap().0, n);
        if j != i {
            assert(slots[j] is Some);
            assert(path_taken(slots, start, j));
        }
        assert forall|d: int| 0 <= d < steps_to(start, j, n)
            implies after[#[trigger] slot_after(start, d, n)] is Some by {
            assert(slots[slot_after(start, d, n)] is Some);
        }
    }
}

/// Slot `i` adds its entry to those of the slots below it, if it is taken,
/// and nothing if it is not.
pub proof fn lemma_entries_below_step<K, V>(slots: Seq<Option<(K, V)>>, i: int)
    requires
        keys_distinct(slots),
        0 <= i < slots.len(),
    ensures
        entries_below(slots, i + 1) == match slots[i] {
            Some((k, v)) => entries_below(slots, i).insert(k, v),
            None => entries_below(slots, i),
        },
        slots[i] is Some ==> !entries_below(slots, i).contains_key(slots[i].unwrap().0),
{
    let below = entries_below(slots, i);
    let next = entries_below(slots, i + 1);
    match slots[i] {
        Some((k, v)) => {
            assert(holds(slots, i, k));
            lemma_value_at(slots, i, k);
            if below.contains_key(k) {
                let j = choose|j: int| j < i && holds(slots, j, k);
                assert(slots[j] is Some && slots[i] is Some);
                assert(false);
            }
            assert forall|q: K| next.contains_key(q) == below.insert(k, v).contains_key(q) by {
                if next.contains_key(q) {
                    let j = choose|j: int| j < i + 1 && holds(slots, j, q);
                    if j < i {
                        assert(below.contains_key(q));
                    }
                }
                if below.contains_key(q) {
                    let j = choose|j: int| j < i && holds(slots, j, q);
                    assert(j < i + 1 && holds(slots, j, q));
                }
            }
            assert(next =~= below.insert(k, v));
        },
        None => {
            assert forall|q: K| next.contains_key(q) == below.contains_key(q) by {
                if next.contains_key(q) {
                    let j = choose|j: int| j < i + 1 && holds(slots, j, q);
                    assert(j < i && holds(slots, j, q));
                }
                if below.contains_key(q) {
                    let j = choose|j: int| j < i && holds(slots, j, q);
                    assert(j < i + 1 && holds(slots, j, q));
                }
            }
            assert(next =~= below);
        },
    }
}

/// The entries below the first slot are none, and those below the end are
/// all the entries.
pub proof fn lemma_entries_below_ends<K, V>(slots: Seq<Option<(K, V)>>)
    ensures
        entries_below(slots, 0) == Map::<K, V>::empty(),
        entries_below(slots, slots.len() as int) == entries(slots),
{
    assert(entries_below(slots, 0) =~= Map::<K, V>::empty());
    assert(entries_below(slots, slots.len() as int) =~= entries(slots));
}

} // verus!
