//! The hash table: a fixed-length array of slots, probed linearly, that is
//! replaced by a larger one when a new key finds every slot taken.

use crate::hashable::Hashable;
use crate::layout::{
    entries, entries_below, holds, home, inserted, is_landing, lemma_absent_after_probe,
    lemma_entries_below_ends, lemma_entries_below_step, lemma_has_free_slot, lemma_next_slot,
    lemma_no_slot_taken, lemma_overwrite, lemma_place, lemma_steps_roundtrip, lemma_value_at,
    rehashed, rehashed_upto, slot_after, slot_of, steps_to, well_laid_out,
};
use crate::model::{capacity_after_insert, grows, lookup};
use std::fmt::Debug;
use vstd::prelude::*;

verus! {

/// One slot of the table. `taken` tells a live entry from a slot never used;
/// the key and value of a slot that is not taken mean nothing.
struct HashCell<Key, Value> {
    key: Key,
    value: Value,
    taken: bool,
}

/// A map from keys to values, held in an array of slots with open addressing.
pub struct HashTable<Key, Value> {
    cells: Vec<HashCell<Key, Value>>,
    taken_count: usize,
}

impl<Key, Value> View for HashTable<Key, Value> where
    Key: Clone + Default + Debug + PartialEq + Hashable,
    Value: Clone + Default + Debug + Copy,
{
    type V = Map<Key::V, Value>;

    /// The entries of the table.
    open spec fn view(&self) -> Map<Key::V, Value> {
        entries(self.slots())
    }
}

impl<Key, Value> HashTable<Key, Value> where
    Key: Clone + Default + Debug + PartialEq + Hashable,
    Value: Clone + Default + Debug + Copy,
{
    /// The slots in the order of their indices: for a taken slot the view of
    /// its key and its value, for any other slot `None`.
    pub closed spec fn slots(&self) -> Seq<Option<(Key::V, Value)>> {
        Seq::new(
            self.cells.len() as nat,
            |i: int|
                if self.cells[i].taken {
                    Some((self.cells[i].key@, self.cells[i].value))
                } else {
                    None
                },
        )
    }

    /// The number of slots.
    pub closed spec fn spec_capacity(&self) -> usize {
        self.cells.len()
    }

    /// The table's count of its taken slots.
    pub closed spec fn spec_taken_count(&self) -> usize {
        self.taken_count
    }

    /// The invariant of the table: the slots are well laid out, and the count
    /// of taken slots is the number of entries and at most the capacity.
    pub open spec fn wf(&self) -> bool {
        &&& well_laid_out::<Key, Value>(self.slots())
        &&& self.slots().len() == self.spec_capacity()
        &&& self@.dom().finite()
        &&& self@.len() == self.spec_taken_count()
        &&& self.spec_taken_count() <= self.spec_capacity()
    }

    /// `after` is this table but for the value in slot `i`.
    spec fn differs_in_value(&self, after: &Self, i: int) -> bool {
        &&& after.taken_count == self.taken_count
        &&& after.cells.len() == self.cells.len()
        &&& after.cells[i].key == self.cells[i].key
        &&& after.cells[i].taken == self.cells[i].taken
        &&& forall|j: int| 0 <= j < self.cells.len() && j != i ==> after.cells[j] == self.cells[j]
    }

    /// Makes `n` slots, none of them taken.
    fn empty_cells(n: usize) -> (cells: Vec<HashCell<Key, Value>>)
        ensures
            cells.len() == n,
            forall|i: int| 0 <= i < n ==> !(#[trigger] cells[i]).taken,
    {
        let mut cells: Vec<HashCell<Key, Value>> = Vec::with_capacity(n);
        let mut i: usize = 0;
        while i < n
            invariant
                i <= n,
                cells.len() == i,
                forall|j: int| 0 <= j < i ==> !(#[trigger] cells[j]).taken,
            decreases n - i,
        {
            cells.push(HashCell { key: Key::default(), value: Value::default(), taken: false });
            i += 1;
        }
        cells
    }

    /// An empty table of 11 slots.
    pub fn new() -> (table: Self)
        ensures
            table.wf(),
            table.slots() == Seq::new(11, |i: int| None::<(Key::V, Value)>),
            table@ == Map::<Key::V, Value>::empty(),
            table.spec_capacity() == 11,
            table.spec_taken_count() == 0,
    {
        let table = Self { cells: Self::empty_cells(11), taken_count: 0 };
        proof {
            assert(table.slots() =~= Seq::new(11, |i: int| None::<(Key::V, Value)>));
            lemma_no_slot_taken(table.slots());
        }
        table
    }

    /// The number of slots.
    #[verifier::when_used_as_spec(spec_capacity)]
    pub fn capacity(&self) -> (n: usize)
        ensures
            n == self.spec_capacity(),
    {
        self.cells.len()
    }

    /// The number of taken slots, which in a table that meets its invariant
    /// is the number of entries.
    #[verifier::when_used_as_spec(spec_taken_count)]
    pub fn taken_count(&self) -> (n: usize)
        ensures
            n == self.spec_taken_count(),
    {
        self.taken_count
    }

    /// Replaces the slots by `2 * capacity + 1` new ones and places every
    /// entry in them again, in the order of the old slots. The entries are
    /// unchanged.
    pub fn extend(&mut self)
        requires
            old(self).wf(),
            2 * old(self).spec_capacity() + 1 <= usize::MAX,
        ensures
            final(self).wf(),
            final(self).slots() == rehashed::<Key, Value>(old(self).slots()),
            final(self)@ == old(self)@,
            final(self).spec_capacity() == 2 * old(self).spec_capacity() + 1,
            final(self).spec_taken_count() == old(self).spec_taken_count(),
        decreases 1int,
    {
        let n = self.cells.len();
        let mut new_self = Self { cells: Self::empty_cells(n * 2 + 1), taken_count: 0 };
        proof {
            assert(new_self.slots() =~= rehashed_upto::<Key, Value>(self.slots(), 0));
            lemma_no_slot_taken(new_self.slots());
            lemma_entries_below_ends(self.slots());
        }
        let mut i: usize = 0;
        while i < n
            invariant
                self.wf(),
                n == self.cells.len(),
                i <= n,
                new_self.wf(),
                new_self.cells.len() == 2 * n + 1,
                new_self.taken_count <= i,
                new_self.slots() == rehashed_upto::<Key, Value>(self.slots(), i as int),
                new_self@ == entries_below(self.slots(), i as int),
            decreases n - i,
        {
            proof {
                lemma_entries_below_step(self.slots(), i as int);
            }
            if self.cells[i].taken {
                let key = self.cells[i].key.clone();
                proof {
                    Key::clone_keeps_view(&self.cells[i as int].key, key);
                }
                new_self.insert(key, self.cells[i].value);
            }
            i += 1;
        }
        *self = new_self;
    }

    /// Stores `new_value` under `key`, in place of the value that the key had
    /// or as a new entry. A new entry that finds every slot taken makes the
    /// table grow first.
    pub fn insert(&mut self, key: Key, new_value: Value)
        requires
            old(self).wf(),
            grows(old(self).spec_capacity() as int, old(self)@, key@)
                ==> 2 * old(self).spec_capacity() + 1 <= usize::MAX,
        ensures
            final(self).wf(),
            final(self).slots() == inserted::<Key, Value>(old(self).slots(), key@, new_value),
            final(self)@ == old(self)@.insert(key@, new_value),
            final(self).spec_capacity() == capacity_after_insert(
                old(self).spec_capacity() as int,
                old(self)@,
                key@,
            ),
            final(self).spec_taken_count() == if old(self)@.contains_key(key@) {
                old(self).spec_taken_count() as int
            } else {
                old(self).spec_taken_count() + 1
            },
        decreases
            (if grows(old(self).spec_capacity() as int, old(self)@, key@) {
                2int
            } else {
                0int
            }),
    {
        if let Some(old_value) = self.get_mut(&key) {
            *old_value = new_value;
        } else {
            if self.taken_count >= self.cells.len() {
                self.extend();
            }
            let n = self.cells.len();
            let start = key.hash() % n;
            let mut index = start;
            let ghost before = *self;
            let ghost mut steps: int = 0;
            let ghost free: int;
            proof {
                lemma_has_free_slot(self.slots());
                free = choose|u: int| 0 <= u < n && self.slots()[u] is None;
                lemma_steps_roundtrip(start as int, free, n as int);
            }
            while self.cells[index].taken
                invariant
                    *self == before,
                    n == self.cells.len(),
                    0 <= start < n,
                    0 <= free < n,
                    self.slots()[free] is None,
                    0 <= steps <= steps_to(start as int, free, n as int) < n,
                    index == slot_after(start as int, steps, n as int),
                    forall|d: int|
                        0 <= d < steps
                            ==> self.slots()[#[trigger] slot_after(start as int, d, n as int)] is Some,
                decreases n - steps,
            {
                proof {
                    lemma_next_slot(start as int, steps, n as int);
                    steps = steps + 1;
                }
                index = (index + 1) % n;
            }
            proof {
                lemma_steps_roundtrip(start as int, index as int, n as int);
                assert(is_landing(before.slots(), start as int, index as int));
                lemma_place::<Key, Value>(before.slots(), index as int, key@, new_value);
            }
            self.cells[index].taken = true;
            self.cells[index].key = key;
            self.cells[index].value = new_value;
            self.taken_count += 1;
            proof {
                let now = before.slots().update(index as int, Some((key@, new_value)));
                assert(self.slots() =~= now);
            }
        }
    }

    /// Probes for `key` from its home slot: the slot that holds it, or `None`
    /// where a slot that is not taken, or the whole table, was met first.
    fn get_index(&self, key: &Key) -> (found: Option<usize>)
        requires
            self.wf(),
        ensures
            match found {
                Some(i) => holds(self.slots(), i as int, key@),
                None => !self@.contains_key(key@),
            },
    {
        let n = self.cells.len();
        let start = key.hash() % n;
        let mut index = start;
        let mut steps: usize = 0;
        while steps < n
            invariant
                n == self.cells.len(),
                0 <= start < n,
                start == home::<Key>(key@, n as int),
                steps <= n,
                0 <= index < n,
                steps < n ==> index == slot_after(start as int, steps as int, n as int),
                steps == n ==> index == start,
                forall|d: int|
                    0 <= d < steps ==> {
                        let s = #[trigger] slot_after(start as int, d, n as int);
                        self.slots()[s] is Some && self.slots()[s].unwrap().0 != key@
                    },
            ensures
                steps < n ==> self.slots()[index as int] is None
                    || holds(self.slots(), index as int, key@),
            decreases n - steps,
        {
            if !self.cells[index].taken {
                break ;
            }
            let same = self.cells[index].key.eq(key);
            proof {
                Key::eq_decides_view(&self.cells[index as int].key, key, same);
            }
            if same {
                break ;
            }
            proof {
                lemma_next_slot(start as int, steps as int, n as int);
            }
            index = (index + 1) % n;
            steps += 1;
        }
        if self.cells[index].taken {
            let same = self.cells[index].key.eq(key);
            proof {
                Key::eq_decides_view(&self.cells[index as int].key, key, same);
            }
            if same {
                return Some(index);
            }
        }
        proof {
            lemma_absent_after_probe::<Key, Value>(self.slots(), key@, steps as int);
        }
        None
    }

    /// The value stored under `key`, if the table holds the key.
    pub fn get(&self, key: &Key) -> (value: Option<Value>)
        requires
            self.wf(),
        ensures
            value == lookup(self@, key@),
    {
        if let Some(index) = self.get_index(key) {
            proof {
                lemma_value_at(self.slots(), index as int, key@);
            }
            Some(self.cells[index].value)
        } else {
            None
        }
    }

    /// A handle on the value stored under `key`, if the table holds the key.
    /// What is written through the handle becomes the entry under `key`;
    /// nothing else changes.
    pub fn get_mut(&mut self, key: &Key) -> (slot: Option<&mut Value>)
        requires
            old(self).wf(),
        ensures
            match slot {
                Some(value) => {
                    &&& old(self)@.contains_key(key@)
                    &&& *value == old(self)@[key@]
                    &&& final(self).slots() == old(self).slots().update(
                        slot_of(old(self).slots(), key@),
                        Some((key@, *final(value))),
                    )
                    &&& final(self)@ == old(self)@.insert(key@, *final(value))
                    &&& final(self).wf()
                    &&& final(self).spec_capacity() == old(self).spec_capacity()
                    &&& final(self).spec_taken_count() == old(self).spec_taken_count()
                },
                None => !old(self)@.contains_key(key@) && *final(self) == *old(self),
            },
    {
        if let Some(index) = self.get_index(key) {
            proof {
                let before = *self;
                let i = index as int;
                lemma_value_at(before.slots(), i, key@);
                lemma_overwrite::<Key, Value>(before.slots(), i, key@, before.cells[i].value);
                assert forall|after: Self| before.differs_in_value(&after, i) implies {
                    &&& (#[trigger] after.slots()) == before.slots().update(
                        i,
                        Some((key@, after.cells[i].value)),
                    )
                    &&& after@ == before@.insert(key@, after.cells[i].value)
                    &&& after.wf()
                } by {
                    let v = after.cells[i].value;
                    assert(after.slots() =~= before.slots().update(i, Some((key@, v))));
                    lemma_overwrite::<Key, Value>(before.slots(), i, key@, v);
                    assert(before@.dom().insert(key@) =~= before@.dom());
                }
                assert forall|after: Self| before.differs_in_value(&after, i) implies
                    (#[trigger] after.spec_capacity()) == before.spec_capacity() by {}
                assert forall|after: Self| before.differs_in_value(&after, i) implies
                    (#[trigger] after.spec_taken_count()) == before.spec_taken_count() by {}
            }
            Some(&mut self.cells[index].value)
        } else {
            None
        }
    }
}

} // verus!
