//! The two storage strategies for component values.
//!
//! Dense storage is a packed column: values are appended at the end and
//! removed by moving the last value into the gap.  Sparse storage is a map
//! with stable addressing, keyed by the directory slot of the owning entity.

use std::collections::hash_map::Entry;
use std::collections::HashMap;
use vstd::prelude::*;
use vstd::std_specs::iter::IteratorSpec;

verus! {

broadcast use vstd::std_specs::hash::group_hash_axioms;

/// What a column looks like after the value at `row` was swap-removed.
pub open spec fn swap_removed<T>(s: Seq<T>, row: int) -> Seq<T> {
    s.update(row, s.last()).drop_last()
}

/// One packed column of values.
pub struct DenseStorage<V> {
    values: Vec<V>,
}

impl<V> View for DenseStorage<V> {
    type V = Seq<V>;

    closed spec fn view(&self) -> Seq<V> {
        self.values@
    }
}

impl<V> DenseStorage<V> {
    pub fn new() -> (r: Self)
        ensures
            r@ == Seq::<V>::empty(),
    {
        DenseStorage { values: Vec::new() }
    }

    pub fn len(&self) -> (r: usize)
        ensures
            r == self@.len(),
    {
        self.values.len()
    }

    /// Appends `value` as the new last row.
    pub fn push(&mut self, value: V)
        ensures
            final(self)@ == old(self)@.push(value),
    {
        self.values.push(value);
    }

    /// Takes the value at `row` out; the last value moves into its place.
    pub fn swap_remove(&mut self, row: usize) -> (r: V)
        requires
            row < old(self)@.len(),
        ensures
            r == old(self)@[row as int],
            final(self)@ == swap_removed(old(self)@, row as int),
    {
        self.values.swap_remove(row)
    }

    pub fn get(&self, row: usize) -> (r: Option<&V>)
        ensures
            r == if row < self@.len() {
                Some(&self@[row as int])
            } else {
                None
            },
    {
        if row < self.values.len() {
            Some(&self.values[row])
        } else {
            None
        }
    }

    /// The value at `row`, for changing it in place.
    pub fn get_mut(&mut self, row: usize) -> (r: &mut V)
        requires
            row < old(self)@.len(),
        ensures
            *r == old(self)@[row as int],
            final(self)@ == old(self)@.update(row as int, *final(r)),
    {
        &mut self.values[row]
    }

    /// Overwrites the value at `row` and returns the one that was there.
    pub fn replace(&mut self, row: usize, value: V) -> (r: V)
        requires
            row < old(self)@.len(),
        ensures
            r == old(self)@[row as int],
            final(self)@ == old(self)@.update(row as int, value),
    {
        let mut value = value;
        std::mem::swap(&mut self.values[row], &mut value);
        value
    }
}

/// The values of one sparse component, keyed by directory slot.
pub struct SparseStorage<V> {
    values: HashMap<usize, V>,
}

impl<V> View for SparseStorage<V> {
    type V = Map<usize, V>;

    closed spec fn view(&self) -> Map<usize, V> {
        self.values@
    }
}

impl<V> SparseStorage<V> {
    pub fn new() -> (r: Self)
        ensures
            r@ == Map::<usize, V>::empty(),
    {
        SparseStorage { values: HashMap::new() }
    }

    /// Stores `value` for `slot` and returns the value it replaces, if any.
    pub fn insert(&mut self, slot: usize, value: V) -> (r: Option<V>)
        ensures
            final(self)@ == old(self)@.insert(slot, value),
            r == if old(self)@.contains_key(slot) {
                Some(old(self)@[slot])
            } else {
                None
            },
    {
        self.values.insert(slot, value)
    }

    /// Takes the value of `slot` out, if there is one.
    pub fn remove(&mut self, slot: usize) -> (r: Option<V>)
        ensures
            final(self)@ == old(self)@.remove(slot),
            r == if old(self)@.contains_key(slot) {
                Some(old(self)@[slot])
            } else {
                None
            },
    {
        self.values.remove(&slot)
    }

    pub fn get(&self, slot: usize) -> (r: Option<&V>)
        ensures
            r == if self@.contains_key(slot) {
                Some(&self@[slot])
            } else {
                None
            },
    {
        self.values.get(&slot)
    }

    /// The value of `slot`, for changing it in place.
    pub fn get_mut(&mut self, slot: usize) -> (r: Option<&mut V>)
        ensures
            match r {
                Some(value) => old(self)@.contains_key(slot) && *value == old(self)@[slot]
                    && final(self)@ == old(self)@.insert(slot, *final(value)),
                None => !old(self)@.contains_key(slot) && final(self)@ == old(self)@,
            },
    {
        match self.values.entry(slot) {
            Entry::Occupied(entry) => Some(entry.into_mut()),
            Entry::Vacant(_entry) => {
                assert(old(self)@.remove(slot) =~= old(self)@);
                None
            },
        }
    }

    /// The slots that have a value, each once, in no particular order.
    pub fn slots(&self) -> (r: Vec<usize>)
        ensures
            r@.to_set() == self@.dom(),
            r@.no_duplicates(),
    {
        let mut out: Vec<usize> = Vec::new();
        for slot in it: self.values.keys()
            invariant
                it.seq() == self.values.keys().remaining(),
                out@.len() == it.index(),
                forall|i: int| 0 <= i < out@.len() ==> out@[i] == *it.seq()[i],
        {
            out.push(*slot);
        }
        proof {
            let keys = self.values.keys().remaining();
            assert(out@ =~= keys.unref());
            assert forall|i: int, j: int| 0 <= i < j < out@.len() implies out@[i] != out@[j] by {
                assert(keys[i] != keys[j]);
            }
        }
        out
    }

    pub fn contains(&self, slot: usize) -> (r: bool)
        ensures
            r == self@.contains_key(slot),
    {
        self.values.contains_key(&slot)
    }
}

} // verus!
