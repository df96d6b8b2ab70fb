//! A direct-addressed map from `u32` keys to `u32` values.
//!
//! Keys index an internal vector directly; `u32::MAX` is the sentinel for
//! "absent".  External identifiers cluster densely enough that direct
//! addressing beats hashing for both lookup latency and memory.

use vstd::prelude::*;

verus! {

/// A fast direct-indexed map from `u32` keys to `u32` values.
/// Keys are used as indices into an internal vector.
/// Unused entries are set to `u32::MAX` as a sentinel value.
pub struct DirectMap {
    mapping: Vec<u32>,
}

impl View for DirectMap {
    type V = Map<u32, u32>;

    /// The mathematical content: the partial map of keys whose slot holds a
    /// non-sentinel value.
    closed spec fn view(&self) -> Map<u32, u32> {
        Map::new(
            |k: u32| k < self.mapping.len() && self.mapping[k as int] != u32::MAX,
            |k: u32| self.mapping[k as int],
        )
    }
}

impl DirectMap {
    /// The backing vector never outgrows the `u32` key space.
    pub closed spec fn wf(&self) -> bool {
        self.mapping.len() <= 0x1_0000_0000
    }

    /// Creates a new `DirectMap` with capacity for keys up to `max_size`.
    /// All entries are initialized to `u32::MAX` (not set).
    pub fn new(max_size: usize) -> (r: Self)
        requires
            max_size + 1 <= 0x1_0000_0000,
        ensures
            r@ == Map::<u32, u32>::empty(),
            r.wf(),
    {
        let mut mapping: Vec<u32> = Vec::new();
        mapping.resize(max_size, u32::MAX);
        mapping.push(u32::MAX);
        let r = DirectMap { mapping };
        proof {
            assert(forall|i: int| 0 <= i < r.mapping.len() ==> r.mapping[i] == u32::MAX);
            assert(r@ =~= Map::<u32, u32>::empty());
        }
        r
    }

    /// Inserts or updates the value for the given key.
    /// Resizes the internal vector if the key exceeds current capacity.
    ///
    /// Inserting the sentinel value `u32::MAX` removes the key.
    pub fn insert(&mut self, key: u32, value: u32)
        requires
            old(self).wf(),
        ensures
            final(self).wf(),
            value != u32::MAX ==> final(self)@ == old(self)@.insert(key, value),
            value == u32::MAX ==> final(self)@ == old(self)@.remove(key),
    {
        if (key as usize) >= self.mapping.len() {
            self.mapping.resize(key as usize, u32::MAX);
            self.mapping.push(value);
            proof {
                assert(forall|i: int|
                    old(self).mapping.len() <= i < key ==> self.mapping[i] == u32::MAX);
            }
        } else {
            self.mapping[key as usize] = value;
        }
        proof {
            if value != u32::MAX {
                assert(self@ =~= old(self)@.insert(key, value));
            } else {
                assert(self@ =~= old(self)@.remove(key));
            }
        }
    }

    /// Retrieves the value associated with the given key, if present.
    /// Out-of-range keys simply report "absent"; there are no fatal cases.
    pub fn get(&self, key: u32) -> (r: Option<u32>)
        ensures
            r == if self@.contains_key(key) {
                Some(self@[key])
            } else {
                None::<u32>
            },
    {
        if (key as usize) < self.mapping.len() {
            let val = self.mapping[key as usize];
            if val != u32::MAX {
                Some(val)
            } else {
                None
            }
        } else {
            None
        }
    }

    /// Returns a vector of all keys that have an associated value,
    /// in ascending order.
    pub fn keys(&self) -> (r: Vec<u32>)
        requires
            self.wf(),
        ensures
            forall|k: u32| r@.contains(k) <==> self@.contains_key(k),
            forall|i: int, j: int| 0 <= i < j < r@.len() ==> r@[i] < r@[j],
    {
        let mut r: Vec<u32> = Vec::new();
        let mut index: usize = 0;
        while index < self.mapping.len()
            invariant
                index <= self.mapping.len(),
                self.wf(),
                forall|i: int|
                    0 <= i < r@.len() ==> (#[trigger] r@[i]) < index && self@.contains_key(r@[i]),
                forall|k: u32| k < index && self@.contains_key(k) ==> r@.contains(k),
                forall|i: int, j: int| 0 <= i < j < r@.len() ==> r@[i] < r@[j],
            decreases self.mapping.len() - index,
        {
            let ghost prev = r@;
            if self.mapping[index] != u32::MAX {
                r.push(index as u32);
            }
            proof {
                assert forall|k: u32| k < index + 1 && self@.contains_key(k) implies r@.contains(
                    k,
                ) by {
                    if k < index {
                        assert(prev.contains(k));
                        let i = choose|i: int| 0 <= i < prev.len() && prev[i] == k;
                        assert(r@[i] == k);
                    } else {
                        assert(r@[r@.len() - 1] == k);
                    }
                }
            }
            index = index + 1;
        }
        proof {
            assert forall|k: u32| r@.contains(k) implies self@.contains_key(k) by {
                let i = choose|i: int| 0 <= i < r@.len() && r@[i] == k;
                assert(self@.contains_key(r@[i]));
            }
        }
        r
    }
}

} // verus!
