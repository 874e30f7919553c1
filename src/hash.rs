use vstd::prelude::*;

pub mod entry;
pub mod function;
pub mod functions;
pub mod laws;
pub mod vec;

use crate::hash::entry::{
    absent, dist, holds, lemma_count_bound, lemma_count_none_live, lemma_delete_preserves,
    lemma_insert_preserves, origin_of, probe, reachable, seq_wf, slot_wf, table_wf, HashEntry,
};
use crate::hash::function::spec_fnv;
use crate::hash::vec::{find_del_index, origin, step};

verus! {

/// A map from string keys to values of type `T` in a slot array of fixed size,
/// by open addressing with linear probing. A `set` may reuse any tombstone on
/// its key's probe sequence; the table never grows, so a `set` of a new key
/// needs a slot that holds no live entry.
pub struct Hash<T> {
    capacity: usize,
    table: Vec<HashEntry<T>>,
    contents: Ghost<Map<Seq<char>, T>>,
}

impl<T> View for Hash<T> {
    type V = Map<Seq<char>, T>;

    /// The mapping from keys to values that the table holds.
    closed spec fn view(&self) -> Map<Seq<char>, T> {
        self.contents@
    }
}

impl<T> Hash<T> {
    /// The table's invariant: the slot array has `capacity` slots, each live
    /// entry can be found from its probe origin, no key is live twice, and the
    /// live entries are exactly the view.
    pub closed spec fn wf(&self) -> bool {
        &&& self.capacity as int == self.table@.len()
        &&& table_wf(self.table@, self.contents@)
    }

    /// The number of slots.
    pub closed spec fn spec_capacity(&self) -> nat {
        self.capacity as nat
    }

    /// A table of `buckets` empty slots.
    pub fn new(buckets: usize) -> (r: Hash<T>)
        requires
            buckets > 0,
        ensures
            r.wf(),
            r@ == Map::<Seq<char>, T>::empty(),
            r.spec_capacity() == buckets,
    {
        let mut table: Vec<HashEntry<T>> = Vec::with_capacity(buckets);
        for i in 0..buckets
            invariant
                table@.len() == i,
                forall|j: int| 0 <= j < table@.len() ==> #[trigger] table@[j] is Empty,
        {
            table.push(HashEntry::Empty);
        }
        proof {
            lemma_count_none_live(table@);
            assert(Map::<Seq<char>, T>::empty().dom() =~= Set::empty());
        }
        Hash { capacity: buckets, table, contents: Ghost(Map::empty()) }
    }

    /// The number of slots.
    pub fn capacity(&self) -> (r: usize)
        ensures
            r == self.spec_capacity(),
    {
        self.capacity
    }

    /// The value stored under `key`, if any.
    pub fn get(&self, key: String) -> (r: Option<&T>)
        requires
            self.wf(),
        ensures
            match r {
                Some(v) => self@.contains_key(key@) && *v == self@[key@],
                None => !self@.contains_key(key@),
            },
    {
        let hash = function::fnv_hash(&key);
        match find_del_index(&self.table, self.capacity, &key, hash) {
            Some((i, _)) => {
                match &self.table[i] {
                    HashEntry::Value { data, .. } => Some(data),
                    _ => None,
                }
            },
            None => None,
        }
    }

    /// Stores `value` under `key`, replacing the value already there. A new key
    /// needs a slot without a live entry, so the table must not be full.
    pub fn set(&mut self, key: String, value: T)
        requires
            old(self).wf(),
            old(self)@.contains_key(key@) || old(self)@.len() < old(self).spec_capacity(),
        ensures
            final(self).wf(),
            final(self)@ == old(self)@.insert(key@, value),
            final(self).spec_capacity() == old(self).spec_capacity(),
    {
        let hash = function::fnv_hash(&key);
        match self.find_set_index(&key, hash) {
            Some((i, ideal_index)) => {
                proof {
                    lemma_insert_preserves(
                        self.table@,
                        self.contents@,
                        i as int,
                        key,
                        value,
                        hash,
                        ideal_index,
                    );
                    self.contents@ = self.contents@.insert(key@, value);
                }
                self.table.set(i, HashEntry::Value { key, data: value, hash, ideal_index });
            },
            None => {
                proof {
                    lemma_count_bound(self.table@);
                    if self.contents@.contains_key(key@) {
                        let j = choose|j: int|
                            0 <= j < self.table@.len() && holds(#[trigger] self.table@[j], key@);
                    }
                }
            },
        }
    }

    /// Removes the entry of `key`, if there is one, leaving a tombstone in its slot.
    pub fn del(&mut self, key: String)
        requires
            old(self).wf(),
        ensures
            final(self).wf(),
            final(self)@ == old(self)@.remove(key@),
            final(self).spec_capacity() == old(self).spec_capacity(),
    {
        let hash = function::fnv_hash(&key);
        match find_del_index(&self.table, self.capacity, &key, hash) {
            Some((index, initial_index)) => {
                proof {
                    lemma_delete_preserves(self.table@, self.contents@, index as int, key@);
                    self.contents@ = self.contents@.remove(key@);
                }
                self.table.set(index, HashEntry::Tombstone { ideal_index: initial_index });
            },
            None => {
                proof {
                    assert(self.contents@.remove(key@) =~= self.contents@);
                }
            },
        }
    }

    /// Finds the slot that a `set` of `key` writes: the slot of its live entry if
    /// there is one, else the first slot on its probe sequence that is empty or a
    /// tombstone. Returns that slot and the key's probe origin; `None` when every
    /// slot holds a live entry of another key.
    fn find_set_index(&self, key: &String, hash: u64) -> (r: Option<(usize, usize)>)
        requires
            self.wf(),
            hash == spec_fnv(key@),
        ensures
            match r {
                Some((i, o)) => {
                    &&& i < self.table@.len()
                    &&& o as int == origin_of(key@, self.table@.len() as int)
                    &&& holds(self.table@[i as int], key@) || (absent(self.table@, key@) && !(
                    self.table@[i as int] is Value) && reachable(
                        self.table@,
                        o as int,
                        dist(o as int, i as int, self.table@.len() as int),
                    ))
                },
                None => absent(self.table@, key@) && forall|j: int|
                    0 <= j < self.table@.len() ==> #[trigger] self.table@[j] is Value,
            },
    {
        let v = &self.table;
        let cap = self.capacity;
        let initial_i = origin(hash, cap);
        let ghost o = initial_i as int;
        let ghost n = cap as int;
        let mut candidate: Option<usize> = None;
        for offset in 0..cap
            invariant
                seq_wf(v@),
                cap == v@.len(),
                hash == spec_fnv(key@),
                o == origin_of(key@, n),
                initial_i == o,
                v@ == self.table@,
                n == cap,
                forall|d: int| 0 <= d < offset ==> !holds(#[trigger] v@[probe(o, d, n)], key@),
                forall|d: int| 0 <= d < offset ==> !(#[trigger] v@[probe(o, d, n)] is Empty),
                match candidate {
                    Some(c) => c < cap && !(v@[c as int] is Value) && dist(o, c as int, n)
                        < offset,
                    None => forall|d: int|
                        0 <= d < offset ==> #[trigger] v@[probe(o, d, n)] is Value,
                },
        {
            let i = step(initial_i, offset, cap);
            proof {
                assert(slot_wf(v@, i as int));
            }
            match &v[i] {
                HashEntry::Empty => {
                    proof {
                        assert forall|j: int| 0 <= j < n implies !holds(#[trigger] v@[j], key@) by {
                            assert(slot_wf(v@, j));
                            if holds(v@[j], key@) {
                                let dj = dist(o, j, n);
                                assert(v@[probe(o, dj, n)] == v@[j]);
                                if dj > offset {
                                    assert(!(v@[probe(o, offset as int, n)] is Empty));
                                }
                            }
                        }
                    }
                    match candidate {
                        Some(c) => {
                            return Some((c, initial_i));
                        },
                        None => {
                            return Some((i, initial_i));
                        },
                    }
                },
                HashEntry::Tombstone { .. } => {
                    if candidate.is_none() {
                        candidate = Some(i);
                    }
                },
                HashEntry::Value { key: target_key, .. } => {
                    if *key == *target_key {
                        return Some((i, initial_i));
                    }
                },
            }
        }
        proof {
            assert forall|j: int| 0 <= j < n implies !holds(#[trigger] v@[j], key@) by {
                assert(v@[probe(o, dist(o, j, n), n)] == v@[j]);
            }
        }
        match candidate {
            Some(c) => Some((c, initial_i)),
            None => {
                proof {
                    assert forall|j: int| 0 <= j < n implies #[trigger] v@[j] is Value by {
                        assert(v@[probe(o, dist(o, j, n), n)] == v@[j]);
                    }
                }
                None
            },
        }
    }
}

} // verus!
