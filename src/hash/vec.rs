use vstd::prelude::*;

use crate::hash::entry::{
    absent, count_live, dist, holds, ideal_of, key_of, lemma_count_bound, lemma_count_none_live, lemma_count_update,
    lemma_delete_preserves, lemma_insert_preserves, origin_of, probe, reachable, seq_wf, slot_wf,
    table_wf, usable, HashEntry,
};
use crate::hash::function::spec_fnv;
use crate::hash::functions;

verus! {

/// The probe origin of `hash` in an array of `cap` slots.
pub(crate) fn origin(hash: u64, cap: usize) -> (r: usize)
    requires
        cap > 0,
    ensures
        r as int == hash as int % cap as int,
        r < cap,
{
    (hash % (cap as u64)) as usize
}

/// The slot `off` steps after `start` on a probe sequence, wrapping around.
pub(crate) fn step(start: usize, off: usize, cap: usize) -> (r: usize)
    requires
        start < cap,
        off < cap,
    ensures
        r as int == probe(start as int, off as int, cap as int),
        r < cap,
{
    if off < cap - start {
        start + off
    } else {
        off - (cap - start)
    }
}

/// Looks for the live entry of `key`; returns its slot and its probe origin.
pub(crate) fn find_del_index<T>(v: &Vec<HashEntry<T>>, cap: usize, key: &String, hash: u64) -> (r:
    Option<(usize, usize)>)
    requires
        seq_wf(v@),
        cap == v@.len(),
        hash == spec_fnv(key@),
    ensures
        match r {
            Some((i, o)) => i < cap && holds(v@[i as int], key@) && o as int == ideal_of(
                v@[i as int],
            ),
            None => absent(v@, key@),
        },
{
    let ideal_index = origin(hash, cap);
    let ghost o = ideal_index as int;
    let ghost n = cap as int;
    for off in 0..cap
        invariant
            seq_wf(v@),
            cap == v@.len(),
            hash == spec_fnv(key@),
            o == origin_of(key@, n),
            ideal_index == o,
            n == cap,
            forall|d: int| 0 <= d < off ==> !holds(#[trigger] v@[probe(o, d, n)], key@),
    {
        let i = step(ideal_index, off, cap);
        proof {
            assert(slot_wf(v@, i as int));
        }
        match &v[i] {
            HashEntry::Value { key: target_key, ideal_index: target_ideal, hash: target_hash, .. } => {
                if hash == *target_hash && *key == *target_key {
                    return Some((i, *target_ideal));
                }
            },
            HashEntry::Empty => {
                proof {
                    assert forall|j: int| 0 <= j < n implies !holds(#[trigger] v@[j], key@) by {
                        assert(slot_wf(v@, j));
                        if holds(v@[j], key@) {
                            let dj = dist(o, j, n);
                            assert(v@[probe(o, dj, n)] == v@[j]);
                            if dj > off {
                                assert(!(v@[probe(o, off as int, n)] is Empty));
                            }
                        }
                    }
                }
                return None;
            },
            _ => {},
        }
    }
    proof {
        assert forall|j: int| 0 <= j < n implies !holds(#[trigger] v@[j], key@) by {
            assert(v@[probe(o, dist(o, j, n), n)] == v@[j]);
        }
    }
    None
}

/// No slot of `s` can take key `k`: `k` is not live and, along the whole probe
/// cycle, there is neither an empty slot nor a tombstone left by a key with the
/// same origin.
pub open spec fn no_slot_for<T>(s: Seq<HashEntry<T>>, k: Seq<char>) -> bool {
    &&& absent(s, k)
    &&& forall|j: int| 0 <= j < s.len() ==> !usable(#[trigger] s[j], origin_of(k, s.len() as int))
}

/// Finds the slot that a `set` of `key` writes: the slot of its live entry if
/// there is one, else the first slot on its probe sequence that is empty or a
/// tombstone with the same origin. The key's own entry is looked for before a
/// tombstone is reused, so that a key is never live twice. Returns that slot and
/// the key's probe origin; `None` when no slot can take the key.
pub(crate) fn find_insert_index<T>(v: &Vec<HashEntry<T>>, cap: usize, key: &String, hash: u64) -> (r:
    Option<(usize, usize)>)
    requires
        seq_wf(v@),
        cap == v@.len(),
        hash == spec_fnv(key@),
    ensures
        match r {
            Some((i, o)) => {
                &&& i < cap
                &&& o as int == origin_of(key@, cap as int)
                &&& holds(v@[i as int], key@) || (absent(v@, key@) && usable(v@[i as int], o as int)
                    && reachable(v@, o as int, dist(o as int, i as int, cap as int)))
            },
            None => no_slot_for(v@, key@),
        },
{
    let ideal_index = origin(hash, cap);
    let ghost o = ideal_index as int;
    let ghost n = cap as int;
    let mut candidate: Option<usize> = None;
    for off in 0..cap
        invariant
            seq_wf(v@),
            cap == v@.len(),
            hash == spec_fnv(key@),
            o == origin_of(key@, n),
            ideal_index == o,
            n == cap,
            forall|d: int| 0 <= d < off ==> !holds(#[trigger] v@[probe(o, d, n)], key@),
            forall|d: int| 0 <= d < off ==> !(#[trigger] v@[probe(o, d, n)] is Empty),
            match candidate {
                Some(c) => c < cap && usable(v@[c as int], o) && dist(o, c as int, n) < off,
                None => forall|d: int| 0 <= d < off ==> !usable(#[trigger] v@[probe(o, d, n)], o),
            },
    {
        let i = step(ideal_index, off, cap);
        proof {
            assert(slot_wf(v@, i as int));
        }
        match &v[i] {
            HashEntry::Empty => {
                proof {
                    assert forall|j: int| 0 <= j < n implies !holds(#[trigger] v@[j], key@) by {
                        assert(slot_wf(v@, j));
                        if holds(v@[j], key@) {
                            let dj = dist(o, j, n);
                            assert(v@[probe(o, dj, n)] == v@[j]);
                            if dj > off {
                                assert(!(v@[probe(o, off as int, n)] is Empty));
                            }
                        }
                    }
                }
                match candidate {
                    Some(c) => {
                        return Some((c, ideal_index));
                    },
                    None => {
                        return Some((i, ideal_index));
                    },
                }
            },
            HashEntry::Tombstone { ideal_index: target_index } => {
                if *target_index == ideal_index && candidate.is_none() {
                    candidate = Some(i);
                }
            },
            HashEntry::Value { key: target_key, hash: target_hash, .. } => {
                if hash == *target_hash && *key == *target_key {
                    return Some((i, ideal_index));
                }
            },
        }
    }
    proof {
        assert forall|j: int| 0 <= j < n implies !holds(#[trigger] v@[j], key@) by {
            assert(v@[probe(o, dist(o, j, n), n)] == v@[j]);
        }
    }
    match candidate {
        Some(c) => Some((c, ideal_index)),
        None => {
            proof {
                assert forall|j: int| 0 <= j < n implies !usable(#[trigger] v@[j], o) by {
                    assert(v@[probe(o, dist(o, j, n), n)] == v@[j]);
                }
            }
            None
        },
    }
}

/// The hash of a key, as every table operation computes it.
fn hash_func(key: &String) -> (r: u64)
    ensures
        r == spec_fnv(key@),
{
    functions::fnv_hash(key)
}

/// A map from string keys to values of type `T`, stored by open addressing with
/// linear probing; deleted entries leave tombstones, and the slot array doubles
/// when a `set` finds no slot for its key.
pub struct Hash<T> {
    capacity: usize,
    table: Vec<HashEntry<T>>,
    contents: Ghost<Map<Seq<char>, T>>,
}

impl<T> View for Hash<T> {
    type V = Map<Seq<char>, T>;

    /// The mapping from keys to values that the table holds.
    closed spec fn view(&self) -> Map<Seq<char>, T> {
        self.contents@
    }
}

impl<T> Hash<T> {
    /// The table's invariant: the slot array has `capacity` slots, each live
    /// entry can be found from its probe origin, no key is live twice, and the
    /// live entries are exactly the view.
    pub closed spec fn wf(&self) -> bool {
        &&& self.capacity as int == self.table@.len()
        &&& table_wf(self.table@, self.contents@)
    }

    /// The number of slots.
    pub closed spec fn spec_capacity(&self) -> nat {
        self.capacity as nat
    }

    /// Some slot holds a tombstone.
    pub closed spec fn has_tombstone(&self) -> bool {
        exists|i: int| 0 <= i < self.table@.len() && #[trigger] self.table@[i] is Tombstone
    }

    /// A `set` of key `k` finds no slot and grows the table: `k` is not in the
    /// table, and its probe cycle meets neither an empty slot nor a tombstone
    /// left by a key with the same probe origin.
    pub closed spec fn needs_growth(&self, k: Seq<char>) -> bool {
        no_slot_for(self.table@, k)
    }

    /// A table of `buckets` empty slots.
    pub fn new(buckets: usize) -> (r: Hash<T>)
        requires
            buckets > 0,
        ensures
            r.wf(),
            r@ == Map::<Seq<char>, T>::empty(),
            r.spec_capacity() == buckets,
            !r.has_tombstone(),
    {
        let mut table: Vec<HashEntry<T>> = Vec::with_capacity(buckets);
        for i in 0..buckets
            invariant
                table@.len() == i,
                forall|j: int| 0 <= j < table@.len() ==> #[trigger] table@[j] is Empty,
        {
            table.push(HashEntry::Empty);
        }
        proof {
            lemma_count_none_live(table@);
            assert(Map::<Seq<char>, T>::empty().dom() =~= Set::empty());
        }
        Hash { capacity: buckets, table, contents: Ghost(Map::empty()) }
    }

    /// The number of slots.
    pub fn capacity(&self) -> (r: usize)
        ensures
            r == self.spec_capacity(),
    {
        self.capacity
    }

    /// The value stored under `key`, if any.
    pub fn get(&self, key: String) -> (r: Option<&T>)
        requires
            self.wf(),
        ensures
            match r {
                Some(v) => self@.contains_key(key@) && *v == self@[key@],
                None => !self@.contains_key(key@),
            },
    {
        let hash = hash_func(&key);
        match find_del_index(&self.table, self.capacity, &key, hash) {
            Some((i, _)) => {
                match &self.table[i] {
                    HashEntry::Value { data, .. } => Some(data),
                    _ => None,
                }
            },
            None => None,
        }
    }

    /// A table never holds more entries than it has slots.
    pub proof fn lemma_len_le_capacity(&self)
        requires
            self.wf(),
        ensures
            self@.len() <= self.spec_capacity(),
    {
        lemma_count_bound(self.table@);
    }

    /// A `set` of a key that the table holds is an update: it never grows the table.
    pub proof fn lemma_update_never_grows(&self, k: Seq<char>)
        requires
            self.wf(),
            self@.contains_key(k),
        ensures
            !self.needs_growth(k),
    {
        let j = choose|j: int| 0 <= j < self.table@.len() && holds(#[trigger] self.table@[j], k);
    }

    /// Doubles the number of slots, moves every live entry into the new slot
    /// array (tombstones are dropped), then stores `value` under `key`.
    pub fn grow(&mut self, key: String, value: T)
        requires
            old(self).wf(),
            old(self).spec_capacity() * 2 <= usize::MAX,
        ensures
            final(self).wf(),
            final(self)@ == old(self)@.insert(key@, value),
            final(self).spec_capacity() == 2 * old(self).spec_capacity(),
            !final(self).has_tombstone(),
    {
        let ghost os = self.table@;
        let ghost om = self.contents@;
        let new_cap = self.capacity * 2;
        let mut new_table: Vec<HashEntry<T>> = Vec::with_capacity(new_cap);
        for i in 0..new_cap
            invariant
                new_table@.len() == i,
                forall|j: int| 0 <= j < new_table@.len() ==> #[trigger] new_table@[j] is Empty,
        {
            new_table.push(HashEntry::Empty);
        }
        let ghost mut nm = Map::<Seq<char>, T>::empty();
        proof {
            lemma_count_none_live(new_table@);
            assert(nm.dom() =~= Set::empty());
            lemma_count_bound(os);
        }
        let mut old_table: Vec<HashEntry<T>> = Vec::new();
        std::mem::swap(&mut self.table, &mut old_table);
        while old_table.len() > 0
            invariant
                table_wf(os, om),
                old_table@.len() <= os.len(),
                old_table@ == os.subrange(0, old_table@.len() as int),
                new_cap == 2 * os.len(),
                new_table@.len() == new_cap,
                table_wf(new_table@, nm),
                forall|j: int| 0 <= j < new_table@.len() ==> !(#[trigger] new_table@[j] is Tombstone),
                count_live(new_table@) + count_live(old_table@) == count_live(os),
                count_live(os) <= os.len(),
                forall|k: Seq<char>| #[trigger]
                    nm.contains_key(k) ==> om.contains_key(k) && nm[k] == om[k],
                forall|k: Seq<char>|
                    #[trigger] nm.contains_key(k) <==> exists|j: int|
                        old_table@.len() <= j < os.len() && holds(#[trigger] os[j], k),
            decreases old_table@.len(),
        {
            let ghost len = old_table@.len() as int;
            let ghost before = old_table@;
            let entry = old_table.pop();
            proof {
                assert(before.drop_last() == old_table@);
            }
            match entry {
                Some(HashEntry::Value { key: target_key, data, hash, .. }) => {
                    proof {
                        assert(os[len - 1] == before.last());
                        assert(slot_wf(os, len - 1));
                        assert(!nm.contains_key(target_key@)) by {
                            if nm.contains_key(target_key@) {
                                let j = choose|j: int|
                                    len <= j < os.len() && holds(#[trigger] os[j], target_key@);
                                assert(key_of(os[j]) != key_of(os[len - 1]));
                            }
                        }
                        assert(absent(new_table@, target_key@)) by {
                            assert forall|j: int| 0 <= j < new_table@.len() implies !holds(
                                #[trigger] new_table@[j],
                                target_key@,
                            ) by {
                                if holds(new_table@[j], target_key@) {
                                    assert(nm.contains_key(key_of(new_table@[j])));
                                }
                            }
                        }
                        lemma_count_bound(new_table@);
                    }
                    match find_insert_index(&new_table, new_cap, &target_key, hash) {
                        Some((i, ideal_index)) => {
                            proof {
                                lemma_insert_preserves(
                                    new_table@,
                                    nm,
                                    i as int,
                                    target_key,
                                    data,
                                    hash,
                                    ideal_index,
                                );
                                lemma_count_update(
                                    new_table@,
                                    i as int,
                                    HashEntry::Value {
                                        key: target_key,
                                        data,
                                        hash,
                                        ideal_index,
                                    },
                                );
                                nm = nm.insert(target_key@, data);
                            }
                            new_table.set(
                                i,
                                HashEntry::Value { key: target_key, data, hash, ideal_index },
                            );
                            proof {
                                assert forall|k: Seq<char>|
                                    (exists|j: int|
                                        old_table@.len() <= j < os.len() && holds(
                                            #[trigger] os[j],
                                            k,
                                        )) implies #[trigger] nm.contains_key(k) by {
                                    if k != target_key@ {
                                        let j = choose|j: int|
                                            old_table@.len() <= j < os.len() && holds(
                                                #[trigger] os[j],
                                                k,
                                            );
                                        assert(j != len - 1);
                                    }
                                }
                                assert forall|k: Seq<char>|
                                    #[trigger] nm.contains_key(k) implies exists|j: int|
                                        old_table@.len() <= j < os.len() && holds(
                                            #[trigger] os[j],
                                            k,
                                        ) by {
                                    if k == target_key@ {
                                        assert(holds(os[len - 1], k));
                                    }
                                }
                            }
                        },
                        None => {
                            proof {
                                assert(false);
                            }
                        },
                    }
                },
                _ => {
                    proof {
                        assert(os[len - 1] == before.last());
                        assert forall|k: Seq<char>|
                            #[trigger] nm.contains_key(k) implies exists|j: int|
                                old_table@.len() <= j < os.len() && holds(#[trigger] os[j], k) by {
                            let j = choose|j: int| len <= j < os.len() && holds(#[trigger] os[j], k);
                        }
                    }
                },
            }
        }
        proof {
            assert(nm =~= om) by {
                assert forall|k: Seq<char>| #[trigger] om.contains_key(k) implies nm.contains_key(k) by {
                    let j = choose|j: int| 0 <= j < os.len() && holds(#[trigger] os[j], k);
                }
            }
            lemma_count_bound(new_table@);
        }
        let hash = hash_func(&key);
        match find_insert_index(&new_table, new_cap, &key, hash) {
            Some((i, ideal_index)) => {
                proof {
                    lemma_insert_preserves(new_table@, nm, i as int, key, value, hash, ideal_index);
                }
                new_table.set(i, HashEntry::Value { key, data: value, hash, ideal_index });
            },
            None => {
                proof {
                    assert(false);
                }
            },
        }
        self.capacity = new_cap;
        self.table = new_table;
        self.contents = Ghost(om.insert(key@, value));
    }

    /// Stores `value` under `key`, replacing the value already there; grows the
    /// table when no slot can take the key.
    pub fn set(&mut self, key: String, value: T)
        requires
            old(self).wf(),
            old(self).spec_capacity() * 2 <= usize::MAX,
        ensures
            final(self).wf(),
            final(self)@ == old(self)@.insert(key@, value),
            final(self).spec_capacity() == if old(self).needs_growth(key@) {
                2 * old(self).spec_capacity()
            } else {
                old(self).spec_capacity()
            },
            old(self).needs_growth(key@) ==> !final(self).has_tombstone(),
            final(self)@.len() <= final(self).spec_capacity(),
    {
        let hash = hash_func(&key);
        match find_insert_index(&self.table, self.capacity, &key, hash) {
            Some((i, ideal_index)) => {
                proof {
                    lemma_insert_preserves(
                        self.table@,
                        self.contents@,
                        i as int,
                        key,
                        value,
                        hash,
                        ideal_index,
                    );
                    self.contents@ = self.contents@.insert(key@, value);
                }
                self.table.set(i, HashEntry::Value { key, data: value, hash, ideal_index });
            },
            None => {
                self.grow(key, value);
            },
        }
        proof {
            lemma_count_bound(self.table@);
        }
    }

    /// Removes the entry of `key`, if there is one, leaving a tombstone in its slot.
    pub fn del(&mut self, key: String)
        requires
            old(self).wf(),
        ensures
            final(self).wf(),
            final(self)@ == old(self)@.remove(key@),
            final(self).spec_capacity() == old(self).spec_capacity(),
    {
        let hash = hash_func(&key);
        match find_del_index(&self.table, self.capacity, &key, hash) {
            Some((index, ideal_index)) => {
                proof {
                    lemma_delete_preserves(self.table@, self.contents@, index as int, key@);
                    self.contents@ = self.contents@.remove(key@);
                }
                self.table.set(index, HashEntry::Tombstone { ideal_index });
            },
            None => {
                proof {
                    assert(self.contents@.remove(key@) =~= self.contents@);
                }
            },
        }
    }
}

} // verus!
