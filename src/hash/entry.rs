use vstd::prelude::*;

use crate::hash::function::spec_fnv;

verus! {

/// One position of a table's slot array.
pub enum HashEntry<T> {
    /// A live entry: `hash` caches the hash of `key`, `ideal_index` is the
    /// slot its probe sequence starts from.
    Value { key: String, data: T, hash: u64, ideal_index: usize },
    /// A deleted entry; `ideal_index` is the probe origin of the entry it replaced.
    Tombstone { ideal_index: usize },
    /// A slot that has held nothing since the slot array was built.
    Empty,
}

/// The slot reached after `d` steps of the linear probe that starts at `o`,
/// in an array of `cap` slots (that is, `(o + d) % cap` for `o, d < cap`).
pub open spec fn probe(o: int, d: int, cap: int) -> int {
    if o + d < cap {
        o + d
    } else {
        o + d - cap
    }
}

/// The number of probe steps from `o` to `i` (the inverse of `probe`).
pub open spec fn dist(o: int, i: int, cap: int) -> int {
    if o <= i {
        i - o
    } else {
        i + cap - o
    }
}

/// The probe origin of a key in an array of `cap` slots.
pub open spec fn origin_of(k: Seq<char>, cap: int) -> int {
    spec_fnv(k) as int % cap
}

/// The key of a live entry (the empty sequence for the other shapes).
pub open spec fn key_of<T>(e: HashEntry<T>) -> Seq<char> {
    match e {
        HashEntry::Value { key, .. } => key@,
        _ => Seq::empty(),
    }
}

/// The probe origin that a live entry or a tombstone records.
pub open spec fn ideal_of<T>(e: HashEntry<T>) -> int {
    match e {
        HashEntry::Value { ideal_index, .. } => ideal_index as int,
        HashEntry::Tombstone { ideal_index } => ideal_index as int,
        HashEntry::Empty => -1,
    }
}

/// The live entry `e` is the one for key `k`.
pub open spec fn holds<T>(e: HashEntry<T>, k: Seq<char>) -> bool {
    e is Value && key_of(e) == k
}

/// No slot of `s` holds key `k`.
pub open spec fn absent<T>(s: Seq<HashEntry<T>>, k: Seq<char>) -> bool {
    forall|j: int| 0 <= j < s.len() ==> !holds(#[trigger] s[j], k)
}

/// The first `n` slots of the probe sequence from `o` are all in use (live or
/// tombstoned), so a lookup starting at `o` walks past them.
pub open spec fn reachable<T>(s: Seq<HashEntry<T>>, o: int, n: int) -> bool {
    forall|d: int| 0 <= d < n ==> !(#[trigger] s[probe(o, d, s.len() as int)] is Empty)
}

/// What a live entry at slot `i` must satisfy: its cached hash and origin are
/// those of its key, and no empty slot separates it from its origin.
pub open spec fn slot_wf<T>(s: Seq<HashEntry<T>>, i: int) -> bool {
    match s[i] {
        HashEntry::Value { key, hash, ideal_index, .. } => {
            &&& hash == spec_fnv(key@)
            &&& ideal_index as int == origin_of(key@, s.len() as int)
            &&& reachable(s, ideal_index as int, dist(ideal_index as int, i, s.len() as int))
        },
        _ => true,
    }
}

/// The slot array on its own is well formed: it is not empty, each live entry
/// can be found from its origin, and no key is live twice.
pub open spec fn seq_wf<T>(s: Seq<HashEntry<T>>) -> bool {
    &&& s.len() > 0
    &&& forall|i: int| 0 <= i < s.len() ==> #[trigger] slot_wf(s, i)
    &&& forall|i: int, j: int|
        0 <= i < s.len() && 0 <= j < s.len() && i != j && s[i] is Value && s[j] is Value
            ==> key_of(#[trigger] s[i]) != key_of(#[trigger] s[j])
}

/// The data a live entry carries.
pub open spec fn data_of<T>(e: HashEntry<T>) -> T
    recommends
        e is Value,
{
    match e {
        HashEntry::Value { data, .. } => data,
        _ => arbitrary(),
    }
}

/// The slot array `s` is well formed and holds exactly the mapping `m`.
pub open spec fn table_wf<T>(s: Seq<HashEntry<T>>, m: Map<Seq<char>, T>) -> bool {
    &&& seq_wf(s)
    &&& m.dom().finite()
    &&& m.len() == count_live(s)
    &&& forall|i: int|
        0 <= i < s.len() && s[i] is Value ==> m.contains_key(key_of(#[trigger] s[i])) && m[key_of(
            s[i],
        )] == data_of(s[i])
    &&& forall|k: Seq<char>| #[trigger]
        m.contains_key(k) ==> exists|i: int| 0 <= i < s.len() && holds(#[trigger] s[i], k)
}

/// The number of live entries in `s`.
pub open spec fn count_live<T>(s: Seq<HashEntry<T>>) -> nat
    decreases s.len(),
{
    if s.len() == 0 {
        0
    } else {
        count_live(s.drop_last()) + if s.last() is Value {
            1nat
        } else {
            0nat
        }
    }
}

/// A slot into which a key with origin `o` that is not in the table may go.
pub open spec fn usable<T>(e: HashEntry<T>, o: int) -> bool {
    e is Empty || (e is Tombstone && ideal_of(e) == o)
}

pub proof fn lemma_count_update<T>(s: Seq<HashEntry<T>>, i: int, x: HashEntry<T>)
    requires
        0 <= i < s.len(),
    ensures
        count_live(s.update(i, x)) + (if s[i] is Value {
            1int
        } else {
            0int
        }) == count_live(s) + (if x is Value {
            1int
        } else {
            0int
        }),
    decreases s.len(),
{
    let t = s.update(i, x);
    if i == s.len() - 1 {
        assert(t.drop_last() == s.drop_last());
    } else {
        assert(t.drop_last() == s.drop_last().update(i, x));
        lemma_count_update(s.drop_last(), i, x);
    }
}

pub proof fn lemma_count_bound<T>(s: Seq<HashEntry<T>>)
    ensures
        count_live(s) <= s.len(),
        count_live(s) == s.len() <==> forall|j: int| 0 <= j < s.len() ==> #[trigger] s[j] is Value,
    decreases s.len(),
{
    if s.len() > 0 {
        lemma_count_bound(s.drop_last());
        if forall|j: int| 0 <= j < s.len() ==> #[trigger] s[j] is Value {
            assert(s[s.len() - 1] is Value);
            assert forall|j: int| 0 <= j < s.drop_last().len() implies #[trigger] s.drop_last()[j] is Value by {
                assert(s[j] is Value);
            }
        }
        assert forall|j: int| 0 <= j < s.len() && count_live(s) == s.len() implies #[trigger] s[j] is Value by {
            if j < s.len() - 1 {
                assert(s.drop_last()[j] == s[j]);
            }
        }
    }
}

pub proof fn lemma_count_none_live<T>(s: Seq<HashEntry<T>>)
    requires
        forall|j: int| 0 <= j < s.len() ==> !(#[trigger] s[j] is Value),
    ensures
        count_live(s) == 0,
    decreases s.len(),
{
    if s.len() > 0 {
        assert forall|j: int| 0 <= j < s.drop_last().len() implies !(#[trigger] s.drop_last()[j] is Value) by {
            assert(s.drop_last()[j] == s[j]);
        }
        lemma_count_none_live(s.drop_last());
    }
}

/// Writing a live entry for `k` into slot `i` keeps the array well formed and
/// maps `k` to `data`, where slot `i` either already holds `k`, or `k` is absent,
/// slot `i` is not live and lies on `k`'s probe sequence with no empty slot before it.
pub proof fn lemma_insert_preserves<T>(
    s: Seq<HashEntry<T>>,
    m: Map<Seq<char>, T>,
    i: int,
    k: String,
    data: T,
    h: u64,
    o: usize,
)
    requires
        table_wf(s, m),
        0 <= i < s.len(),
        h == spec_fnv(k@),
        o as int == origin_of(k@, s.len() as int),
        holds(s[i], k@) || (absent(s, k@) && !(s[i] is Value) && reachable(
            s,
            o as int,
            dist(o as int, i, s.len() as int),
        )),
    ensures
        table_wf(
            s.update(i, HashEntry::Value { key: k, data, hash: h, ideal_index: o }),
            m.insert(k@, data),
        ),
{
    let x = HashEntry::Value { key: k, data, hash: h, ideal_index: o };
    let t = s.update(i, x);
    let n = s.len() as int;
    let m2 = m.insert(k@, data);
    if holds(s[i], k@) {
        assert(slot_wf(s, i));
    }
    assert forall|j: int| 0 <= j < n implies #[trigger] slot_wf(t, j) by {
        assert(slot_wf(s, j));
        if j != i && s[j] is Value {
            let oj = ideal_of(s[j]);
            assert forall|d: int| 0 <= d < dist(oj, j, n) implies !(#[trigger] t[probe(
                oj,
                d,
                n,
            )] is Empty) by {
                assert(!(s[probe(oj, d, n)] is Empty));
            }
        }
        if j == i {
            assert forall|d: int| 0 <= d < dist(o as int, i, n) implies !(#[trigger] t[probe(
                o as int,
                d,
                n,
            )] is Empty) by {
                assert(!(s[probe(o as int, d, n)] is Empty));
            }
        }
    }
    assert forall|a: int, b: int|
        0 <= a < n && 0 <= b < n && a != b && t[a] is Value && t[b] is Value implies key_of(
        #[trigger] t[a],
    ) != key_of(#[trigger] t[b]) by {
        if a != i && b != i {
            assert(key_of(s[a]) != key_of(s[b]));
        } else if a == i {
            assert(!holds(s[b], k@));
        } else {
            assert(!holds(s[a], k@));
        }
    }
    lemma_count_update(s, i, x);
    assert forall|j: int| 0 <= j < n && t[j] is Value implies m2.contains_key(
        key_of(#[trigger] t[j]),
    ) && m2[key_of(t[j])] == data_of(t[j]) by {
        if j != i {
            assert(!holds(s[j], k@));
        }
    }
    assert forall|q: Seq<char>| #[trigger] m2.contains_key(q) implies exists|j: int|
        0 <= j < n && holds(#[trigger] t[j], q) by {
        if q == k@ {
            assert(holds(t[i], q));
        } else {
            let j = choose|j: int| 0 <= j < n && holds(#[trigger] s[j], q);
            assert(holds(t[j], q));
        }
    }
}

/// Replacing the live entry for `k` at slot `i` by a tombstone keeps the array
/// well formed and removes `k` from the mapping.
pub proof fn lemma_delete_preserves<T>(s: Seq<HashEntry<T>>, m: Map<Seq<char>, T>, i: int, k: Seq<char>)
    requires
        table_wf(s, m),
        0 <= i < s.len(),
        holds(s[i], k),
    ensures
        table_wf(
            s.update(i, HashEntry::Tombstone { ideal_index: ideal_of(s[i]) as usize }),
            m.remove(k),
        ),
{
    let x = HashEntry::<T>::Tombstone { ideal_index: ideal_of(s[i]) as usize };
    let t = s.update(i, x);
    let n = s.len() as int;
    let m2 = m.remove(k);
    assert forall|j: int| 0 <= j < n implies #[trigger] slot_wf(t, j) by {
        assert(slot_wf(s, j));
        if j != i && s[j] is Value {
            let oj = ideal_of(s[j]);
            assert forall|d: int| 0 <= d < dist(oj, j, n) implies !(#[trigger] t[probe(
                oj,
                d,
                n,
            )] is Empty) by {
                assert(!(s[probe(oj, d, n)] is Empty));
            }
        }
    }
    assert forall|a: int, b: int|
        0 <= a < n && 0 <= b < n && a != b && t[a] is Value && t[b] is Value implies key_of(
        #[trigger] t[a],
    ) != key_of(#[trigger] t[b]) by {
        assert(key_of(s[a]) != key_of(s[b]));
    }
    lemma_count_update(s, i, x);
    assert forall|j: int| 0 <= j < n && t[j] is Value implies m2.contains_key(
        key_of(#[trigger] t[j]),
    ) && m2[key_of(t[j])] == data_of(t[j]) by {
        assert(key_of(s[j]) != key_of(s[i]));
    }
    assert forall|q: Seq<char>| #[trigger] m2.contains_key(q) implies exists|j: int|
        0 <= j < n && holds(#[trigger] t[j], q) by {
        let j = choose|j: int| 0 <= j < n && holds(#[trigger] s[j], q);
        assert(holds(t[j], q));
    }
}

} // verus!
