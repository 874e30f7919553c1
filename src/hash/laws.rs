//! Properties of sequences of table operations, stated over the mappings that
//! the operations' contracts speak of: `set(k, v)` turns the view `m` into
//! `m.insert(k, v)`, `del(k)` into `m.remove(k)`, and `get(k)` returns `m[k]`
//! exactly when `m` contains `k`.
use vstd::prelude::*;

use crate::hash::function::spec_fnv;

verus! {

/// After `set(k, v)`, `get(k)` returns `v`.
pub proof fn lemma_set_then_get<T>(m: Map<Seq<char>, T>, k: Seq<char>, v: T)
    ensures
        m.insert(k, v).contains_key(k),
        m.insert(k, v)[k] == v,
{
}

/// A value stored under `k` stays retrievable across a `set` or a `del` of any
/// other key.
pub proof fn lemma_other_keys_keep_value<T>(m: Map<Seq<char>, T>, k: Seq<char>, v: T, k2: Seq<char>, v2: T)
    requires
        k != k2,
    ensures
        m.insert(k, v).insert(k2, v2).contains_key(k),
        m.insert(k, v).insert(k2, v2)[k] == v,
        m.insert(k, v).remove(k2).contains_key(k),
        m.insert(k, v).remove(k2)[k] == v,
{
}

/// `set(k, v1)` then `set(k, v2)` leaves `v2` under `k`, and the second `set`
/// does not change the number of entries.
pub proof fn lemma_overwrite<T>(m: Map<Seq<char>, T>, k: Seq<char>, v1: T, v2: T)
    requires
        m.dom().finite(),
    ensures
        m.insert(k, v1).insert(k, v2)[k] == v2,
        m.insert(k, v1).insert(k, v2).len() == m.insert(k, v1).len(),
{
    assert(m.insert(k, v1).dom().insert(k) =~= m.insert(k, v1).dom());
}

/// After `del(k)`, `get(k)` finds nothing, whatever the table held before.
pub proof fn lemma_delete_then_absent<T>(m: Map<Seq<char>, T>, k: Seq<char>)
    ensures
        !m.remove(k).contains_key(k),
{
}

/// `set(k, v1)`, `del(k)`, `set(k, v2)` leaves `v2` under `k`.
pub proof fn lemma_delete_then_reinsert<T>(m: Map<Seq<char>, T>, k: Seq<char>, v1: T, v2: T)
    ensures
        m.insert(k, v1).remove(k).insert(k, v2).contains_key(k),
        m.insert(k, v1).remove(k).insert(k, v2)[k] == v2,
{
}

/// Equal strings hash equally.
pub proof fn lemma_hash_deterministic(a: Seq<char>, b: Seq<char>)
    requires
        a == b,
    ensures
        spec_fnv(a) == spec_fnv(b),
{
}

} // verus!
