use crate::map::{Accessor, HashMap};
use vstd::prelude::*;

verus! {

/// An entry that was stored is found: after `insert` has stored a value for a key, `get`
/// gives an accessor for that key and that value.
pub proof fn law_insert_get<K: PartialEq + Send + 'static, V: Send + 'static, H: Fn(&K) -> u64>(
    m0: HashMap<K, V, H>,
    m1: HashMap<K, V, H>,
    m2: HashMap<K, V, H>,
    key: K,
    value: V,
    stored: Result<Accessor, (Accessor, V)>,
    found: Option<Accessor>,
)
    requires
        HashMap::inserted(m0, m1, key, value, stored),
        stored is Ok,
        HashMap::fetched(m1, m2, key, found),
    ensures
        found matches Some(accessor) && accessor.entry(&m2) == Some((key, value)),
        m2@[key] == value,
{
}

/// What happens to other keys does not touch an entry: an `insert`, an `upsert` or a
/// `remove` of another key leaves the map with the same value for `key`, or with none as
/// before.
pub proof fn law_other_keys<K: PartialEq + Send + 'static, V: Send + 'static, H: Fn(&K) -> u64>(
    m0: HashMap<K, V, H>,
    m1: HashMap<K, V, H>,
    key: K,
    other: K,
    value: V,
    stored: Result<Accessor, (Accessor, V)>,
    accessor: Accessor,
    removed: bool,
)
    requires
        other != key,
        HashMap::inserted(m0, m1, other, value, stored) || HashMap::upserted(
            m0,
            m1,
            other,
            value,
            accessor,
        ) || HashMap::removed(m0, m1, other, removed),
    ensures
        m1@.contains_key(key) == m0@.contains_key(key),
        m1@.contains_key(key) ==> m1@[key] == m0@[key],
{
}

/// After `insert` and `remove` of a key, `get` finds nothing for it.
pub proof fn law_insert_remove_get<
    K: PartialEq + Send + 'static,
    V: Send + 'static,
    H: Fn(&K) -> u64,
>(
    m0: HashMap<K, V, H>,
    m1: HashMap<K, V, H>,
    m2: HashMap<K, V, H>,
    m3: HashMap<K, V, H>,
    key: K,
    value: V,
    stored: Result<Accessor, (Accessor, V)>,
    removed: bool,
    found: Option<Accessor>,
)
    requires
        HashMap::inserted(m0, m1, key, value, stored),
        HashMap::removed(m1, m2, key, removed),
        HashMap::fetched(m2, m3, key, found),
    ensures
        removed,
        found is None,
        !m3@.contains_key(key),
{
}

/// After two `upsert`s for a key, `get` gives the value of the second.
pub proof fn law_upsert_upsert_get<
    K: PartialEq + Send + 'static,
    V: Send + 'static,
    H: Fn(&K) -> u64,
>(
    m0: HashMap<K, V, H>,
    m1: HashMap<K, V, H>,
    m2: HashMap<K, V, H>,
    m3: HashMap<K, V, H>,
    key: K,
    a: V,
    b: V,
    first: Accessor,
    second: Accessor,
    found: Option<Accessor>,
)
    requires
        HashMap::upserted(m0, m1, key, a, first),
        HashMap::upserted(m1, m2, key, b, second),
        HashMap::fetched(m2, m3, key, found),
    ensures
        found matches Some(accessor) && accessor.entry(&m3) == Some((key, b)),
        m3@ == m0@.insert(key, b),
{
    assert(m0@.insert(key, a).insert(key, b) =~= m0@.insert(key, b));
}

/// `retain` with a function that always returns `true` keeps every entry and the capacity;
/// with one that always returns `false` it leaves the map empty.
pub proof fn law_retain<
    K: PartialEq + Send + 'static,
    V: Send + 'static,
    H: Fn(&K) -> u64,
    F: Fn(&K, &V) -> bool,
>(m0: HashMap<K, V, H>, m1: HashMap<K, V, H>, f: F, counts: (usize, usize), always: bool)
    requires
        HashMap::retained(m0, m1, f, counts),
        forall|k: K, v: V, keep: bool| #[trigger] call_ensures(f, (&k, &v), keep) ==> keep == always,
    ensures
        always ==> m1@ == m0@ && counts.1 == 0 && m1.spec_capacity() == m0.spec_capacity(),
        !always ==> m1@ == Map::<K, V>::empty() && counts.0 == 0,
{
    if always {
        assert forall|k: K| m0@.contains_key(k) implies m1@.contains_key(k) by {
            if !m1@.contains_key(k) {
                assert(call_ensures(f, (&k, &m0@[k]), false));
            }
        }
        assert(m1@ =~= m0@);
        assert(m0@.dom().difference(m1@.dom()) =~= Set::<K>::empty());
    } else {
        assert forall|k: K| !m1@.contains_key(k) by {
            if m1@.contains_key(k) {
                assert(call_ensures(f, (&k, &m0@[k]), true));
            }
        }
        assert(m1@ =~= Map::<K, V>::empty());
        assert(m1@.dom() =~= Set::<K>::empty());
    }
}

} // verus!
