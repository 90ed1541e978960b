//! Map helpers with the same semantics the analyzer expects.
use std::collections::HashMap;
use std::hash::Hash;
use vstd::prelude::*;
use vstd::std_specs::hash::obeys_key_model;

verus! {

/// Returns the value for `key`, which the map must hold.
pub fn must_get<'a, K, V>(map: &'a HashMap<K, V>, key: &K) -> (res: &'a V)
    where
        K: Eq + Hash,
    requires
        obeys_key_model::<K>(),
        map@.contains_key(*key),
    ensures
        *res == map@[*key],
{
    map.get(key).unwrap()
}

} // verus!
